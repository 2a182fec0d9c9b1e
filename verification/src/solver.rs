//! The solver: search over the states a board can reach by legal moves,
//! to decide whether a deal can still be won within a search budget.

use vstd::prelude::*;

use crate::cards::{Color, Stack, StackRole, StackV, Suite, top_of};
use crate::rules::{
    button_move_ok, calc_possible_moves, cards_move_ok, check_victory, collect_target_ok,
    is_button_move_of, lemma_dragon_top_indices, lemma_target_move_keeps_run, move_enabled,
    target_run_ok, targets_ok, valid_pair, victory_spec, views, Move,
};

verus! {

/// What a search reports: `Unknown` when the budget ran out first,
/// `Winable` with the depth at which a won position was taken from the
/// frontier, `Lost` when the explored frontier was exhausted without a win.
#[derive(Copy, Clone, Debug, Eq, PartialEq, Structural)]
pub enum AiResult {
    Unknown,
    Winable(i32),
    Lost,
}

/// The position after the top `n` cards of stack `s` are carried, in
/// order, onto stack `t`.
pub open spec fn apply_cards_move(sv: Seq<StackV>, t: int, s: int, n: int) -> Seq<StackV> {
    let src = sv[s];
    let dst = sv[t];
    let moved = src.cards.skip(src.cards.len() - n);
    sv.update(s, StackV { role: src.role, cards: src.cards.take(src.cards.len() - n) }).update(
        t,
        StackV { role: dst.role, cards: dst.cards + moved },
    )
}

/// The position after the top card of each stack listed in `srcs` is
/// removed, in list order.
pub open spec fn pop_tops(sv: Seq<StackV>, srcs: Seq<int>) -> Seq<StackV>
    decreases srcs.len(),
{
    if srcs.len() == 0 {
        sv
    } else {
        let prev = pop_tops(sv, srcs.drop_last());
        let i = srcs.last();
        prev.update(i, StackV { role: prev[i].role, cards: prev[i].cards.drop_last() })
    }
}

/// Popping tops keeps the number of stacks, touches no stack outside the
/// list, and keeps every stack's role.
pub proof fn lemma_pop_tops(sv: Seq<StackV>, srcs: Seq<int>)
    requires
        forall|k: int| 0 <= k < srcs.len() ==> 0 <= #[trigger] srcs[k] < sv.len(),
    ensures
        pop_tops(sv, srcs).len() == sv.len(),
        forall|j: int|
            0 <= j < sv.len() && !srcs.contains(j) ==> #[trigger] pop_tops(sv, srcs)[j] == sv[j],
        forall|j: int|
            0 <= j < sv.len() ==> #[trigger] pop_tops(sv, srcs)[j].role == sv[j].role,
    decreases srcs.len(),
{
    if srcs.len() > 0 {
        assert forall|k: int| 0 <= k < srcs.drop_last().len() implies 0 <= #[trigger] srcs.drop_last()[k]
            < sv.len() by {
            assert(srcs.drop_last()[k] == srcs[k]);
        }
        lemma_pop_tops(sv, srcs.drop_last());
        assert forall|j: int| 0 <= j < sv.len() && !srcs.contains(j) implies #[trigger] pop_tops(
            sv,
            srcs,
        )[j] == sv[j] by {
            assert(srcs[srcs.len() - 1] == srcs.last());
            assert(srcs.last() != j);
            assert forall|k: int| 0 <= k < srcs.drop_last().len() implies srcs.drop_last()[k]
                != j by {
                assert(srcs.drop_last()[k] == srcs[k]);
            }
            assert(!srcs.drop_last().contains(j));
        }
    }
}

/// The position after the button move `(t, srcs)`: the four sources lose
/// their top dragon and the target gains four face-down cards.
pub open spec fn apply_button_move(sv: Seq<StackV>, t: int, srcs: Seq<int>) -> Seq<StackV> {
    let popped = pop_tops(sv, srcs);
    popped.update(
        t,
        StackV {
            role: popped[t].role,
            cards: popped[t].cards + seq![
                Suite::FaceDown,
                Suite::FaceDown,
                Suite::FaceDown,
                Suite::FaceDown,
            ],
        },
    )
}

/// The position `m` leads to.
pub open spec fn apply_move_spec(sv: Seq<StackV>, m: Move) -> Seq<StackV> {
    match m {
        Move::Button(_, t, srcs) => apply_button_move(
            sv,
            t as int,
            srcs@.map_values(|u: usize| u as int),
        ),
        Move::Cards(t, s, n) => apply_cards_move(sv, t as int, s as int, n as int),
    }
}

/// One legal move leads from `a` to `b`.
pub open spec fn step(a: Seq<StackV>, b: Seq<StackV>) -> bool {
    exists|m: Move| #[trigger] move_enabled(a, m) && b == apply_move_spec(a, m)
}

/// Playing the listed moves, first move first, carries position `a` to
/// position `b`; every move must be legal where it is played.
pub open spec fn plays(a: Seq<StackV>, ms: Seq<Move>, b: Seq<StackV>) -> bool
    decreases ms.len(),
{
    if ms.len() == 0 {
        a == b
    } else {
        move_enabled(a, ms[0]) && plays(apply_move_spec(a, ms[0]), ms.skip(1), b)
    }
}

/// `b` is reachable from `a` by some sequence of legal moves.
pub open spec fn reachable(a: Seq<StackV>, b: Seq<StackV>) -> bool {
    exists|ms: Seq<Move>| plays(a, ms, b)
}

/// One more legal move extends a play by one.
pub proof fn lemma_plays_snoc(a: Seq<StackV>, ms: Seq<Move>, b: Seq<StackV>, m: Move)
    requires
        plays(a, ms, b),
        move_enabled(b, m),
    ensures
        plays(a, ms.push(m), apply_move_spec(b, m)),
    decreases ms.len(),
{
    if ms.len() == 0 {
        reveal_with_fuel(plays, 3);
        assert(ms.push(m)[0] == m);
        assert(ms.push(m).skip(1) =~= Seq::<Move>::empty());
    } else {
        lemma_plays_snoc(apply_move_spec(a, ms[0]), ms.skip(1), b, m);
        assert(ms.push(m)[0] == ms[0]);
        assert(ms.push(m).skip(1) =~= ms.skip(1).push(m));
    }
}

/// Playing a legal move keeps the number of stacks and every stack's role.
pub proof fn lemma_apply_keeps_roles(sv: Seq<StackV>, m: Move)
    requires
        move_enabled(sv, m),
    ensures
        apply_move_spec(sv, m).len() == sv.len(),
        forall|i: int|
            0 <= i < sv.len() ==> (#[trigger] apply_move_spec(sv, m)[i]).role == sv[i].role,
{
    match m {
        Move::Cards(t, s, n) => {},
        Move::Button(color, t, srcs) => {
            let srcs_int = srcs@.map_values(|u: usize| u as int);
            lemma_dragon_top_indices(sv, color);
            assert forall|k: int| 0 <= k < srcs_int.len() implies 0 <= #[trigger] srcs_int[k]
                < sv.len() by {
                assert(srcs_int[k] == crate::rules::dragon_top_indices(sv, color)[k]);
            }
            lemma_pop_tops(sv, srcs_int);
        },
    }
}

/// No legal move breaks a target stack's run: the only card a move may
/// put on a target stack is the one the target accepts.
pub proof fn lemma_move_keeps_targets(sv: Seq<StackV>, m: Move)
    requires
        move_enabled(sv, m),
        targets_ok(sv),
    ensures
        targets_ok(apply_move_spec(sv, m)),
{
    lemma_apply_keeps_roles(sv, m);
    let sv2 = apply_move_spec(sv, m);
    match m {
        Move::Cards(tu, su, nu) => {
            let t = tu as int;
            let s = su as int;
            let n = nu as int;
            assert forall|i: int|
                0 <= i < sv2.len() && (#[trigger] sv2[i]).role == StackRole::Target implies target_run_ok(
                sv2[i].cards,
            ) by {
                if i == t {
                    if sv[t].role == StackRole::Target {
                        let base = sv[s].cards[sv[s].cards.len() - n];
                        assert(n == 1);
                        assert(sv[s].cards.skip(sv[s].cards.len() - 1) =~= seq![base]);
                        assert(sv2[t].cards =~= sv[t].cards.push(base));
                        lemma_target_move_keeps_run(sv[t], base);
                    }
                } else if i == s {
                    assert(sv[s].cards.len() > 0);
                    assert(sv[s].role != StackRole::Target);
                } else {
                    assert(sv2[i] == sv[i]);
                }
            }
        },
        Move::Button(color, tu, srcs) => {
            let t = tu as int;
            let srcs_int = srcs@.map_values(|u: usize| u as int);
            lemma_dragon_top_indices(sv, color);
            assert forall|k: int| 0 <= k < srcs_int.len() implies 0 <= #[trigger] srcs_int[k]
                < sv.len() by {
                assert(srcs_int[k] == crate::rules::dragon_top_indices(sv, color)[k]);
            }
            lemma_pop_tops(sv, srcs_int);
            assert forall|i: int|
                0 <= i < sv2.len() && (#[trigger] sv2[i]).role == StackRole::Target implies target_run_ok(
                sv2[i].cards,
            ) by {
                assert(sv[t].role == StackRole::Dragon);
                assert(i != t);
                assert(!crate::rules::shows_dragon(sv[i], color)) by {
                    if sv[i].cards.len() > 0 {
                        assert(crate::rules::target_card_ok(sv[i].cards, sv[i].cards.len() - 1));
                    }
                }
                assert(!srcs_int.contains(i)) by {
                    if srcs_int.contains(i) {
                        let k = choose|k: int|
                            0 <= k < srcs_int.len() && srcs_int[k] == i;
                        assert(srcs_int[k] == crate::rules::dragon_top_indices(sv, color)[k]);
                        assert(crate::rules::shows_dragon(sv[i], color));
                    }
                }
                assert(pop_tops(sv, srcs_int)[i] == sv[i]);
                assert(sv2[i] == sv[i]);
            }
        },
    }
}

/// No play breaks the target stacks' runs: every position reachable by
/// legal moves from a board whose target stacks hold valid ascending runs
/// again holds valid ascending runs.
pub proof fn lemma_plays_keep_targets(a: Seq<StackV>, ms: Seq<Move>, b: Seq<StackV>)
    requires
        plays(a, ms, b),
        targets_ok(a),
    ensures
        targets_ok(b),
    decreases ms.len(),
{
    if ms.len() > 0 {
        lemma_move_keeps_targets(a, ms[0]);
        lemma_plays_keep_targets(apply_move_spec(a, ms[0]), ms.skip(1), b);
    }
}

/// The heuristic value of the run sitting on top of a stack: the number of
/// consecutive valid pairs counted downward from the top, stopping at the
/// first break.
pub open spec fn run_score(cards: Seq<Suite>) -> int
    decreases cards.len(),
{
    if cards.len() < 2 {
        0
    } else if valid_pair(cards[cards.len() - 2], cards.last()) {
        1 + run_score(cards.drop_last())
    } else {
        0
    }
}

/// The heuristic value of one stack: a collected dragon block counts 100,
/// a target stack counts ten times its top rank, a sorting stack counts
/// its top run.
pub open spec fn stack_score(s: StackV) -> int {
    match s.role {
        StackRole::Dragon => if s.cards.len() > 0 && s.cards.last() == Suite::FaceDown {
            100
        } else {
            0
        },
        StackRole::Target => match top_of(s.cards) {
            Some(Suite::Number(n, _)) => 10 * n,
            _ => 0,
        },
        StackRole::Sorting => run_score(s.cards),
        _ => 0,
    }
}

/// The heuristic value of a whole position; higher means closer to a win.
pub open spec fn state_score(sv: Seq<StackV>) -> int
    decreases sv.len(),
{
    if sv.len() == 0 {
        0
    } else {
        state_score(sv.drop_last()) + stack_score(sv.last())
    }
}

proof fn lemma_run_score_bound(cards: Seq<Suite>)
    ensures
        0 <= run_score(cards) <= cards.len(),
    decreases cards.len(),
{
    if cards.len() >= 2 && valid_pair(cards[cards.len() - 2], cards.last()) {
        lemma_run_score_bound(cards.drop_last());
    }
}

/// A snapshot of a board's stacks: the node of the search space. Two
/// snapshots are the same search state exactly when all stack contents and
/// roles agree, in order.
#[derive(Debug)]
pub struct AiState {
    stacks: Vec<Stack>,
}

impl View for AiState {
    type V = Seq<StackV>;

    closed spec fn view(&self) -> Seq<StackV> {
        views(self.stacks@)
    }
}

/// Whether the state list holds an entry equal, as a position, to `s`.
pub open spec fn seen_spec(vs: Seq<AiState>, s: Seq<StackV>) -> bool {
    exists|i: int| 0 <= i < vs.len() && #[trigger] vs[i]@ == s
}

/// Whether the frontier holds an entry whose state is the position `s`.
pub open spec fn frontier_has(
    q: Seq<(u128, i32, AiState, Ghost<Seq<Move>>)>,
    s: Seq<StackV>,
) -> bool {
    exists|j: int| 0 <= j < q.len() && #[trigger] q[j].2@ == s
}

/// Every legal move out of a listed position leads back to a listed
/// position.
pub open spec fn closed_under_moves(vs: Seq<AiState>) -> bool {
    forall|i: int, m: Move|
        0 <= i < vs.len() && #[trigger] move_enabled(vs[i]@, m) ==> seen_spec(
            vs,
            apply_move_spec(vs[i]@, m),
        )
}

/// A list of positions closed under legal moves that holds `a` also holds
/// the end of every play out of `a`.
pub proof fn lemma_closed_catches_plays(
    vs: Seq<AiState>,
    a: Seq<StackV>,
    ms: Seq<Move>,
    b: Seq<StackV>,
)
    requires
        closed_under_moves(vs),
        seen_spec(vs, a),
        plays(a, ms, b),
    ensures
        seen_spec(vs, b),
    decreases ms.len(),
{
    if ms.len() > 0 {
        let i = choose|i: int| 0 <= i < vs.len() && #[trigger] vs[i]@ == a;
        assert(move_enabled(vs[i]@, ms[0]));
        assert(seen_spec(vs, apply_move_spec(vs[i]@, ms[0])));
        lemma_closed_catches_plays(vs, apply_move_spec(a, ms[0]), ms.skip(1), b);
    }
}

/// A color has at most one button move: the target is the first collection
/// slot and the sources are exactly the stacks showing that dragon.
pub proof fn lemma_button_move_unique(
    sv: Seq<StackV>,
    color: Color,
    t1: int,
    s1: Seq<int>,
    t2: int,
    s2: Seq<int>,
)
    requires
        button_move_ok(sv, color, t1, s1),
        button_move_ok(sv, color, t2, s2),
    ensures
        t1 == t2,
        s1 == s2,
{
    if t1 < t2 {
        assert(!collect_target_ok(sv[t1], color));
    }
    if t2 < t1 {
        assert(!collect_target_ok(sv[t2], color));
    }
}

/// The positions of the listed states, in order.
pub open spec fn positions_of(vs: Seq<AiState>) -> Seq<Seq<StackV>> {
    vs.map_values(|s: AiState| s@)
}

/// `n` counts a set of pairwise-distinct positions, each reachable from
/// `init`: what a search's expansion count certifies, since no position is
/// expanded twice.
pub open spec fn counts_distinct_reachable(init: Seq<StackV>, n: int) -> bool {
    exists|w: Seq<Seq<StackV>>|
        #![trigger w.len()]
        {
            &&& w.len() == n
            &&& (forall|i: int| 0 <= i < w.len() ==> reachable(init, #[trigger] w[i]))
            &&& (forall|i: int, j: int| 0 <= i < j < w.len() ==> w[i] != w[j])
        }
}

/// A list of pairwise-distinct reachable states witnesses its own length.
proof fn lemma_expansions_witness(init: Seq<StackV>, vs: Seq<AiState>, n: int)
    requires
        n == vs.len(),
        forall|i: int| 0 <= i < vs.len() ==> reachable(init, #[trigger] vs[i]@),
        forall|i: int, j: int| 0 <= i < j < vs.len() ==> vs[i]@ != vs[j]@,
    ensures
        counts_distinct_reachable(init, n),
{
    let w = positions_of(vs);
    assert(w.len() == n);
    assert forall|i: int| 0 <= i < w.len() implies reachable(init, #[trigger] w[i]) by {
        assert(w[i] == vs[i]@);
    }
    assert forall|i: int, j: int| 0 <= i < j < w.len() implies w[i] != w[j] by {
        assert(w[i] == vs[i]@ && w[j] == vs[j]@);
    }
}

/// True iff the two stacks agree in role and cards.
fn stack_equal(a: &Stack, b: &Stack) -> (r: bool)
    ensures
        r == (a@ == b@),
{
    if a.role != b.role {
        proof {
            assert(a@.role != b@.role);
        }
        return false;
    }
    if a.cards.len() != b.cards.len() {
        return false;
    }
    let mut i: usize = 0;
    while i < a.cards.len()
        invariant
            i <= a.cards@.len(),
            a.cards@.len() == b.cards@.len(),
            a.role == b.role,
            forall|j: int| 0 <= j < i ==> a.cards@[j] == b.cards@[j],
        decreases a.cards@.len() - i,
    {
        if a.cards[i] != b.cards[i] {
            return false;
        }
        i = i + 1;
    }
    proof {
        assert(a@.cards =~= b@.cards);
        assert(a@ =~= b@);
    }
    true
}

impl AiState {
    pub fn new(stacks: Vec<Stack>) -> (r: AiState)
        ensures
            r@ == views(stacks@),
    {
        AiState { stacks }
    }

    /// The stacks of this state, given back to the caller.
    pub fn into_stacks(self) -> (r: Vec<Stack>)
        ensures
            views(r@) == self@,
    {
        self.stacks
    }

    /// A copy of this state with the same position.
    pub fn duplicate(&self) -> (r: AiState)
        ensures
            r@ == self@,
    {
        let mut stacks: Vec<Stack> = Vec::new();
        let mut i: usize = 0;
        while i < self.stacks.len()
            invariant
                i <= self.stacks@.len(),
                stacks@.len() == i,
                forall|j: int| 0 <= j < i ==> #[trigger] stacks@[j]@ == self.stacks@[j]@,
            decreases self.stacks@.len() - i,
        {
            stacks.push(self.stacks[i].duplicate());
            i = i + 1;
        }
        let r = AiState { stacks };
        proof {
            assert(r@ =~= self@);
        }
        r
    }

    /// True iff the two states are the same position.
    pub fn same_position(&self, other: &AiState) -> (r: bool)
        ensures
            r == (self@ == other@),
    {
        if self.stacks.len() != other.stacks.len() {
            proof {
                assert(self@.len() != other@.len());
            }
            return false;
        }
        let mut i: usize = 0;
        while i < self.stacks.len()
            invariant
                i <= self.stacks@.len(),
                self.stacks@.len() == other.stacks@.len(),
                forall|j: int| 0 <= j < i ==> self@[j] == other@[j],
            decreases self.stacks@.len() - i,
        {
            if !stack_equal(&self.stacks[i], &other.stacks[i]) {
                proof {
                    assert(self@[i as int] != other@[i as int]);
                }
                return false;
            }
            i = i + 1;
        }
        proof {
            assert(self@ =~= other@);
        }
        true
    }

    /// The position after `m`, which must be legal, is played; this state
    /// itself is left unchanged.
    pub fn apply_move(&self, m: Move) -> (r: AiState)
        requires
            move_enabled(self@, m),
        ensures
            r@ == apply_move_spec(self@, m),
    {
        let ghost sv = self@;
        let mut st = self.duplicate();
        match m {
            Move::Cards(t, s, n) => {
                let mut src = st.stacks[s].duplicate();
                let at = src.len() - n;
                let moved = src.split(at);
                st.stacks[s] = src;
                let mut dst = st.stacks[t].duplicate();
                dst.extend(moved);
                st.stacks[t] = dst;
                proof {
                    assert(st@ =~= apply_cards_move(sv, t as int, s as int, n as int));
                }
            },
            Move::Button(color, t, srcs) => {
                let ghost srcs_int = srcs@.map_values(|u: usize| u as int);
                proof {
                    lemma_dragon_top_indices(sv, color);
                    assert forall|k: int| 0 <= k < srcs_int.len() implies 0 <= #[trigger] srcs_int[k]
                        < sv.len() && crate::rules::shows_dragon(sv[srcs_int[k]], color) by {
                        assert(srcs_int[k] == crate::rules::dragon_top_indices(sv, color)[k]);
                    }
                }
                let mut k: usize = 0;
                while k < 4
                    invariant
                        k <= 4,
                        srcs_int == srcs@.map_values(|u: usize| u as int),
                        srcs_int == crate::rules::dragon_top_indices(sv, color),
                        srcs_int.len() == 4,
                        forall|k2: int|
                            0 <= k2 < 4 ==> 0 <= #[trigger] srcs_int[k2] < sv.len()
                                && crate::rules::shows_dragon(sv[srcs_int[k2]], color),
                        forall|k1: int, k2: int| 0 <= k1 < k2 < 4 ==> srcs_int[k1] < srcs_int[k2],
                        st.stacks@.len() == sv.len(),
                        views(st.stacks@) == pop_tops(sv, srcs_int.take(k as int)),
                    decreases 4 - k,
                {
                    let si = srcs[k];
                    proof {
                        assert(si == srcs@[k as int]);
                        assert(si as int == srcs_int[k as int]);
                        assert(0 <= (si as int) && (si as int) < sv.len());
                        let taken = srcs_int.take(k as int);
                        assert forall|k2: int| 0 <= k2 < taken.len() implies 0 <= #[trigger] taken[k2]
                            < sv.len() by {
                            assert(taken[k2] == srcs_int[k2]);
                        }
                        lemma_pop_tops(sv, taken);
                        assert(!taken.contains(si as int)) by {
                            if taken.contains(si as int) {
                                let k2 = choose|k2: int|
                                    0 <= k2 < taken.len() && taken[k2] == si as int;
                                assert(srcs_int[k2] == si as int);
                                assert(srcs_int[k2] < srcs_int[k as int]);
                            }
                        }
                        assert(views(st.stacks@)[si as int] == sv[si as int]);
                        assert(views(st.stacks@)[si as int] == st.stacks@[si as int]@);
                        assert(sv[si as int].cards.len() > 0);
                    }
                    let mut src = st.stacks[si].duplicate();
                    src.pop_card();
                    st.stacks[si] = src;
                    proof {
                        let taken = srcs_int.take(k as int);
                        let taken1 = srcs_int.take(k + 1);
                        assert(taken1.drop_last() =~= taken);
                        assert(taken1.last() == srcs_int[k as int]);
                        assert(views(st.stacks@) =~= pop_tops(sv, taken1));
                    }
                    k = k + 1;
                }
                proof {
                    assert(srcs_int.take(4) =~= srcs_int);
                    lemma_pop_tops(sv, srcs_int);
                    assert(views(st.stacks@)[t as int] == st.stacks@[t as int]@);
                }
                let mut dst = st.stacks[t].duplicate();
                dst.push_card(Suite::FaceDown);
                dst.push_card(Suite::FaceDown);
                dst.push_card(Suite::FaceDown);
                dst.push_card(Suite::FaceDown);
                st.stacks[t] = dst;
                proof {
                    let popped = pop_tops(sv, srcs_int);
                    assert(dst@.cards =~= popped[t as int].cards + seq![
                        Suite::FaceDown,
                        Suite::FaceDown,
                        Suite::FaceDown,
                        Suite::FaceDown,
                    ]);
                    assert(st@ =~= apply_button_move(sv, t as int, srcs_int));
                }
            },
        }
        st
    }

    /// The heuristic score of this position.
    pub fn score(&self) -> (r: u128)
        ensures
            r as int == state_score(self@),
    {
        let ghost sv = self@;
        let mut total: u128 = 0;
        let mut i: usize = 0;
        while i < self.stacks.len()
            invariant
                i <= self.stacks@.len(),
                sv == self@,
                total as int == state_score(sv.take(i as int)),
                total as int <= (i as int) * 0xffff_ffff_ffff_ffffu64,
            decreases self.stacks@.len() - i,
        {
            let stack = &self.stacks[i];
            proof {
                assert(sv[i as int] == self.stacks@[i as int]@);
            }
            let contribution: u64 = match stack.role {
                StackRole::Dragon => {
                    match stack.top() {
                        Some(Suite::FaceDown) => 100,
                        _ => 0,
                    }
                },
                StackRole::Target => {
                    match stack.top() {
                        Some(Suite::Number(n, _)) => 10 * (n as u64),
                        _ => 0,
                    }
                },
                StackRole::Sorting => stack_run_score(stack) as u64,
                _ => 0,
            };
            proof {
                assert(contribution as int == stack_score(sv[i as int]));
                let next = sv.take(i + 1);
                assert(next.drop_last() =~= sv.take(i as int));
                assert(next.last() == sv[i as int]);
                assert((total as int) + (contribution as int) <= ((i + 1) as int)
                    * 0xffff_ffff_ffff_ffffu64 <= 0xffff_ffff_ffff_ffff_ffff_ffff_ffff_ffffu128)
                    by (nonlinear_arith)
                    requires
                        total as int <= (i as int) * 0xffff_ffff_ffff_ffffu64,
                        contribution as int <= 0xffff_ffff_ffff_ffffu64,
                        0 <= i < 0xffff_ffff_ffff_ffffu64,
                ;
            }
            total = total + (contribution as u128);
            i = i + 1;
        }
        proof {
            assert(sv.take(sv.len() as int) =~= sv);
        }
        total
    }
}

/// What holds of every entry of a search frontier: its depth is no larger
/// than the number of expansions so far, and its ghost move list plays
/// from the initial position to its state in exactly that many moves.
spec fn entry_inv(init: Seq<StackV>, e: (u128, i32, AiState, Ghost<Seq<Move>>), exp: int) -> bool {
    &&& 0 <= e.1
    &&& e.1 <= exp
    &&& e.3@.len() == e.1
    &&& plays(init, e.3@, e.2@)
}

/// Removes and returns an entry with the greatest score.
fn pop_best(queue: &mut Vec<(u128, i32, AiState, Ghost<Seq<Move>>)>) -> (r: (
    u128,
    i32,
    AiState,
    Ghost<Seq<Move>>,
))
    requires
        old(queue)@.len() > 0,
    ensures
        final(queue)@.len() == old(queue)@.len() - 1,
        old(queue)@.contains(r),
        forall|j: int|
            0 <= j < final(queue)@.len() ==> old(queue)@.contains(#[trigger] final(queue)@[j]),
        forall|j: int|
            0 <= j < old(queue)@.len() ==> (#[trigger] old(queue)@[j]) == r
                || final(queue)@.contains(old(queue)@[j]),
        forall|j: int| 0 <= j < old(queue)@.len() ==> (#[trigger] old(queue)@[j]).0 <= r.0,
{
    let mut best: usize = 0;
    let mut i: usize = 1;
    while i < queue.len()
        invariant
            best < i,
            i <= queue@.len(),
            queue@.len() > 0,
            forall|j: int| 0 <= j < i ==> (#[trigger] queue@[j]).0 <= queue@[best as int].0,
        decreases queue@.len() - i,
    {
        if queue[i].0 > queue[best].0 {
            best = i;
        }
        i = i + 1;
    }
    let ghost old_q = queue@;
    let r = queue.swap_remove(best);
    proof {
        assert(old_q[best as int] == r);
        assert(old_q.contains(r));
        assert forall|j: int| 0 <= j < queue@.len() implies old_q.contains(
            #[trigger] queue@[j],
        ) by {
            if j == best {
                assert(queue@[j] == old_q[old_q.len() - 1]);
            } else {
                assert(queue@[j] == old_q[j]);
            }
        }
        assert forall|j: int| 0 <= j < old_q.len() implies (#[trigger] old_q[j]) == r
            || queue@.contains(old_q[j]) by {
            if j != best {
                if j == old_q.len() - 1 {
                    assert(queue@[best as int] == old_q[j]);
                } else {
                    assert(queue@[j] == old_q[j]);
                }
            }
        }
    }
    r
}

/// True iff the list holds a state equal, as a position, to `st`.
fn seen_contains(visited: &Vec<AiState>, st: &AiState) -> (r: bool)
    ensures
        r == seen_spec(visited@, st@),
{
    let mut i: usize = 0;
    while i < visited.len()
        invariant
            i <= visited@.len(),
            forall|j: int| 0 <= j < i ==> #[trigger] visited@[j]@ != st@,
        decreases visited@.len() - i,
    {
        if visited[i].same_position(st) {
            return true;
        }
        i = i + 1;
    }
    false
}

/// Counting zero positions is always justified.
proof fn lemma_counts_zero(init: Seq<StackV>)
    ensures
        counts_distinct_reachable(init, 0),
{
    let w = Seq::<Seq<StackV>>::empty();
    assert(w.len() == 0);
}

/// The move list of `calc_possible_moves` covers every successor: any
/// legal move leads to the position some listed move leads to.
proof fn lemma_moves_cover_successors(sv: Seq<StackV>, moves: Seq<Move>)
    requires
        forall|i: int| 0 <= i < moves.len() ==> move_enabled(sv, #[trigger] moves[i]),
        forall|t: int, s: int, n: int| #[trigger]
            cards_move_ok(sv, t, s, n) ==> moves.contains(
                Move::Cards(t as usize, s as usize, n as usize),
            ),
        forall|color: Color, t: int, srcs: Seq<int>|
            button_move_ok(sv, color, t, srcs) ==> exists|i: int|
                0 <= i < moves.len() && is_button_move_of(#[trigger] moves[i], color),
    ensures
        forall|m: Move| #[trigger]
            move_enabled(sv, m) ==> exists|j: int|
                0 <= j < moves.len() && apply_move_spec(sv, #[trigger] moves[j])
                    == apply_move_spec(sv, m),
{
    assert forall|m: Move| #[trigger] move_enabled(sv, m) implies exists|j: int|
        0 <= j < moves.len() && apply_move_spec(sv, #[trigger] moves[j]) == apply_move_spec(
        sv,
        m,
    ) by {
        match m {
            Move::Cards(a, b, c) => {
                assert(cards_move_ok(sv, a as int, b as int, c as int));
                let mc = Move::Cards((a as int) as usize, (b as int) as usize, (c as int) as usize);
                assert(mc == m);
                assert(moves.contains(mc));
                let j = choose|j: int| 0 <= j < moves.len() && moves[j] == mc;
                assert(apply_move_spec(sv, moves[j]) == apply_move_spec(sv, m));
            },
            Move::Button(color, t, srcs) => {
                let srcs_int = srcs@.map_values(|u: usize| u as int);
                assert(button_move_ok(sv, color, t as int, srcs_int));
                let j = choose|j: int|
                    0 <= j < moves.len() && is_button_move_of(#[trigger] moves[j], color);
                assert(move_enabled(sv, moves[j]));
                match moves[j] {
                    Move::Button(c2, t2, srcs2) => {
                        let srcs2_int = srcs2@.map_values(|u: usize| u as int);
                        assert(button_move_ok(sv, color, t2 as int, srcs2_int));
                        lemma_button_move_unique(
                            sv,
                            color,
                            t as int,
                            srcs_int,
                            t2 as int,
                            srcs2_int,
                        );
                        assert(apply_move_spec(sv, moves[j]) == apply_button_move(
                            sv,
                            t2 as int,
                            srcs2_int,
                        ));
                        assert(apply_move_spec(sv, m) == apply_button_move(sv, t as int, srcs_int));
                    },
                    Move::Cards(_, _, _) => {
                        assert(false);
                    },
                }
            },
        }
    }
}

/// Pushing the successor of the move at `mi` onto the frontier keeps every
/// legal move covered: its successor is on the frontier already or a move
/// past `mi` leads to it.
proof fn lemma_cover_step(
    sv: Seq<StackV>,
    moves: Seq<Move>,
    prev_q: Seq<(u128, i32, AiState, Ghost<Seq<Move>>)>,
    q: Seq<(u128, i32, AiState, Ghost<Seq<Move>>)>,
    mi: int,
)
    requires
        0 <= mi < moves.len(),
        q.len() == prev_q.len() + 1,
        forall|j: int| 0 <= j < prev_q.len() ==> q[j] == #[trigger] prev_q[j],
        q[q.len() - 1].2@ == apply_move_spec(sv, moves[mi]),
        forall|m: Move| #[trigger]
            move_enabled(sv, m) ==> frontier_has(prev_q, apply_move_spec(sv, m)) || exists|j: int|
                mi <= j < moves.len() && apply_move_spec(sv, #[trigger] moves[j])
                    == apply_move_spec(sv, m),
    ensures
        forall|m: Move| #[trigger]
            move_enabled(sv, m) ==> frontier_has(q, apply_move_spec(sv, m)) || exists|j: int|
                mi + 1 <= j < moves.len() && apply_move_spec(sv, #[trigger] moves[j])
                    == apply_move_spec(sv, m),
        forall|x: Seq<StackV>| #[trigger] frontier_has(prev_q, x) ==> frontier_has(q, x),
{
    assert forall|x: Seq<StackV>| #[trigger] frontier_has(prev_q, x) implies frontier_has(
        q,
        x,
    ) by {
        let j = choose|j: int| 0 <= j < prev_q.len() && #[trigger] prev_q[j].2@ == x;
        assert(q[j].2@ == x);
    }
    assert(frontier_has(q, apply_move_spec(sv, moves[mi])));
    assert forall|m: Move| #[trigger] move_enabled(sv, m) implies frontier_has(
        q,
        apply_move_spec(sv, m),
    ) || exists|j: int|
        mi + 1 <= j < moves.len() && apply_move_spec(sv, #[trigger] moves[j]) == apply_move_spec(
        sv,
        m,
    ) by {
        if !frontier_has(prev_q, apply_move_spec(sv, m)) {
            let j = choose|j: int|
                mi <= j < moves.len() && apply_move_spec(sv, #[trigger] moves[j])
                    == apply_move_spec(sv, m);
            if j == mi {
                assert(frontier_has(q, apply_move_spec(sv, m)));
            }
        }
    }
}

impl AiState {
    /// The heuristic best-first search, also reporting how many states it
    /// expanded. States are taken from the frontier highest score first; a
    /// state equal to one already expanded is dropped, so no position is
    /// expanded twice; each expansion spends one unit of the budget, and a
    /// spent budget ends the search with `Unknown` before any `Lost` could
    /// be concluded.
    #[verifier::rlimit(100)]
    pub fn priority_search(&self, iterations: usize) -> (r: (AiResult, usize))
        requires
            iterations <= 0x7fff_ffff,
        ensures
            r.0 matches AiResult::Winable(d) ==> 0 <= d && exists|ms: Seq<Move>, w: Seq<StackV>|
                ms.len() == d && #[trigger] plays(self@, ms, w) && victory_spec(w),
            r.0 matches AiResult::Winable(d) ==> exists|w: Seq<StackV>| #[trigger]
                reachable(self@, w) && victory_spec(w),
            r.0 is Lost ==> r.1 < iterations,
            r.0 is Lost ==> forall|ms: Seq<Move>, w: Seq<StackV>| #[trigger]
                plays(self@, ms, w) ==> !victory_spec(w),
            counts_distinct_reachable(self@, r.1 as int),
            iterations == 0 ==> r.0 is Unknown,
            victory_spec(self@) && iterations >= 1 ==> r.0 == AiResult::Winable(0i32),
            !victory_spec(self@) && iterations == 1 ==> r.0 is Unknown,
            r.1 <= iterations,
    {
        let ghost init = self@;
        proof {
            lemma_counts_zero(init);
        }
        if iterations == 0 {
            return (AiResult::Unknown, 0);
        }
        if check_victory(&self.stacks) {
            proof {
                assert(plays(init, Seq::<Move>::empty(), init));
                assert(reachable(init, init));
            }
            return (AiResult::Winable(0), 0);
        }
        let mut budget = iterations - 1;
        if budget == 0 {
            return (AiResult::Unknown, 0);
        }
        let mut visited: Vec<AiState> = Vec::new();
        visited.push(self.duplicate());
        let mut expanded: usize = 1;
        let mut queue: Vec<(u128, i32, AiState, Ghost<Seq<Move>>)> = Vec::new();
        let moves = calc_possible_moves(&self.stacks);
        proof {
            lemma_moves_cover_successors(init, moves@);
            assert(plays(init, Seq::<Move>::empty(), init));
            assert(reachable(init, init));
            assert(visited@[0]@ == init);
            assert(seen_spec(visited@, init));
        }
        let mut mi: usize = 0;
        while mi < moves.len()
            invariant
                init == self@,
                mi <= moves@.len(),
                forall|i: int| 0 <= i < moves@.len() ==> move_enabled(init, #[trigger] moves@[i]),
                forall|j: int| 0 <= j < queue@.len() ==> entry_inv(init, #[trigger] queue@[j], 1),
                forall|m: Move| #[trigger]
                    move_enabled(init, m) ==> frontier_has(queue@, apply_move_spec(init, m))
                        || exists|j: int|
                        mi <= j < moves@.len() && apply_move_spec(init, #[trigger] moves@[j])
                            == apply_move_spec(init, m),
            decreases moves@.len() - mi,
        {
            let child = self.apply_move(moves[mi]);
            let sc = child.score();
            let ghost m = moves@[mi as int];
            let ghost prev_q = queue@;
            proof {
                assert(move_enabled(init, m) && child@ == apply_move_spec(init, m));
                assert(plays(init, Seq::<Move>::empty(), init));
                lemma_plays_snoc(init, Seq::<Move>::empty(), init, m);
                assert(plays(init, Seq::<Move>::empty().push(m), child@));
            }
            queue.push((sc, 1, child, Ghost(Seq::<Move>::empty().push(m))));
            proof {
                assert(queue@[queue@.len() - 1].2@ == apply_move_spec(init, m));
                lemma_cover_step(init, moves@, prev_q, queue@, mi as int);
            }
            mi = mi + 1;
        }
        while queue.len() > 0
            invariant
                init == self@,
                !victory_spec(init),
                iterations <= 0x7fff_ffff,
                budget >= 1,
                budget <= iterations - 1,
                expanded as int <= iterations - budget,
                expanded == visited@.len(),
                seen_spec(visited@, init),
                forall|j: int|
                    0 <= j < queue@.len() ==> entry_inv(
                        init,
                        #[trigger] queue@[j],
                        expanded as int,
                    ),
                forall|i: int| 0 <= i < visited@.len() ==> !victory_spec(#[trigger] visited@[i]@),
                forall|i: int|
                    0 <= i < visited@.len() ==> reachable(init, #[trigger] visited@[i]@),
                forall|i: int, j: int|
                    0 <= i < j < visited@.len() ==> visited@[i]@ != visited@[j]@,
                forall|i: int, m: Move|
                    0 <= i < visited@.len() && #[trigger] move_enabled(visited@[i]@, m)
                        ==> seen_spec(visited@, apply_move_spec(visited@[i]@, m)) || frontier_has(
                        queue@,
                        apply_move_spec(visited@[i]@, m),
                    ),
            decreases budget, queue@.len(),
        {
            let ghost old_q = queue@;
            let e = pop_best(&mut queue);
            proof {
                let j = choose|j: int| 0 <= j < old_q.len() && old_q[j] == e;
                assert(entry_inv(init, e, expanded as int));
                assert forall|x: Seq<StackV>| frontier_has(old_q, x) implies frontier_has(
                    queue@,
                    x,
                ) || x == e.2@ by {
                    let j2 = choose|j2: int| 0 <= j2 < old_q.len() && #[trigger] old_q[j2].2@ == x;
                    if old_q[j2] != e {
                        assert(queue@.contains(old_q[j2]));
                        let k = choose|k: int| 0 <= k < queue@.len() && #[trigger] queue@[k] == old_q[j2];
                        assert(queue@[k].2@ == x);
                    }
                }
            }
            if seen_contains(&visited, &e.2) {
                proof {
                    assert forall|i: int, m: Move|
                        0 <= i < visited@.len() && #[trigger] move_enabled(visited@[i]@, m) implies seen_spec(
                        visited@,
                        apply_move_spec(visited@[i]@, m),
                    ) || frontier_has(queue@, apply_move_spec(visited@[i]@, m)) by {
                        let x = apply_move_spec(visited@[i]@, m);
                        if !seen_spec(visited@, x) {
                            assert(frontier_has(old_q, x));
                            if x == e.2@ {
                                assert(seen_spec(visited@, x));
                            }
                        }
                    }
                }
                continue ;
            }
            if check_victory(&e.2.stacks) {
                proof {
                    assert(victory_spec(e.2@));
                    assert(plays(init, e.3@, e.2@) && e.3@.len() == e.1);
                    assert(reachable(init, e.2@));
                    lemma_expansions_witness(init, visited@, expanded as int);
                }
                return (AiResult::Winable(e.1), expanded);
            }
            budget = budget - 1;
            if budget == 0 {
                proof {
                    lemma_expansions_witness(init, visited@, expanded as int);
                }
                return (AiResult::Unknown, expanded);
            }
            let d = e.1;
            let st = e.2;
            let ghost path = e.3@;
            let ghost prev_vis = visited@;
            visited.push(st.duplicate());
            expanded = expanded + 1;
            proof {
                assert forall|x: Seq<StackV>| seen_spec(prev_vis, x) implies seen_spec(
                    visited@,
                    x,
                ) by {
                    let j = choose|j: int| 0 <= j < prev_vis.len() && #[trigger] prev_vis[j]@ == x;
                    assert(visited@[j]@ == x);
                }
                assert(visited@[visited@.len() - 1]@ == st@);
                assert(seen_spec(visited@, st@));
                assert(plays(init, path, st@));
                assert(reachable(init, st@));
                assert forall|i: int, j: int|
                    0 <= i < j < visited@.len() implies visited@[i]@ != visited@[j]@ by {
                    if j == visited@.len() - 1 {
                        assert(visited@[i]@ == prev_vis[i]@);
                        if visited@[i]@ == st@ {
                            assert(seen_spec(prev_vis, st@));
                        }
                    } else {
                        assert(visited@[i]@ == prev_vis[i]@ && visited@[j]@ == prev_vis[j]@);
                    }
                }
                assert forall|i: int, m: Move|
                    0 <= i < visited@.len() - 1 && #[trigger] move_enabled(visited@[i]@, m) implies seen_spec(
                    visited@,
                    apply_move_spec(visited@[i]@, m),
                ) || frontier_has(queue@, apply_move_spec(visited@[i]@, m)) by {
                    assert(visited@[i] == prev_vis[i]);
                    let x = apply_move_spec(prev_vis[i]@, m);
                    if !seen_spec(prev_vis, x) {
                        assert(frontier_has(old_q, x));
                        if x == e.2@ {
                            assert(seen_spec(visited@, x));
                        }
                    }
                }
            }
            let moves = calc_possible_moves(&st.stacks);
            proof {
                lemma_moves_cover_successors(st@, moves@);
            }
            let mut mi: usize = 0;
            while mi < moves.len()
                invariant
                    init == self@,
                    mi <= moves@.len(),
                    plays(init, path, st@),
                    path.len() == d,
                    0 <= d,
                    d < expanded,
                    expanded <= iterations,
                    iterations <= 0x7fff_ffff,
                    forall|i: int|
                        0 <= i < moves@.len() ==> move_enabled(st@, #[trigger] moves@[i]),
                    forall|j: int|
                        0 <= j < queue@.len() ==> entry_inv(
                            init,
                            #[trigger] queue@[j],
                            expanded as int,
                        ),
                    forall|i: int, m: Move|
                        0 <= i < visited@.len() - 1 && #[trigger] move_enabled(visited@[i]@, m)
                            ==> seen_spec(visited@, apply_move_spec(visited@[i]@, m))
                            || frontier_has(queue@, apply_move_spec(visited@[i]@, m)),
                    forall|m: Move| #[trigger]
                        move_enabled(st@, m) ==> frontier_has(queue@, apply_move_spec(st@, m))
                            || exists|j: int|
                            mi <= j < moves@.len() && apply_move_spec(st@, #[trigger] moves@[j])
                                == apply_move_spec(st@, m),
                decreases moves@.len() - mi,
            {
                let child = st.apply_move(moves[mi]);
                let sc = child.score();
                let ghost m = moves@[mi as int];
                let ghost prev_q = queue@;
                proof {
                    assert(move_enabled(st@, m) && child@ == apply_move_spec(st@, m));
                    lemma_plays_snoc(init, path, st@, m);
                    assert(plays(init, path.push(m), child@));
                }
                queue.push((sc, d + 1, child, Ghost(path.push(m))));
                proof {
                    assert(queue@[queue@.len() - 1].2@ == apply_move_spec(st@, m));
                    lemma_cover_step(st@, moves@, prev_q, queue@, mi as int);
                }
                mi = mi + 1;
            }
            proof {
                assert forall|i: int, m: Move|
                    0 <= i < visited@.len() && #[trigger] move_enabled(visited@[i]@, m) implies seen_spec(
                    visited@,
                    apply_move_spec(visited@[i]@, m),
                ) || frontier_has(queue@, apply_move_spec(visited@[i]@, m)) by {
                    if i == visited@.len() - 1 {
                        assert(visited@[i]@ == st@);
                    }
                }
            }
        }
        proof {
            assert forall|i: int, m: Move|
                0 <= i < visited@.len() && #[trigger] move_enabled(visited@[i]@, m) implies seen_spec(
                visited@,
                apply_move_spec(visited@[i]@, m),
            ) by {
                assert(!frontier_has(queue@, apply_move_spec(visited@[i]@, m)));
            }
            assert(closed_under_moves(visited@));
            assert forall|ms: Seq<Move>, w: Seq<StackV>| #[trigger]
                plays(init, ms, w) implies !victory_spec(w) by {
                lemma_closed_catches_plays(visited@, init, ms, w);
                let i = choose|i: int| 0 <= i < visited@.len() && #[trigger] visited@[i]@ == w;
                assert(!victory_spec(visited@[i]@));
            }
            lemma_expansions_witness(init, visited@, expanded as int);
        }
        (AiResult::Lost, expanded)
    }

    /// The heuristic best-first search over the positions reachable from
    /// this one. `Winable(d)` reports a won position taken from the
    /// frontier after `d` moves; `Unknown` reports a spent budget; `Lost`
    /// reports an exhausted frontier.
    pub fn astar(&self, iterations: usize) -> (r: AiResult)
        requires
            iterations <= 0x7fff_ffff,
        ensures
            r matches AiResult::Winable(d) ==> 0 <= d && exists|ms: Seq<Move>, w: Seq<StackV>|
                ms.len() == d && #[trigger] plays(self@, ms, w) && victory_spec(w),
            r matches AiResult::Winable(d) ==> exists|w: Seq<StackV>| #[trigger]
                reachable(self@, w) && victory_spec(w),
            r is Lost ==> forall|ms: Seq<Move>, w: Seq<StackV>| #[trigger]
                plays(self@, ms, w) ==> !victory_spec(w),
            iterations == 0 ==> r is Unknown,
            victory_spec(self@) && iterations >= 1 ==> r == AiResult::Winable(0i32),
            !victory_spec(self@) && iterations == 1 ==> r is Unknown,
    {
        let r = self.priority_search(iterations);
        r.0
    }

    /// The depth-first search: the frontier is a stack and the newest
    /// pending position is expanded first; dedup and budget work as in the
    /// priority search.
    #[verifier::rlimit(100)]
    pub fn dfs(&self, iterations: usize) -> (r: AiResult)
        requires
            iterations <= 0x7fff_ffff,
        ensures
            r matches AiResult::Winable(d) ==> 0 <= d && exists|ms: Seq<Move>, w: Seq<StackV>|
                ms.len() == d && #[trigger] plays(self@, ms, w) && victory_spec(w),
            r matches AiResult::Winable(d) ==> exists|w: Seq<StackV>| #[trigger]
                reachable(self@, w) && victory_spec(w),
            r is Lost ==> forall|ms: Seq<Move>, w: Seq<StackV>| #[trigger]
                plays(self@, ms, w) ==> !victory_spec(w),
            iterations == 0 ==> r is Unknown,
            victory_spec(self@) && iterations >= 1 ==> r == AiResult::Winable(0i32),
            !victory_spec(self@) && iterations == 1 ==> r is Unknown,
    {
        let ghost init = self@;
        if iterations == 0 {
            return AiResult::Unknown;
        }
        if check_victory(&self.stacks) {
            proof {
                assert(plays(init, Seq::<Move>::empty(), init));
                assert(reachable(init, init));
            }
            return AiResult::Winable(0);
        }
        let mut budget = iterations - 1;
        if budget == 0 {
            return AiResult::Unknown;
        }
        let mut visited: Vec<AiState> = Vec::new();
        visited.push(self.duplicate());
        let mut expanded: usize = 1;
        let mut pending: Vec<(u128, i32, AiState, Ghost<Seq<Move>>)> = Vec::new();
        let moves = calc_possible_moves(&self.stacks);
        proof {
            lemma_moves_cover_successors(init, moves@);
            assert(plays(init, Seq::<Move>::empty(), init));
            assert(reachable(init, init));
            assert(visited@[0]@ == init);
            assert(seen_spec(visited@, init));
        }
        let mut mi: usize = 0;
        while mi < moves.len()
            invariant
                init == self@,
                mi <= moves@.len(),
                forall|i: int| 0 <= i < moves@.len() ==> move_enabled(init, #[trigger] moves@[i]),
                forall|j: int|
                    0 <= j < pending@.len() ==> entry_inv(init, #[trigger] pending@[j], 1),
                forall|m: Move| #[trigger]
                    move_enabled(init, m) ==> frontier_has(pending@, apply_move_spec(init, m))
                        || exists|j: int|
                        mi <= j < moves@.len() && apply_move_spec(init, #[trigger] moves@[j])
                            == apply_move_spec(init, m),
            decreases moves@.len() - mi,
        {
            let child = self.apply_move(moves[mi]);
            let ghost m = moves@[mi as int];
            let ghost prev_q = pending@;
            proof {
                assert(move_enabled(init, m) && child@ == apply_move_spec(init, m));
                assert(plays(init, Seq::<Move>::empty(), init));
                lemma_plays_snoc(init, Seq::<Move>::empty(), init, m);
                assert(plays(init, Seq::<Move>::empty().push(m), child@));
            }
            pending.push((0, 1, child, Ghost(Seq::<Move>::empty().push(m))));
            proof {
                assert(pending@[pending@.len() - 1].2@ == apply_move_spec(init, m));
                lemma_cover_step(init, moves@, prev_q, pending@, mi as int);
            }
            mi = mi + 1;
        }
        while pending.len() > 0
            invariant
                init == self@,
                !victory_spec(init),
                iterations <= 0x7fff_ffff,
                budget >= 1,
                budget <= iterations - 1,
                expanded as int <= iterations - budget,
                expanded == visited@.len(),
                seen_spec(visited@, init),
                forall|j: int|
                    0 <= j < pending@.len() ==> entry_inv(
                        init,
                        #[trigger] pending@[j],
                        expanded as int,
                    ),
                forall|i: int| 0 <= i < visited@.len() ==> !victory_spec(#[trigger] visited@[i]@),
                forall|i: int|
                    0 <= i < visited@.len() ==> reachable(init, #[trigger] visited@[i]@),
                forall|i: int, j: int|
                    0 <= i < j < visited@.len() ==> visited@[i]@ != visited@[j]@,
                forall|i: int, m: Move|
                    0 <= i < visited@.len() && #[trigger] move_enabled(visited@[i]@, m)
                        ==> seen_spec(visited@, apply_move_spec(visited@[i]@, m)) || frontier_has(
                        pending@,
                        apply_move_spec(visited@[i]@, m),
                    ),
            decreases budget, pending@.len(),
        {
            let ghost old_q = pending@;
            let popped = pending.pop();
            let e = match popped {
                Some(e) => e,
                None => {
                    proof {
                        assert(false);
                    }
                    return AiResult::Lost;
                },
            };
            proof {
                assert(e == old_q[old_q.len() - 1]);
                assert(entry_inv(init, e, expanded as int));
                assert forall|x: Seq<StackV>| frontier_has(old_q, x) implies frontier_has(
                    pending@,
                    x,
                ) || x == e.2@ by {
                    let j = choose|j: int| 0 <= j < old_q.len() && #[trigger] old_q[j].2@ == x;
                    if j < old_q.len() - 1 {
                        assert(pending@[j].2@ == x);
                    }
                }
            }
            if seen_contains(&visited, &e.2) {
                proof {
                    assert forall|i: int, m: Move|
                        0 <= i < visited@.len() && #[trigger] move_enabled(visited@[i]@, m) implies seen_spec(
                        visited@,
                        apply_move_spec(visited@[i]@, m),
                    ) || frontier_has(pending@, apply_move_spec(visited@[i]@, m)) by {
                        let x = apply_move_spec(visited@[i]@, m);
                        if !seen_spec(visited@, x) {
                            assert(frontier_has(old_q, x));
                            if x == e.2@ {
                                assert(seen_spec(visited@, x));
                            }
                        }
                    }
                }
                continue ;
            }
            if check_victory(&e.2.stacks) {
                proof {
                    assert(victory_spec(e.2@));
                    assert(plays(init, e.3@, e.2@) && e.3@.len() == e.1);
                    assert(reachable(init, e.2@));
                }
                return AiResult::Winable(e.1);
            }
            budget = budget - 1;
            if budget == 0 {
                return AiResult::Unknown;
            }
            let d = e.1;
            let st = e.2;
            let ghost path = e.3@;
            let ghost prev_vis = visited@;
            visited.push(st.duplicate());
            expanded = expanded + 1;
            proof {
                assert forall|x: Seq<StackV>| seen_spec(prev_vis, x) implies seen_spec(
                    visited@,
                    x,
                ) by {
                    let j = choose|j: int| 0 <= j < prev_vis.len() && #[trigger] prev_vis[j]@ == x;
                    assert(visited@[j]@ == x);
                }
                assert(visited@[visited@.len() - 1]@ == st@);
                assert(seen_spec(visited@, st@));
                assert(plays(init, path, st@));
                assert(reachable(init, st@));
                assert forall|i: int, j: int|
                    0 <= i < j < visited@.len() implies visited@[i]@ != visited@[j]@ by {
                    if j == visited@.len() - 1 {
                        assert(visited@[i]@ == prev_vis[i]@);
                        if visited@[i]@ == st@ {
                            assert(seen_spec(prev_vis, st@));
                        }
                    } else {
                        assert(visited@[i]@ == prev_vis[i]@ && visited@[j]@ == prev_vis[j]@);
                    }
                }
                assert forall|i: int, m: Move|
                    0 <= i < visited@.len() - 1 && #[trigger] move_enabled(visited@[i]@, m) implies seen_spec(
                    visited@,
                    apply_move_spec(visited@[i]@, m),
                ) || frontier_has(pending@, apply_move_spec(visited@[i]@, m)) by {
                    assert(visited@[i] == prev_vis[i]);
                    let x = apply_move_spec(prev_vis[i]@, m);
                    if !seen_spec(prev_vis, x) {
                        assert(frontier_has(old_q, x));
                        if x == e.2@ {
                            assert(seen_spec(visited@, x));
                        }
                    }
                }
            }
            let moves = calc_possible_moves(&st.stacks);
            proof {
                lemma_moves_cover_successors(st@, moves@);
            }
            let mut mi: usize = 0;
            while mi < moves.len()
                invariant
                    init == self@,
                    mi <= moves@.len(),
                    plays(init, path, st@),
                    path.len() == d,
                    0 <= d,
                    d < expanded,
                    expanded <= iterations,
                    iterations <= 0x7fff_ffff,
                    forall|i: int|
                        0 <= i < moves@.len() ==> move_enabled(st@, #[trigger] moves@[i]),
                    forall|j: int|
                        0 <= j < pending@.len() ==> entry_inv(
                            init,
                            #[trigger] pending@[j],
                            expanded as int,
                        ),
                    forall|i: int, m: Move|
                        0 <= i < visited@.len() - 1 && #[trigger] move_enabled(visited@[i]@, m)
                            ==> seen_spec(visited@, apply_move_spec(visited@[i]@, m))
                            || frontier_has(pending@, apply_move_spec(visited@[i]@, m)),
                    forall|m: Move| #[trigger]
                        move_enabled(st@, m) ==> frontier_has(pending@, apply_move_spec(st@, m))
                            || exists|j: int|
                            mi <= j < moves@.len() && apply_move_spec(st@, #[trigger] moves@[j])
                                == apply_move_spec(st@, m),
                decreases moves@.len() - mi,
            {
                let child = st.apply_move(moves[mi]);
                let ghost m = moves@[mi as int];
                let ghost prev_q = pending@;
                proof {
                    assert(move_enabled(st@, m) && child@ == apply_move_spec(st@, m));
                    lemma_plays_snoc(init, path, st@, m);
                    assert(plays(init, path.push(m), child@));
                }
                pending.push((0, d + 1, child, Ghost(path.push(m))));
                proof {
                    assert(pending@[pending@.len() - 1].2@ == apply_move_spec(st@, m));
                    lemma_cover_step(st@, moves@, prev_q, pending@, mi as int);
                }
                mi = mi + 1;
            }
            proof {
                assert forall|i: int, m: Move|
                    0 <= i < visited@.len() && #[trigger] move_enabled(visited@[i]@, m) implies seen_spec(
                    visited@,
                    apply_move_spec(visited@[i]@, m),
                ) || frontier_has(pending@, apply_move_spec(visited@[i]@, m)) by {
                    if i == visited@.len() - 1 {
                        assert(visited@[i]@ == st@);
                    }
                }
            }
        }
        proof {
            assert forall|i: int, m: Move|
                0 <= i < visited@.len() && #[trigger] move_enabled(visited@[i]@, m) implies seen_spec(
                visited@,
                apply_move_spec(visited@[i]@, m),
            ) by {
                assert(!frontier_has(pending@, apply_move_spec(visited@[i]@, m)));
            }
            assert(closed_under_moves(visited@));
            assert forall|ms: Seq<Move>, w: Seq<StackV>| #[trigger]
                plays(init, ms, w) implies !victory_spec(w) by {
                lemma_closed_catches_plays(visited@, init, ms, w);
                let i = choose|i: int| 0 <= i < visited@.len() && #[trigger] visited@[i]@ == w;
                assert(!victory_spec(visited@[i]@));
            }
        }
        AiResult::Lost
    }
}

/// The length of the valid run on top of a stack, counted in pairs, as the
/// solver's heuristic weighs a sorting stack.
fn stack_run_score(stack: &Stack) -> (r: usize)
    ensures
        r as int == run_score(stack@.cards),
        r <= stack@.cards.len(),
{
    let ghost cards = stack@.cards;
    let len = stack.len();
    let mut count: usize = 0;
    let mut j: usize = len;
    proof {
        assert(cards.take(len as int) =~= cards);
    }
    while j >= 2
        invariant
            j <= len,
            len == cards.len(),
            cards == stack@.cards,
            count == len - j,
            run_score(cards) == count + run_score(cards.take(j as int)),
        ensures
            j <= len,
            count == len - j,
            run_score(cards) == count + run_score(cards.take(j as int)),
            run_score(cards.take(j as int)) == 0,
        decreases j,
    {
        proof {
            let cur = cards.take(j as int);
            assert(cur.drop_last() =~= cards.take(j - 1));
            assert(cur.last() == cards[j - 1]);
            assert(cur[j - 2] == cards[j - 2]);
        }
        if !crate::rules::is_valid_pair(stack.peek(j - 2), stack.peek(j - 1)) {
            proof {
                assert(run_score(cards.take(j as int)) == 0);
            }
            break;
        }
        count = count + 1;
        j = j - 1;
    }
    proof {
        lemma_run_score_bound(cards);
    }
    count
}


} // verus!
