//! The rule engine: pure decisions over stacks. Nothing here mutates a
//! stack; every function answers a question about a position.

use vstd::prelude::*;

use crate::cards::{top_of, Color, Stack, StackRole, StackV, Suite};

verus! {

/// The adjacency rule for a descending run: both cards are numbers, the
/// colors differ, and the lower card's rank is one above the upper's.
pub open spec fn valid_pair(lower: Suite, upper: Suite) -> bool {
    match (lower, upper) {
        (Suite::Number(ln, lc), Suite::Number(un, uc)) => lc != uc && ln == un + 1,
        _ => false,
    }
}

/// A run of cards, bottom first, is valid when every consecutive pair is.
/// The empty run and a single card are trivially valid.
pub open spec fn valid_seq(cards: Seq<Suite>) -> bool {
    forall|i: int| 0 <= i < cards.len() - 1 ==> #[trigger] valid_pair(cards[i], cards[i + 1])
}

/// A role a stack may have in play; dragging or dropping on another role is
/// a caller error.
pub open spec fn playable_role(role: StackRole) -> bool {
    role != StackRole::Generic && role != StackRole::Animation
}

/// The views of a vector of stacks, in order.
pub open spec fn views(stacks: Seq<Stack>) -> Seq<StackV> {
    stacks.map_values(|s: Stack| s@)
}

/// Whether the run from `idx` to the top of `s` may be picked up.
pub open spec fn valid_drag_spec(s: StackV, idx: int) -> bool {
    if s.cards.len() == 0 {
        false
    } else {
        match s.role {
            StackRole::Flower => false,
            StackRole::Target => false,
            StackRole::Dragon => s.cards.last() != Suite::FaceDown,
            StackRole::Sorting => valid_seq(s.cards.skip(idx)),
            _ => false,
        }
    }
}

/// Whether `n` cards whose bottom card is `base` may be dropped on `target`.
pub open spec fn valid_move_spec(target: StackV, base: Suite, n: nat) -> bool {
    match target.role {
        StackRole::Dragon => target.cards.len() == 0 && n == 1,
        StackRole::Flower => target.cards.len() == 0 && base is Flower && n == 1,
        StackRole::Target => {
            n == 1 && match base {
                Suite::Number(un, uc) => {
                    if target.cards.len() == 0 {
                        un == 1
                    } else {
                        match target.cards.last() {
                            Suite::Number(ln, lc) => lc == uc && ln + 1 == un,
                            _ => false,
                        }
                    }
                },
                _ => false,
            }
        },
        StackRole::Sorting => {
            target.cards.len() == 0 || valid_pair(target.cards.last(), base)
        },
        _ => false,
    }
}

/// True iff `upper` may sit on `lower` in a descending run: both number
/// cards, different colors, ranks one apart.
pub fn is_valid_pair(lower: Suite, upper: Suite) -> (r: bool)
    ensures
        r == valid_pair(lower, upper),
{
    match (lower, upper) {
        (Suite::Number(ln, lc), Suite::Number(un, uc)) => {
            lc != uc && (ln as u16) == (un as u16) + 1
        },
        _ => false,
    }
}

/// True iff the whole run `cards`, bottom first, is a valid descending
/// alternating-color sequence. Empty and single-card runs always are.
pub fn is_valid_sequence(cards: &[Suite]) -> (r: bool)
    ensures
        r == valid_seq(cards@),
{
    if cards.len() == 0 {
        return true;
    }
    let mut i: usize = 0;
    while i < cards.len() - 1
        invariant
            cards@.len() > 0,
            i <= cards@.len() - 1,
            forall|j: int| 0 <= j < i ==> #[trigger] valid_pair(cards@[j], cards@[j + 1]),
        decreases cards@.len() - i,
    {
        if !is_valid_pair(cards[i], cards[i + 1]) {
            return false;
        }
        i = i + 1;
    }
    true
}

/// Whether the cards of `stack` from `idx` to the top may be dragged away.
/// Flower and target stacks never give cards back; a dragon stack only
/// while its top is a real card; a sorting stack whenever the picked run is
/// a valid sequence.
pub fn is_valid_drag(stack: &Stack, idx: usize) -> (r: bool)
    requires
        playable_role(stack@.role),
        idx <= stack@.cards.len(),
    ensures
        r == valid_drag_spec(stack@, idx as int),
{
    if stack.len() == 0 {
        return false;
    }
    match stack.role {
        StackRole::Flower => false,
        StackRole::Target => false,
        StackRole::Dragon => {
            let top = stack.peek(stack.len() - 1);
            top != Suite::FaceDown
        },
        StackRole::Sorting => {
            let n = stack.len();
            let mut i: usize = idx;
            let ghost run = stack@.cards.skip(idx as int);
            while i < n - 1
                invariant
                    idx <= i,
                    i <= n,
                    n == stack@.cards.len(),
                    n > 0,
                    stack@.role == StackRole::Sorting,
                    run == stack@.cards.skip(idx as int),
                    forall|j: int| idx <= j < i ==> #[trigger] valid_pair(
                        stack@.cards[j],
                        stack@.cards[j + 1],
                    ),
                decreases n - i,
            {
                if !is_valid_pair(stack.peek(i), stack.peek(i + 1)) {
                    proof {
                        let k = i - idx;
                        assert(run[k] == stack@.cards[i as int]);
                        assert(run[k + 1] == stack@.cards[i + 1]);
                        assert(0 <= k < run.len() - 1);
                        assert(!valid_pair(run[k], run[k + 1]));
                        assert(!valid_seq(run));
                    }
                    return false;
                }
                i = i + 1;
            }
            proof {
                assert forall|k: int| 0 <= k < run.len() - 1 implies #[trigger] valid_pair(
                    run[k],
                    run[k + 1],
                ) by {
                    assert(run[k] == stack@.cards[idx + k]);
                    assert(run[k + 1] == stack@.cards[idx + k + 1]);
                }
            }
            true
        },
        StackRole::Generic => false,
        StackRole::Animation => false,
    }
}

/// Whether `n_cards` cards whose bottom card is `base_card` may be dropped
/// on `target`: an empty dragon stack takes any one card, the flower stack
/// takes only the flower, a target stack takes the next rank of its own
/// color (rank one when empty), a sorting stack takes any run whose bottom
/// pairs with its top.
pub fn is_valid_move(target: &Stack, base_card: Suite, n_cards: usize) -> (r: bool)
    requires
        playable_role(target@.role),
    ensures
        r == valid_move_spec(target@, base_card, n_cards as nat),
{
    let top_card = target.top();
    match target.role {
        StackRole::Dragon => top_card.is_none() && n_cards == 1,
        StackRole::Flower => {
            top_card.is_none() && n_cards == 1 && matches!(base_card, Suite::Flower)
        },
        StackRole::Target => {
            n_cards == 1 && match (top_card, base_card) {
                (None, Suite::Number(un, _)) => un == 1,
                (Some(Suite::Number(ln, lc)), Suite::Number(un, uc)) => {
                    lc == uc && (ln as u16) + 1 == (un as u16)
                },
                _ => false,
            }
        },
        StackRole::Sorting => {
            match top_card {
                None => true,
                Some(l) => is_valid_pair(l, base_card),
            }
        },
        StackRole::Generic => false,
        StackRole::Animation => false,
    }
}

/// A dragon-role stack that can take a collected set of `color` dragons:
/// it is empty or already topped by a dragon of that color.
pub open spec fn collect_target_ok(s: StackV, color: Color) -> bool {
    s.role == StackRole::Dragon && (s.cards.len() == 0 || s.cards.last() == Suite::Dragon(color))
}

/// Whether the top card of `s` is a dragon of `color`.
pub open spec fn shows_dragon(s: StackV, color: Color) -> bool {
    s.cards.len() > 0 && s.cards.last() == Suite::Dragon(color)
}

/// The indices, in order, of the stacks whose top card is a dragon of
/// `color`.
pub open spec fn dragon_top_indices(sv: Seq<StackV>, color: Color) -> Seq<int>
    decreases sv.len(),
{
    if sv.len() == 0 {
        Seq::empty()
    } else {
        let prefix = dragon_top_indices(sv.drop_last(), color);
        if shows_dragon(sv.last(), color) {
            prefix.push(sv.len() - 1)
        } else {
            prefix
        }
    }
}

/// Every entry of `dragon_top_indices` is a stack index showing a dragon of
/// the color, the entries are strictly increasing, and every stack showing
/// such a dragon is listed.
pub proof fn lemma_dragon_top_indices(sv: Seq<StackV>, color: Color)
    ensures
        forall|k: int|
            0 <= k < dragon_top_indices(sv, color).len() ==> {
                let idx = #[trigger] dragon_top_indices(sv, color)[k];
                0 <= idx < sv.len() && shows_dragon(sv[idx], color)
            },
        forall|k1: int, k2: int|
            0 <= k1 < k2 < dragon_top_indices(sv, color).len() ==> #[trigger] dragon_top_indices(
                sv,
                color,
            )[k1] < #[trigger] dragon_top_indices(sv, color)[k2],
        forall|j: int|
            0 <= j < sv.len() && shows_dragon(sv[j], color) ==> dragon_top_indices(
                sv,
                color,
            ).contains(j),
    decreases sv.len(),
{
    if sv.len() > 0 {
        lemma_dragon_top_indices(sv.drop_last(), color);
        let prefix = dragon_top_indices(sv.drop_last(), color);
        let whole = dragon_top_indices(sv, color);
        assert forall|j: int| 0 <= j < sv.len() && shows_dragon(sv[j], color) implies whole.contains(
            j,
        ) by {
            if j == sv.len() - 1 {
                assert(whole[whole.len() - 1] == j);
            } else {
                assert(sv.drop_last()[j] == sv[j]);
                assert(prefix.contains(j));
                let k = choose|k: int| 0 <= k < prefix.len() && prefix[k] == j;
                assert(whole[k] == j);
            }
        }
    }
}

/// The first stack, in iteration order, that can take a collected set of
/// `color` dragons.
fn find_collect_target(color: Color, stacks: &Vec<Stack>) -> (r: Option<usize>)
    ensures
        ({
            let sv = views(stacks@);
            match r {
                Some(t) => t < sv.len() && collect_target_ok(sv[t as int], color) && forall|j: int|
                    0 <= j < t ==> !collect_target_ok(sv[j], color),
                None => forall|j: int| 0 <= j < sv.len() ==> !collect_target_ok(sv[j], color),
            }
        }),
{
    let mut i: usize = 0;
    while i < stacks.len()
        invariant
            i <= stacks@.len(),
            forall|j: int| 0 <= j < i ==> !collect_target_ok(views(stacks@)[j], color),
        decreases stacks@.len() - i,
    {
        let s = &stacks[i];
        let is_tgt = match (s.role, s.top()) {
            (StackRole::Dragon, None) => true,
            (StackRole::Dragon, Some(Suite::Dragon(c))) => c == color,
            _ => false,
        };
        proof {
            assert(views(stacks@)[i as int] == stacks@[i as int]@);
        }
        if is_tgt {
            return Some(i);
        }
        i = i + 1;
    }
    None
}

/// The indices of all stacks whose top card is a dragon of `color`.
fn dragon_sources(color: Color, stacks: &Vec<Stack>) -> (r: Vec<usize>)
    ensures
        r@.map_values(|u: usize| u as int) == dragon_top_indices(views(stacks@), color),
{
    let mut out: Vec<usize> = Vec::new();
    let mut i: usize = 0;
    while i < stacks.len()
        invariant
            i <= stacks@.len(),
            out@.map_values(|u: usize| u as int) == dragon_top_indices(
                views(stacks@.take(i as int)),
                color,
            ),
        decreases stacks@.len() - i,
    {
        let s = &stacks[i];
        let hit = match s.top() {
            Some(Suite::Dragon(c)) => c == color,
            _ => false,
        };
        let ghost old_out = out@;
        if hit {
            out.push(i);
        }
        proof {
            let sv_next = views(stacks@.take(i + 1));
            assert(sv_next.drop_last() =~= views(stacks@.take(i as int)));
            assert(sv_next.last() == stacks@[i as int]@);
            if hit {
                assert(out@.map_values(|u: usize| u as int) =~= old_out.map_values(
                    |u: usize| u as int,
                ).push(i as int));
            }
        }
        i = i + 1;
    }
    proof {
        assert(stacks@.take(stacks@.len() as int) =~= stacks@);
    }
    out
}

/// Decides whether the `color` dragon button may fire: there must be a
/// dragon stack able to take the collected block, and exactly four stacks
/// must show a dragon of that color on top. Returns the collection target
/// and the four source stacks, in scan order.
pub fn check_button(color: Color, stacks: &Vec<Stack>) -> (r: Option<(usize, [usize; 4])>)
    ensures
        ({
            let sv = views(stacks@);
            match r {
                Some((t, srcs)) => {
                    &&& t < sv.len()
                    &&& collect_target_ok(sv[t as int], color)
                    &&& forall|j: int| 0 <= j < t ==> !collect_target_ok(sv[j], color)
                    &&& dragon_top_indices(sv, color).len() == 4
                    &&& srcs@.map_values(|u: usize| u as int) == dragon_top_indices(sv, color)
                },
                None => (forall|j: int| 0 <= j < sv.len() ==> !collect_target_ok(sv[j], color))
                    || dragon_top_indices(sv, color).len() != 4,
            }
        }),
{
    let t = match find_collect_target(color, stacks) {
        Some(t) => t,
        None => {
            return None;
        },
    };
    let srcs = dragon_sources(color, stacks);
    if srcs.len() == 4 {
        let arr = [srcs[0], srcs[1], srcs[2], srcs[3]];
        proof {
            assert(arr@.map_values(|u: usize| u as int) =~= srcs@.map_values(|u: usize| u as int));
        }
        Some((t, arr))
    } else {
        None
    }
}

/// The rank a target stack offers to the gating rule: zero when empty, the
/// rank of its top number card otherwise. Stacks of other roles, and a
/// target hidden under something that is no number card, offer none.
pub open spec fn target_rank_of(s: StackV) -> Option<int> {
    if s.role == StackRole::Target {
        if s.cards.len() == 0 {
            Some(0)
        } else {
            match s.cards.last() {
                Suite::Number(n, _) => Some(n as int),
                _ => None,
            }
        }
    } else {
        None
    }
}

/// Whether some target stack offers a rank to the gating rule.
pub open spec fn has_target_rank(sv: Seq<StackV>) -> bool {
    exists|i: int| 0 <= i < sv.len() && target_rank_of(sv[i]) is Some
}

/// The least rank any target stack shows; 256 stands above every card rank
/// when no target stack offers one.
pub open spec fn lowest_target_rank(sv: Seq<StackV>) -> int
    decreases sv.len(),
{
    if sv.len() == 0 {
        256
    } else {
        let rest = lowest_target_rank(sv.drop_last());
        match target_rank_of(sv.last()) {
            Some(k) => if k < rest {
                k
            } else {
                rest
            },
            None => rest,
        }
    }
}

/// A pair of stacks the automatic pass may move a card between: the target
/// has the target or flower role, the source a dragon or sorting role and a
/// top card; a number card moves only while its rank stays within one of
/// the lowest rank any target stack shows, so that no card is collected
/// that a descending run might still need.
pub open spec fn automove_ok(sv: Seq<StackV>, t: int, s: int) -> bool {
    &&& 0 <= t < sv.len()
    &&& 0 <= s < sv.len()
    &&& (sv[t].role == StackRole::Target || sv[t].role == StackRole::Flower)
    &&& (sv[s].role == StackRole::Dragon || sv[s].role == StackRole::Sorting)
    &&& sv[s].cards.len() > 0
    &&& match sv[s].cards.last() {
        Suite::Number(n, c) => n <= lowest_target_rank(sv) + 1 && valid_move_spec(
            sv[t],
            Suite::Number(n, c),
            1,
        ),
        card => valid_move_spec(sv[t], card, 1),
    }
}

/// The least rank shown on any target stack, as the gating rule counts it.
fn lowest_shown_rank(stacks: &Vec<Stack>) -> (r: u16)
    ensures
        r as int == lowest_target_rank(views(stacks@)),
        r <= 256,
{
    let mut low: u16 = 256;
    let mut i: usize = 0;
    while i < stacks.len()
        invariant
            i <= stacks@.len(),
            low <= 256,
            low as int == lowest_target_rank(views(stacks@.take(i as int))),
        decreases stacks@.len() - i,
    {
        let s = &stacks[i];
        let cand: Option<u16> = match (s.role, s.top()) {
            (StackRole::Target, None) => Some(0),
            (StackRole::Target, Some(Suite::Number(n, _))) => Some(n as u16),
            _ => None,
        };
        proof {
            let sv_next = views(stacks@.take(i + 1));
            assert(sv_next.drop_last() =~= views(stacks@.take(i as int)));
            assert(sv_next.last() == stacks@[i as int]@);
        }
        if let Some(c) = cand {
            if c < low {
                low = c;
            }
        }
        i = i + 1;
    }
    proof {
        assert(stacks@.take(stacks@.len() as int) =~= stacks@);
    }
    low
}

/// The first automatic move, scanning targets in order and, within each
/// target, sources in order: a card that the flower stack or a target
/// stack accepts, taken from a dragon or sorting stack, with number cards
/// held back by the gating rule. Returns the target and source indices;
/// when the source's top is a number card, its rank never lies more than
/// one above the lowest rank any target stack shows.
#[verifier::loop_isolation(false)]
pub fn get_automove(stacks: &Vec<Stack>) -> (r: Option<(usize, usize)>)
    requires
        has_target_rank(views(stacks@)),
    ensures
        ({
            let sv = views(stacks@);
            match r {
                Some((t, s)) => {
                    &&& automove_ok(sv, t as int, s as int)
                    &&& forall|t2: int, s2: int| 0 <= t2 < t ==> !automove_ok(sv, t2, s2)
                    &&& forall|s2: int| 0 <= s2 < s ==> !automove_ok(sv, t as int, s2)
                    &&& match top_of(sv[s as int].cards) {
                        Some(Suite::Number(n, _)) => n <= lowest_target_rank(sv) + 1,
                        _ => true,
                    }
                },
                None => forall|t2: int, s2: int| !automove_ok(sv, t2, s2),
            }
        }),
{
    let ghost sv = views(stacks@);
    let lowest = lowest_shown_rank(stacks);
    let n = stacks.len();
    let mut t: usize = 0;
    while t < n
        invariant
            n == stacks@.len(),
            t <= n,
            lowest <= 256,
            lowest as int == lowest_target_rank(sv),
            sv == views(stacks@),
            forall|t2: int, s2: int| 0 <= t2 < t ==> !automove_ok(sv, t2, s2),
        decreases n - t,
    {
        let t_stack = &stacks[t];
        proof {
            assert(sv[t as int] == stacks@[t as int]@);
        }
        let t_role_ok = match t_stack.role {
            StackRole::Target => true,
            StackRole::Flower => true,
            _ => false,
        };
        if t_role_ok {
            let mut s: usize = 0;
            while s < n
                invariant
                    n == stacks@.len(),
                    t < n,
                    s <= n,
                    lowest <= 256,
                    lowest as int == lowest_target_rank(sv),
                    sv == views(stacks@),
                    sv[t as int].role == StackRole::Target || sv[t as int].role
                        == StackRole::Flower,
                    forall|s2: int| 0 <= s2 < s ==> !automove_ok(sv, t as int, s2),
                    forall|t2: int, s2: int| 0 <= t2 < t ==> !automove_ok(sv, t2, s2),
                decreases n - s,
            {
                let s_stack = &stacks[s];
                proof {
                    assert(sv[s as int] == stacks@[s as int]@);
                    assert(sv[t as int] == stacks@[t as int]@);
                }
                let s_role_ok = match s_stack.role {
                    StackRole::Dragon => true,
                    StackRole::Sorting => true,
                    _ => false,
                };
                if s_role_ok {
                    match s_stack.top() {
                        Some(Suite::Number(num, c)) => {
                            if (num as u16) <= lowest + 1 && is_valid_move(
                                t_stack,
                                Suite::Number(num, c),
                                1,
                            ) {
                                return Some((t, s));
                            }
                        },
                        Some(card) => {
                            if is_valid_move(t_stack, card, 1) {
                                return Some((t, s));
                            }
                        },
                        None => {},
                    }
                }
                proof {
                    assert(!automove_ok(sv, t as int, s as int));
                }
                s = s + 1;
            }
        }
        t = t + 1;
    }
    None
}

/// A move the solver may make: firing a dragon button (its color, the
/// collection target and the four source stacks), or carrying the top `n`
/// cards of one stack onto another as `Cards(target, source, n)`.
#[derive(Copy, Clone, Debug, Eq, PartialEq)]
pub enum Move {
    Button(Color, usize, [usize; 4]),
    Cards(usize, usize, usize),
}

/// What a won position asks of one stack: a sorting stack is empty and a
/// target stack holds its full run of nine cards.
pub open spec fn victory_stack_ok(s: StackV) -> bool {
    &&& s.role == StackRole::Sorting ==> s.cards.len() == 0
    &&& s.role == StackRole::Target ==> s.cards.len() == 9
}

/// A won position: every stack meets `victory_stack_ok`.
pub open spec fn victory_spec(sv: Seq<StackV>) -> bool {
    forall|i: int| 0 <= i < sv.len() ==> victory_stack_ok(#[trigger] sv[i])
}

/// True iff the position is won.
pub fn check_victory(stacks: &Vec<Stack>) -> (r: bool)
    ensures
        r == victory_spec(views(stacks@)),
{
    let ghost sv = views(stacks@);
    let mut i: usize = 0;
    while i < stacks.len()
        invariant
            i <= stacks@.len(),
            sv == views(stacks@),
            forall|j: int| 0 <= j < i ==> victory_stack_ok(#[trigger] sv[j]),
        decreases stacks@.len() - i,
    {
        let s = &stacks[i];
        proof {
            assert(sv[i as int] == stacks@[i as int]@);
        }
        match s.role {
            StackRole::Sorting => {
                if s.len() != 0 {
                    proof {
                        assert(!victory_stack_ok(sv[i as int]));
                    }
                    return false;
                }
            },
            StackRole::Target => {
                if s.len() != 9 {
                    proof {
                        assert(!victory_stack_ok(sv[i as int]));
                    }
                    return false;
                }
            },
            _ => {},
        }
        i = i + 1;
    }
    true
}

/// A legal card-carrying move: the top `n` cards of stack `s` may be
/// dragged away and dropped on stack `t`.
pub open spec fn cards_move_ok(sv: Seq<StackV>, t: int, s: int, n: int) -> bool {
    &&& 0 <= t < sv.len()
    &&& 0 <= s < sv.len()
    &&& t != s
    &&& playable_role(sv[t].role)
    &&& 1 <= n <= sv[s].cards.len()
    &&& valid_drag_spec(sv[s], sv[s].cards.len() - n)
    &&& valid_move_spec(sv[t], sv[s].cards[sv[s].cards.len() - n], n as nat)
}

/// A legal dragon-button move for `color`: `t` is the first stack able to
/// take the collected block and `srcs` lists exactly the four stacks whose
/// top card is a dragon of that color.
pub open spec fn button_move_ok(sv: Seq<StackV>, color: Color, t: int, srcs: Seq<int>) -> bool {
    &&& 0 <= t < sv.len()
    &&& collect_target_ok(sv[t], color)
    &&& forall|j: int| 0 <= j < t ==> !collect_target_ok(sv[j], color)
    &&& srcs == dragon_top_indices(sv, color)
    &&& srcs.len() == 4
}

/// Whether `m` is a button move of the given color.
pub open spec fn is_button_move_of(m: Move, color: Color) -> bool {
    match m {
        Move::Button(c, _, _) => c == color,
        _ => false,
    }
}

/// Whether `m` is a legal move in the position `sv`.
pub open spec fn move_enabled(sv: Seq<StackV>, m: Move) -> bool {
    match m {
        Move::Button(color, t, srcs) => button_move_ok(
            sv,
            color,
            t as int,
            srcs@.map_values(|u: usize| u as int),
        ),
        Move::Cards(t, s, n) => cards_move_ok(sv, t as int, s as int, n as int),
    }
}

/// All legal moves of the position: one button move per color whose button
/// could fire, and every legal card-carrying move. Every returned move is
/// legal, every legal card move is returned, and a button move of a color
/// is returned whenever one exists.
#[verifier::loop_isolation(false)]
pub fn calc_possible_moves(stacks: &Vec<Stack>) -> (r: Vec<Move>)
    ensures
        ({
            let sv = views(stacks@);
            &&& forall|i: int| 0 <= i < r@.len() ==> move_enabled(sv, #[trigger] r@[i])
            &&& forall|t: int, s: int, n: int| #[trigger] cards_move_ok(sv, t, s, n)
                ==> r@.contains(Move::Cards(t as usize, s as usize, n as usize))
            &&& forall|color: Color, t: int, srcs: Seq<int>|
                button_move_ok(sv, color, t, srcs) ==> exists|i: int|
                    0 <= i < r@.len() && is_button_move_of(#[trigger] r@[i], color)
        }),
{
    let ghost sv = views(stacks@);
    let mut out: Vec<Move> = Vec::new();

    let colors = [Color::Red, Color::Green, Color::White];
    let mut ci: usize = 0;
    while ci < 3
        invariant
            ci <= 3,
            forall|i: int| 0 <= i < out@.len() ==> move_enabled(sv, #[trigger] out@[i]),
            forall|color: Color, t: int, srcs: Seq<int>|
                button_move_ok(sv, color, t, srcs) && (match color {
                    Color::Red => ci >= 1,
                    Color::Green => ci >= 2,
                    Color::White => ci >= 3,
                }) ==> exists|i: int|
                    0 <= i < out@.len() && is_button_move_of(#[trigger] out@[i], color),
        decreases 3 - ci,
    {
        let color = colors[ci];
        let ghost old_out = out@;
        if let Some((t, srcs)) = check_button(color, stacks) {
            out.push(Move::Button(color, t, srcs));
        }
        proof {
            assert forall|color2: Color, t: int, srcs: Seq<int>|
                button_move_ok(sv, color2, t, srcs) && (match color2 {
                    Color::Red => ci + 1 >= 1,
                    Color::Green => ci + 1 >= 2,
                    Color::White => ci + 1 >= 3,
                }) implies exists|i: int|
                0 <= i < out@.len() && is_button_move_of(#[trigger] out@[i], color2) by {
                if color2 == color {
                    assert(is_button_move_of(out@[out@.len() - 1], color2));
                } else {
                    let j = choose|j: int|
                        0 <= j < old_out.len() && is_button_move_of(old_out[j], color2);
                    assert(is_button_move_of(out@[j], color2));
                }
            }
        }
        ci = ci + 1;
    }

    let n = stacks.len();
    let mut t: usize = 0;
    while t < n
        invariant
            t <= n,
            forall|i: int| 0 <= i < out@.len() ==> move_enabled(sv, #[trigger] out@[i]),
            forall|color: Color, t2: int, srcs: Seq<int>|
                button_move_ok(sv, color, t2, srcs) ==> exists|i: int|
                    0 <= i < out@.len() && is_button_move_of(#[trigger] out@[i], color),
            forall|t2: int, s2: int, n2: int|
                #[trigger] cards_move_ok(sv, t2, s2, n2) && t2 < t ==> out@.contains(
                    Move::Cards(t2 as usize, s2 as usize, n2 as usize),
                ),
        decreases n - t,
    {
        let t_stack = &stacks[t];
        proof {
            assert(sv[t as int] == stacks@[t as int]@);
        }
        let t_role_ok = match t_stack.role {
            StackRole::Generic => false,
            StackRole::Animation => false,
            _ => true,
        };
        if t_role_ok {
            let mut s: usize = 0;
            while s < n
                invariant
                    t < n,
                    s <= n,
                    forall|i: int| 0 <= i < out@.len() ==> move_enabled(sv, #[trigger] out@[i]),
                    forall|color: Color, t2: int, srcs: Seq<int>|
                        button_move_ok(sv, color, t2, srcs) ==> exists|i: int|
                            0 <= i < out@.len() && is_button_move_of(#[trigger] out@[i], color),
                    forall|t2: int, s2: int, n2: int|
                        #[trigger] cards_move_ok(sv, t2, s2, n2) && t2 < t ==> out@.contains(
                            Move::Cards(t2 as usize, s2 as usize, n2 as usize),
                        ),
                    forall|s2: int, n2: int|
                        #[trigger] cards_move_ok(sv, t as int, s2, n2) && s2 < s ==> out@.contains(
                            Move::Cards(t as usize, s2 as usize, n2 as usize),
                        ),
                decreases n - s,
            {
                let s_stack = &stacks[s];
                proof {
                    assert(sv[s as int] == stacks@[s as int]@);
                }
                let s_role_ok = match s_stack.role {
                    StackRole::Dragon => true,
                    StackRole::Sorting => true,
                    _ => false,
                };
                if s != t && s_role_ok {
                    let len = s_stack.len();
                    let mut idx: usize = len;
                    while idx > 0
                        invariant
                            idx <= len,
                            len == sv[s as int].cards.len(),
                            forall|i: int|
                                0 <= i < out@.len() ==> move_enabled(sv, #[trigger] out@[i]),
                            forall|color: Color, t2: int, srcs: Seq<int>|
                                button_move_ok(sv, color, t2, srcs) ==> exists|i: int|
                                    0 <= i < out@.len() && is_button_move_of(#[trigger] out@[i], color),
                            forall|t2: int, s2: int, n2: int|
                                #[trigger] cards_move_ok(sv, t2, s2, n2) && t2 < t ==> out@.contains(
                                    Move::Cards(t2 as usize, s2 as usize, n2 as usize),
                                ),
                            forall|s2: int, n2: int|
                                #[trigger] cards_move_ok(sv, t as int, s2, n2) && s2 < s
                                    ==> out@.contains(
                                    Move::Cards(t as usize, s2 as usize, n2 as usize),
                                ),
                            forall|n2: int|
                                #[trigger] cards_move_ok(sv, t as int, s as int, n2) && n2 <= len
                                    - idx ==> out@.contains(
                                    Move::Cards(t as usize, s as usize, n2 as usize),
                                ),
                        decreases idx,
                    {
                        idx = idx - 1;
                        let k = len - idx;
                        let ghost prev = out@;
                        let do_push = is_valid_drag(s_stack, idx) && is_valid_move(
                            t_stack,
                            s_stack.peek(idx),
                            k,
                        );
                        if do_push {
                            out.push(Move::Cards(t, s, k));
                        }
                        proof {
                            assert forall|mv: Move| prev.contains(mv) implies out@.contains(
                                mv,
                            ) by {
                                let i = choose|i: int| 0 <= i < prev.len() && prev[i] == mv;
                                assert(out@[i] == mv);
                            }
                            if do_push {
                                assert(out@[out@.len() - 1] == Move::Cards(t, s, k));
                                assert(out@.contains(Move::Cards(t, s, k)));
                            } else {
                                assert(!(valid_drag_spec(sv[s as int], idx as int)
                                    && valid_move_spec(
                                    sv[t as int],
                                    sv[s as int].cards[idx as int],
                                    k as nat,
                                )));
                                assert(!cards_move_ok(sv, t as int, s as int, k as int));
                            }
                            assert forall|n2: int|
                                #[trigger] cards_move_ok(sv, t as int, s as int, n2) && n2 <= len
                                    - idx implies out@.contains(
                                Move::Cards(t as usize, s as usize, n2 as usize),
                            ) by {
                                if n2 <= len - (idx + 1) {
                                    assert(prev.contains(
                                        Move::Cards(t as usize, s as usize, n2 as usize),
                                    ));
                                } else {
                                    assert(n2 == k);
                                }
                            }
                            assert forall|color: Color, t2: int, srcs: Seq<int>| #[trigger]
                                button_move_ok(sv, color, t2, srcs) implies exists|i: int|
                                0 <= i < out@.len() && is_button_move_of(
                                    #[trigger] out@[i],
                                    color,
                                ) by {
                                let i = choose|i: int|
                                    0 <= i < prev.len() && is_button_move_of(
                                        #[trigger] prev[i],
                                        color,
                                    );
                                assert(is_button_move_of(out@[i], color));
                            }
                        }
                    }
                    proof {
                        assert forall|n2: int|
                            #[trigger] cards_move_ok(sv, t as int, s as int, n2) implies out@.contains(
                            Move::Cards(t as usize, s as usize, n2 as usize),
                        ) by {
                            assert(1 <= n2 <= len);
                        }
                    }
                }
                proof {
                    if s == t || !s_role_ok {
                        assert forall|n2: int|
                            !cards_move_ok(sv, t as int, s as int, n2) by {
                            if s != t {
                                assert(sv[s as int].role != StackRole::Dragon && sv[s as int].role
                                    != StackRole::Sorting);
                                if 1 <= n2 <= sv[s as int].cards.len() {
                                    assert(sv[s as int].cards.len() > 0);
                                    assert(!valid_drag_spec(
                                        sv[s as int],
                                        sv[s as int].cards.len() - n2,
                                    ));
                                }
                            }
                        }
                    }
                }
                s = s + 1;
            }
        } else {
            proof {
                assert forall|s2: int, n2: int| !cards_move_ok(sv, t as int, s2, n2) by {}
            }
        }
        t = t + 1;
    }
    out
}

/// A run of at most one card is always a valid sequence.
pub proof fn lemma_short_sequence_valid(cards: Seq<Suite>)
    ensures
        cards.len() <= 1 ==> valid_seq(cards),
{
}

/// What a target stack accepts: an empty one exactly a single number card
/// of rank one, an occupied one exactly a single number card of its own
/// top color and the next rank; a top that is no number card accepts
/// nothing.
pub proof fn lemma_target_accepts(target: StackV, base: Suite, n: nat)
    requires
        target.role == StackRole::Target,
    ensures
        target.cards.len() == 0 ==> (valid_move_spec(target, base, n) <==> (n == 1 && match base {
            Suite::Number(un, _) => un == 1,
            _ => false,
        })),
        target.cards.len() > 0 ==> (valid_move_spec(target, base, n) <==> (n == 1 && match (
            target.cards.last(),
            base,
        ) {
            (Suite::Number(ln, lc), Suite::Number(un, uc)) => uc == lc && un == ln + 1,
            _ => false,
        })),
{
}

/// Card `i` of a target run is the number card of rank `i + 1` in the
/// color the run started with.
pub open spec fn target_card_ok(cards: Seq<Suite>, i: int) -> bool {
    match (cards[0], cards[i]) {
        (Suite::Number(_, c0), Suite::Number(n, c)) => n == i + 1 && c == c0,
        _ => false,
    }
}

/// A target stack's cards form a strictly ascending run of a single color
/// starting at rank one.
pub open spec fn target_run_ok(cards: Seq<Suite>) -> bool {
    forall|i: int| 0 <= i < cards.len() ==> #[trigger] target_card_ok(cards, i)
}

/// Every target stack of the board holds a valid ascending run.
pub open spec fn targets_ok(sv: Seq<StackV>) -> bool {
    forall|i: int|
        0 <= i < sv.len() && (#[trigger] sv[i]).role == StackRole::Target ==> target_run_ok(
            sv[i].cards,
        )
}

/// The target invariant holds by construction: dropping any card a target
/// stack accepts onto a valid run leaves a valid run.
pub proof fn lemma_target_move_keeps_run(target: StackV, card: Suite)
    requires
        target.role == StackRole::Target,
        target_run_ok(target.cards),
        valid_move_spec(target, card, 1),
    ensures
        target_run_ok(target.cards.push(card)),
{
    let cards = target.cards;
    let grown = cards.push(card);
    assert forall|i: int| 0 <= i < grown.len() implies #[trigger] target_card_ok(grown, i) by {
        if cards.len() > 0 {
            assert(grown[0] == cards[0]);
            assert(target_card_ok(cards, 0));
            assert(target_card_ok(cards, cards.len() - 1));
        }
        if i < cards.len() {
            assert(grown[i] == cards[i]);
            assert(target_card_ok(cards, i));
        } else {
            assert(grown[i] == card);
        }
    }
}

/// The gating rule: an automatic move never takes a number card whose rank
/// lies more than one above the lowest rank any target stack shows.
pub proof fn lemma_automove_gated(sv: Seq<StackV>, t: int, s: int, n: u8, c: Color)
    requires
        automove_ok(sv, t, s),
        top_of(sv[s].cards) == Some(Suite::Number(n, c)),
    ensures
        n <= lowest_target_rank(sv) + 1,
{
}

/// Whether the whole of `source` may be dropped on `target`; the bottom
/// card of `source` is the base of the dropped run.
pub fn is_valid_drop(target: &Stack, source: &Stack) -> (r: bool)
    requires
        playable_role(target@.role),
        source@.cards.len() > 0,
    ensures
        r == valid_move_spec(target@, source@.cards[0], source@.cards.len()),
{
    let base_card = source.peek(0);
    let n_cards = source.len();
    is_valid_move(target, base_card, n_cards)
}

} // verus!
