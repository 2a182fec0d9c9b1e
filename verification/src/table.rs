//! The board: the fixed topology of fifteen stacks (three dragon, three
//! target, eight sorting, one flower) and three color-coded buttons, with
//! the operations the driving application calls on it.

use vstd::prelude::*;

use rand::seq::SliceRandom;

use crate::cards::{Color, Stack, StackRole, StackV, Suite};
use crate::rules::{
    automove_ok, button_move_ok, check_button, check_victory, collect_target_ok, dragon_top_indices,
    get_automove, has_target_rank, shows_dragon, target_rank_of, targets_ok, victory_spec, views,
    Move,
};
use crate::solver::{apply_button_move, apply_cards_move, lemma_move_keeps_targets, AiState};

verus! {

broadcast use vstd::seq_lib::group_to_multiset_ensures;

/// How many copies of each card one deck holds: four dragons of each
/// color, one number card per rank and color, one flower, and no
/// face-down cards.
pub open spec fn deck_count(card: Suite) -> int {
    match card {
        Suite::FaceDown => 0,
        Suite::Flower => 1,
        Suite::Dragon(_) => 4,
        Suite::Number(n, _) => if 1 <= n <= 9 {
            1
        } else {
            0
        },
    }
}

/// Relies on rand's `SliceRandom::shuffle`: a Fisher-Yates shuffle that
/// permutes the slice in place by swaps, so the cards and their number
/// stay the same whatever order comes out.
#[verifier::external_body]
fn shuffle_cards(cards: &mut Vec<Suite>)
    ensures
        final(cards)@.len() == old(cards)@.len(),
        final(cards)@.to_multiset() == old(cards)@.to_multiset(),
{
    cards.shuffle(&mut rand::thread_rng());
}

/// A full deck of forty cards in a random order; only which cards it
/// holds, not their order, is promised.
pub fn shuffled_deck() -> (r: Vec<Suite>)
    ensures
        r@.len() == 40,
        forall|card: Suite| #[trigger] r@.to_multiset().count(card) == deck_count(card),
{
    let mut cards: Vec<Suite> = Vec::new();
    let mut i: usize = 0;
    while i < 4
        invariant
            i <= 4,
            cards@.len() == 3 * i,
            forall|card: Suite| #[trigger] cards@.to_multiset().count(card) == (match card {
                Suite::Dragon(_) => i as int,
                _ => 0,
            }),
        decreases 4 - i,
    {
        cards.push(Suite::Dragon(Color::Red));
        cards.push(Suite::Dragon(Color::Green));
        cards.push(Suite::Dragon(Color::White));
        i = i + 1;
    }
    let mut n: u8 = 1;
    while n <= 9
        invariant
            1 <= n <= 10,
            cards@.len() == 12 + 3 * (n - 1),
            forall|card: Suite| #[trigger] cards@.to_multiset().count(card) == (match card {
                Suite::Dragon(_) => 4int,
                Suite::Number(r, _) => if 1 <= r < n {
                    1int
                } else {
                    0int
                },
                _ => 0int,
            }),
        decreases 10 - n,
    {
        cards.push(Suite::Number(n, Color::Red));
        cards.push(Suite::Number(n, Color::Green));
        cards.push(Suite::Number(n, Color::White));
        n = n + 1;
    }
    cards.push(Suite::Flower);
    shuffle_cards(&mut cards);
    cards
}

/// The eight sorting stacks of `stacks` hold `deck` dealt round-robin:
/// card `8 * j + k` of the deck is card `j` of sorting stack `k`.
pub open spec fn dealt_from(stacks: Seq<StackV>, deck: Seq<Suite>) -> bool {
    &&& (forall|k: int| 0 <= k < 8 ==> (#[trigger] stacks[6 + k]).cards.len() == 5)
    &&& (forall|k: int, j: int|
        0 <= k < 8 && 0 <= j < 5 ==> (#[trigger] stacks[6 + k].cards[j]) == deck[8 * j + k])
}

/// A stable identifier the driving application hands out for a board
/// element it tracks.
#[derive(Debug, Copy, Clone, Hash, Eq, PartialEq, Structural)]
pub struct Entity(pub usize);

impl Entity {
    pub fn new(id: usize) -> (r: Entity)
        ensures
            r.0 == id,
    {
        Entity(id)
    }
}

/// The state of a dragon button: `Active` means it may be clicked, `Down`
/// is the transient state right after a click.
#[derive(Copy, Clone, Debug, Eq, PartialEq, Hash, Structural)]
pub enum ButtonState {
    Active,
    Up,
    Down,
}

/// A dragon button: its color, its state, and, while it is active, the
/// collection target and four source stacks that a click would use.
#[derive(Copy, Clone, Debug, Eq, PartialEq)]
pub struct Button {
    pub color: Color,
    pub state: ButtonState,
    pub stacks: Option<(usize, [usize; 4])>,
}

impl Button {
    pub fn new(color: Color) -> (r: Button)
        ensures
            r.color == color,
            r.state == ButtonState::Up,
            r.stacks is None,
    {
        Button { color, state: ButtonState::Up, stacks: None }
    }
}

/// The mathematical model of a board: the stack views and the buttons.
#[verifier::ext_equal]
pub ghost struct TableV {
    pub stacks: Seq<StackV>,
    pub buttons: Seq<Button>,
}

/// The role the fixed board topology gives to stack `i`: the first three
/// stacks are dragon stacks, the next three targets, the next eight
/// sorting stacks, the last the flower stack.
pub open spec fn table_role(i: int) -> StackRole {
    if 0 <= i < 3 {
        StackRole::Dragon
    } else if 3 <= i < 6 {
        StackRole::Target
    } else if 6 <= i < 14 {
        StackRole::Sorting
    } else {
        StackRole::Flower
    }
}

/// The color of button `i`.
pub open spec fn table_button_color(i: int) -> Color {
    if i == 0 {
        Color::Red
    } else if i == 1 {
        Color::Green
    } else {
        Color::White
    }
}

/// The board.
pub struct Table {
    stacks: Vec<Stack>,
    buttons: Vec<Button>,
}

impl View for Table {
    type V = TableV;

    closed spec fn view(&self) -> TableV {
        TableV { stacks: views(self.stacks@), buttons: self.buttons@ }
    }
}

impl Table {
    /// A well-formed board: fifteen stacks in the fixed topology and three
    /// buttons, one per color.
    pub open spec fn wf(self) -> bool {
        &&& self@.stacks.len() == 15
        &&& (forall|i: int| 0 <= i < 15 ==> (#[trigger] self@.stacks[i]).role == table_role(i))
        &&& self@.buttons.len() == 3
        &&& (forall|i: int|
            0 <= i < 3 ==> (#[trigger] self@.buttons[i]).color == table_button_color(i))
    }

    /// An empty board: every stack empty, every button up.
    pub fn new() -> (r: Table)
        ensures
            r.wf(),
            targets_ok(r@.stacks),
            forall|i: int| 0 <= i < 15 ==> (#[trigger] r@.stacks[i]).cards.len() == 0,
            forall|i: int| 0 <= i < 3 ==> (#[trigger] r@.buttons[i]).state == ButtonState::Up,
    {
        let mut stacks: Vec<Stack> = Vec::new();
        stacks.push(Stack::new(StackRole::Dragon));
        stacks.push(Stack::new(StackRole::Dragon));
        stacks.push(Stack::new(StackRole::Dragon));
        stacks.push(Stack::new(StackRole::Target));
        stacks.push(Stack::new(StackRole::Target));
        stacks.push(Stack::new(StackRole::Target));
        stacks.push(Stack::new(StackRole::Sorting));
        stacks.push(Stack::new(StackRole::Sorting));
        stacks.push(Stack::new(StackRole::Sorting));
        stacks.push(Stack::new(StackRole::Sorting));
        stacks.push(Stack::new(StackRole::Sorting));
        stacks.push(Stack::new(StackRole::Sorting));
        stacks.push(Stack::new(StackRole::Sorting));
        stacks.push(Stack::new(StackRole::Sorting));
        stacks.push(Stack::new(StackRole::Flower));
        let mut buttons: Vec<Button> = Vec::new();
        buttons.push(Button::new(Color::Red));
        buttons.push(Button::new(Color::Green));
        buttons.push(Button::new(Color::White));
        Table { stacks, buttons }
    }

    /// The index range of the three dragon stacks.
    pub fn dragon_stacks(&self) -> (r: core::ops::Range<usize>)
        ensures
            r.start == 0 && r.end == 3,
    {
        0..3
    }

    /// The index range of the three target stacks.
    pub fn target_stacks(&self) -> (r: core::ops::Range<usize>)
        ensures
            r.start == 3 && r.end == 6,
    {
        3..6
    }

    /// The index range of the eight sorting stacks.
    pub fn solitaire_stacks(&self) -> (r: core::ops::Range<usize>)
        ensures
            r.start == 6 && r.end == 14,
    {
        6..14
    }

    /// The index of the flower stack.
    pub fn flower_stack(&self) -> (r: usize)
        ensures
            r == 14,
    {
        14
    }

    /// The indices of the stacks a dragon may be collected from, dragon
    /// stacks first.
    pub fn dragon_and_solitaire_stacks(&self) -> (r: Vec<usize>)
        ensures
            r@ == seq![0usize, 1, 2, 6, 7, 8, 9, 10, 11, 12, 13],
    {
        let mut out: Vec<usize> = Vec::new();
        out.push(0);
        out.push(1);
        out.push(2);
        let mut i: usize = 6;
        while i < 14
            invariant
                6 <= i <= 14,
                out@ == seq![0usize, 1, 2].add(
                    Seq::new((i - 6) as nat, |j: int| (j + 6) as usize),
                ),
            decreases 14 - i,
        {
            out.push(i);
            proof {
                assert(out@ =~= seq![0usize, 1, 2].add(
                    Seq::new((i - 5) as nat, |j: int| (j + 6) as usize),
                ));
            }
            i = i + 1;
        }
        proof {
            assert(out@ =~= seq![0usize, 1, 2, 6, 7, 8, 9, 10, 11, 12, 13]);
        }
        out
    }

    /// How many stacks the board has.
    pub fn n_stacks(&self) -> (r: usize)
        ensures
            r == self@.stacks.len(),
    {
        self.stacks.len()
    }

    /// How many buttons the board has.
    pub fn n_buttons(&self) -> (r: usize)
        ensures
            r == self@.buttons.len(),
    {
        self.buttons.len()
    }

    /// The stack at index `i`.
    pub fn get_stack(&self, i: usize) -> (r: &Stack)
        requires
            i < self@.stacks.len(),
        ensures
            r@ == self@.stacks[i as int],
    {
        &self.stacks[i]
    }

    /// The button at index `i`.
    pub fn get_button(&self, i: usize) -> (r: &Button)
        requires
            i < self@.buttons.len(),
        ensures
            *r == self@.buttons[i as int],
    {
        &self.buttons[i]
    }

    /// Sets the state of button `i`.
    pub fn set_button(&mut self, i: usize, state: ButtonState)
        requires
            i < old(self)@.buttons.len(),
        ensures
            final(self)@.stacks == old(self)@.stacks,
            final(self)@.buttons == old(self)@.buttons.update(
                i as int,
                Button {
                    state,
                    ..old(self)@.buttons[i as int]
                },
            ),
    {
        let b = self.buttons[i];
        self.buttons[i] = Button { state, ..b };
    }

    /// Drops the cards of `substack`, in order, onto stack `i`.
    pub fn push_stack(&mut self, i: usize, substack: Stack)
        requires
            i < old(self)@.stacks.len(),
        ensures
            final(self)@.buttons == old(self)@.buttons,
            final(self)@.stacks == old(self)@.stacks.update(
                i as int,
                StackV {
                    role: old(self)@.stacks[i as int].role,
                    cards: old(self)@.stacks[i as int].cards + substack@.cards,
                },
            ),
    {
        let mut s = self.stacks[i].duplicate();
        s.extend(substack);
        self.stacks[i] = s;
        proof {
            assert(final(self)@.stacks =~= old(self)@.stacks.update(
                i as int,
                StackV {
                    role: old(self)@.stacks[i as int].role,
                    cards: old(self)@.stacks[i as int].cards + substack@.cards,
                },
            ));
        }
    }

    /// A copy of the stacks, for the solver to search from.
    pub fn export(&self) -> (r: Vec<Stack>)
        ensures
            views(r@) == self@.stacks,
    {
        let mut out: Vec<Stack> = Vec::new();
        let mut i: usize = 0;
        while i < self.stacks.len()
            invariant
                i <= self.stacks@.len(),
                out@.len() == i,
                forall|j: int| 0 <= j < i ==> #[trigger] out@[j]@ == self.stacks@[j]@,
            decreases self.stacks@.len() - i,
        {
            out.push(self.stacks[i].duplicate());
            i = i + 1;
        }
        proof {
            assert(views(out@) =~= self@.stacks);
        }
        out
    }

    /// True iff the board is won: every sorting stack empty and every
    /// target stack holding its full run of nine.
    pub fn check_win_condition(&self) -> (r: bool)
        ensures
            r == victory_spec(self@.stacks),
    {
        check_victory(&self.stacks)
    }

    /// Starts a new game: every stack is emptied, every button reset, and
    /// a freshly shuffled deck is dealt round-robin onto the eight sorting
    /// stacks, five cards each.
    #[verifier::loop_isolation(false)]
    pub fn new_game(&mut self)
        requires
            old(self).wf(),
        ensures
            final(self).wf(),
            targets_ok(final(self)@.stacks),
            forall|i: int|
                0 <= i < 15 && !(6 <= i < 14) ==> (#[trigger] final(self)@.stacks[i]).cards.len()
                    == 0,
            forall|i: int|
                0 <= i < 3 ==> (#[trigger] final(self)@.buttons[i]).state == ButtonState::Up
                    && final(self)@.buttons[i].stacks is None,
            exists|deck: Seq<Suite>|
                {
                    &&& deck.len() == 40
                    &&& (forall|card: Suite| #[trigger]
                        deck.to_multiset().count(card) == deck_count(card))
                    &&& #[trigger] dealt_from(final(self)@.stacks, deck)
                },
    {
        let ghost orig = self@;
        let mut i: usize = 0;
        while i < 15
            invariant
                i <= 15,
                self@.buttons == orig.buttons,
                self@.stacks.len() == 15,
                forall|j: int|
                    0 <= j < 15 ==> (#[trigger] self@.stacks[j]).role == orig.stacks[j].role,
                forall|j: int| 0 <= j < i ==> (#[trigger] self@.stacks[j]).cards.len() == 0,
            decreases 15 - i,
        {
            let role = self.stacks[i].role;
            let ghost prev = self@.stacks;
            let s = Stack::new(role);
            proof {
                assert(prev[i as int].role == role);
            }
            self.stacks[i] = s;
            proof {
                assert(self@.stacks =~= prev.update(i as int, s@));
            }
            i = i + 1;
        }
        let mut b: usize = 0;
        while b < 3
            invariant
                b <= 3,
                self@.stacks.len() == 15,
                self@.buttons.len() == 3,
                forall|j: int|
                    0 <= j < 15 ==> (#[trigger] self@.stacks[j]).role == orig.stacks[j].role,
                forall|j: int| 0 <= j < 15 ==> (#[trigger] self@.stacks[j]).cards.len() == 0,
                forall|j: int|
                    0 <= j < 3 ==> (#[trigger] self@.buttons[j]).color == orig.buttons[j].color,
                forall|j: int|
                    0 <= j < b ==> (#[trigger] self@.buttons[j]).state == ButtonState::Up
                        && self@.buttons[j].stacks is None,
            decreases 3 - b,
        {
            let color = self.buttons[b].color;
            self.buttons[b] = Button::new(color);
            b = b + 1;
        }
        let ghost btns = self@.buttons;
        let deck = shuffled_deck();
        let ghost deckv = deck@;
        let mut j: usize = 0;
        while j < 5
            invariant
                j <= 5,
                deck@ == deckv,
                deckv.len() == 40,
                self@.stacks.len() == 15,
                self@.buttons == btns,
                forall|m: int|
                    0 <= m < 15 ==> (#[trigger] self@.stacks[m]).role == orig.stacks[m].role,
                forall|m: int|
                    0 <= m < 15 && !(6 <= m < 14) ==> (#[trigger] self@.stacks[m]).cards.len()
                        == 0,
                forall|k2: int|
                    0 <= k2 < 8 ==> (#[trigger] self@.stacks[6 + k2]).cards =~= Seq::new(
                        j as nat,
                        |jj: int| deckv[8 * jj + k2],
                    ),
            decreases 5 - j,
        {
            let mut k: usize = 0;
            while k < 8
                invariant
                    j < 5,
                    k <= 8,
                    self@.stacks.len() == 15,
                    self@.buttons == btns,
                    forall|m: int|
                        0 <= m < 15 ==> (#[trigger] self@.stacks[m]).role == orig.stacks[m].role,
                    forall|m: int|
                        0 <= m < 15 && !(6 <= m < 14) ==> (#[trigger] self@.stacks[m]).cards.len()
                            == 0,
                    forall|k2: int|
                        0 <= k2 < k ==> (#[trigger] self@.stacks[6 + k2]).cards =~= Seq::new(
                            (j + 1) as nat,
                            |jj: int| deckv[8 * jj + k2],
                        ),
                    forall|k2: int|
                        k <= k2 < 8 ==> (#[trigger] self@.stacks[6 + k2]).cards =~= Seq::new(
                            j as nat,
                            |jj: int| deckv[8 * jj + k2],
                        ),
                decreases 8 - k,
            {
                let card = deck[8 * j + k];
                let ghost prev = self@.stacks;
                proof {
                    assert(prev[6 + k as int] == self.stacks@[6 + k as int]@);
                }
                let mut s = self.stacks[6 + k].duplicate();
                s.push_card(card);
                self.stacks[6 + k] = s;
                proof {
                    assert(self@.stacks =~= prev.update(6 + k as int, s@));
                    assert(self@.stacks[6 + k as int].cards =~= Seq::new(
                        (j + 1) as nat,
                        |jj: int| deckv[8 * jj + k as int],
                    ));
                }
                k = k + 1;
            }
            j = j + 1;
        }
        proof {
            assert(dealt_from(self@.stacks, deckv)) by {
                assert forall|k2: int, jj: int| 0 <= k2 < 8 && 0 <= jj < 5 implies (
                #[trigger] self@.stacks[6 + k2].cards[jj]) == deckv[8 * jj + k2] by {
                    assert(self@.stacks[6 + k2].cards =~= Seq::new(
                        5nat,
                        |m: int| deckv[8 * m + k2],
                    ));
                }
            }
            assert(self.wf()) by {
                assert forall|i2: int| 0 <= i2 < 15 implies (#[trigger] self@.stacks[i2]).role
                    == table_role(i2) by {
                    assert(orig.stacks[i2].role == table_role(i2));
                }
                assert forall|i2: int| 0 <= i2 < 3 implies (#[trigger] self@.buttons[i2]).color
                    == table_button_color(i2) by {
                    assert(orig.buttons[i2].color == table_button_color(i2));
                }
            }
        }
    }
}

/// The new state of a recomputed button is in step with the stacks: it is
/// active, remembering a collection target and four sources, exactly when
/// its color's dragons can be collected; otherwise it is up and remembers
/// nothing. A button that was down is left alone.
pub open spec fn button_synced(stacks: Seq<StackV>, ob: Button, nb: Button) -> bool {
    &&& nb.color == ob.color
    &&& (ob.state == ButtonState::Down ==> nb == ob)
    &&& (ob.state != ButtonState::Down ==> {
        &&& (nb.state == ButtonState::Active <==> exists|t: int, srcs: Seq<int>| #[trigger]
            button_move_ok(stacks, ob.color, t, srcs))
        &&& (nb.state != ButtonState::Active ==> nb.state == ButtonState::Up && nb.stacks is None)
        &&& (nb.state == ButtonState::Active ==> match nb.stacks {
            Some((t, srcs)) => button_move_ok(
                stacks,
                ob.color,
                t as int,
                srcs@.map_values(|u: usize| u as int),
            ),
            None => false,
        })
    })
}

/// An automatic move is a legal single-card move.
proof fn lemma_automove_is_cards_move(sv: Seq<StackV>, t: int, s: int)
    requires
        automove_ok(sv, t, s),
    ensures
        crate::rules::cards_move_ok(sv, t, s, 1),
{
    assert(sv[s].cards.skip(sv[s].cards.len() - 1).len() == 1);
    assert(sv[s].cards[sv[s].cards.len() - 1] == sv[s].cards.last());
}

/// An automatic move leaves some target stack offering a rank: an
/// untouched one keeps its offer, and a target that received a card is
/// topped by the number card that just arrived.
proof fn lemma_automove_keeps_target_rank(sv: Seq<StackV>, t: int, s: int)
    requires
        automove_ok(sv, t, s),
        has_target_rank(sv),
    ensures
        has_target_rank(apply_cards_move(sv, t, s, 1)),
{
    let sv2 = apply_cards_move(sv, t, s, 1);
    let i = choose|i: int| 0 <= i < sv.len() && target_rank_of(sv[i]) is Some;
    if i == t {
        let card = sv[s].cards.last();
        assert(sv[s].cards.skip(sv[s].cards.len() - 1) =~= seq![card]);
        assert(sv2[t].cards.last() == card);
        assert(sv2[t].role == sv[t].role);
        assert(sv[t].role == StackRole::Target || sv[t].role == StackRole::Flower);
        if sv[t].role == StackRole::Target {
            assert(card is Number);
            assert(target_rank_of(sv2[t]) is Some);
        } else {
            assert(i != t);
        }
    } else if i == s {
        assert(sv[s].role == StackRole::Dragon || sv[s].role == StackRole::Sorting);
        assert(target_rank_of(sv[i]) is None);
    } else {
        assert(sv2[i] == sv[i]);
        assert(target_rank_of(sv2[i]) is Some);
    }
}

/// The contribution of one stack to the count of freely movable cards.
pub open spec fn free_contrib(s: StackV) -> int {
    if s.role == StackRole::Dragon || s.role == StackRole::Sorting {
        s.cards.len() as int
    } else {
        0
    }
}

/// How many cards sit on dragon and sorting stacks; every automatic move
/// lowers it by one, which bounds the global rule pass.
pub open spec fn free_cards(sv: Seq<StackV>) -> int
    decreases sv.len(),
{
    if sv.len() == 0 {
        0
    } else {
        free_cards(sv.drop_last()) + free_contrib(sv.last())
    }
}

proof fn lemma_free_cards_nonneg(sv: Seq<StackV>)
    ensures
        free_cards(sv) >= 0,
    decreases sv.len(),
{
    if sv.len() > 0 {
        lemma_free_cards_nonneg(sv.drop_last());
    }
}

proof fn lemma_free_cards_update(sv: Seq<StackV>, i: int, v: StackV)
    requires
        0 <= i < sv.len(),
    ensures
        free_cards(sv.update(i, v)) == free_cards(sv) - free_contrib(sv[i]) + free_contrib(v),
    decreases sv.len(),
{
    if sv.len() > 0 {
        if i == sv.len() - 1 {
            assert(sv.update(i, v).drop_last() =~= sv.drop_last());
            assert(sv.update(i, v).last() == v);
        } else {
            assert(sv.update(i, v).drop_last() =~= sv.drop_last().update(i, v));
            assert(sv.update(i, v).last() == sv.last());
            lemma_free_cards_update(sv.drop_last(), i, v);
        }
    }
}

impl Table {
    /// The dragon stack a clicked button of `color` would collect into:
    /// the first dragon stack already topped by a dragon of that color,
    /// else the last empty dragon stack, else none.
    #[verifier::loop_isolation(false)]
    pub fn find_dragon_target(&self, color: Color) -> (r: Option<usize>)
        requires
            self.wf(),
        ensures
            ({
                let sv = self@.stacks;
                match r {
                    Some(i) => i < 3 && ((shows_dragon(sv[i as int], color) && (forall|j: int|
                        0 <= j < i ==> !shows_dragon(#[trigger] sv[j], color))) || (sv[i as int].cards.len()
                        == 0 && (forall|j: int|
                        0 <= j < 3 ==> !shows_dragon(#[trigger] sv[j], color)) && (forall|j: int|
                        i < j < 3 ==> (#[trigger] sv[j]).cards.len() != 0))),
                    None => forall|j: int|
                        0 <= j < 3 ==> !shows_dragon(#[trigger] sv[j], color) && sv[j].cards.len()
                            != 0,
                }
            }),
    {
        let ghost sv = self@.stacks;
        let mut target: Option<usize> = None;
        let mut i: usize = 0;
        while i < 3
            invariant
                i <= 3,
                forall|j: int| 0 <= j < i ==> !shows_dragon(#[trigger] sv[j], color),
                match target {
                    Some(x) => x < i && sv[x as int].cards.len() == 0 && (forall|j: int|
                        x < j < i ==> (#[trigger] sv[j]).cards.len() != 0),
                    None => forall|j: int| 0 <= j < i ==> (#[trigger] sv[j]).cards.len() != 0,
                },
            decreases 3 - i,
        {
            let stack = &self.stacks[i];
            proof {
                assert(sv[i as int] == self.stacks@[i as int]@);
            }
            match stack.top() {
                Some(Suite::Dragon(c)) => {
                    if c == color {
                        return Some(i);
                    }
                },
                _ => {},
            }
            if stack.len() == 0 {
                target = Some(i);
            }
            i = i + 1;
        }
        target
    }

    /// Fires button `b` if it is active and its dragons are in place: the
    /// four stacks showing its color's dragon lose their top card, the
    /// collection target gains four face-down cards, and the button goes
    /// down. Otherwise nothing changes. Returns whether the button fired;
    /// an active button whose dragons can be collected always fires.
    pub fn click_button(&mut self, b: usize) -> (fired: bool)
        requires
            old(self).wf(),
            b < 3,
        ensures
            final(self).wf(),
            targets_ok(old(self)@.stacks) ==> targets_ok(final(self)@.stacks),
            old(self)@.buttons[b as int].state == ButtonState::Active && (exists|
                t: int,
                srcs: Seq<int>,
            |
                #[trigger] button_move_ok(
                    old(self)@.stacks,
                    old(self)@.buttons[b as int].color,
                    t,
                    srcs,
                )) ==> fired,
            !fired ==> final(self)@ == old(self)@,
            fired ==> ({
                let color = old(self)@.buttons[b as int].color;
                &&& old(self)@.buttons[b as int].state == ButtonState::Active
                &&& exists|t: int, srcs: Seq<int>|
                    #[trigger] button_move_ok(old(self)@.stacks, color, t, srcs)
                        && final(self)@.stacks == apply_button_move(old(self)@.stacks, t, srcs)
                &&& final(self)@.buttons == old(self)@.buttons.update(
                    b as int,
                    Button { state: ButtonState::Down, ..old(self)@.buttons[b as int] },
                )
            }),
    {
        let state = self.buttons[b].state;
        if !matches!(state, ButtonState::Active) {
            return false;
        }
        let color = self.buttons[b].color;
        match check_button(color, &self.stacks) {
            None => {
                proof {
                    assert forall|t: int, srcs: Seq<int>|
                        !button_move_ok(self@.stacks, color, t, srcs) by {
                        if button_move_ok(self@.stacks, color, t, srcs) {
                            assert(collect_target_ok(self@.stacks[t], color));
                            assert(dragon_top_indices(self@.stacks, color).len() == 4);
                        }
                    }
                }
                false
            },
            Some((t, srcs)) => {
                let ghost sv = self@.stacks;
                let m = Move::Button(color, t, srcs);
                proof {
                    assert(button_move_ok(
                        sv,
                        color,
                        t as int,
                        srcs@.map_values(|u: usize| u as int),
                    ));
                }
                let st = AiState::new(self.export());
                let applied = st.apply_move(m);
                self.stacks = applied.into_stacks();
                let btn = self.buttons[b];
                self.buttons[b] = Button { state: ButtonState::Down, ..btn };
                proof {
                    assert(self@.stacks == apply_button_move(
                        sv,
                        t as int,
                        srcs@.map_values(|u: usize| u as int),
                    ));
                    assert(self.wf()) by {
                        crate::solver::lemma_apply_keeps_roles(sv, m);
                    }
                    if targets_ok(sv) {
                        lemma_move_keeps_targets(sv, m);
                    }
                }
                true
            },
        }
    }

    /// Performs the first automatic move, if one exists: the source
    /// stack's top card moves onto the target stack. Returns whether a
    /// move was made.
    pub fn do_automove(&mut self) -> (r: bool)
        requires
            old(self).wf(),
            has_target_rank(old(self)@.stacks),
        ensures
            final(self).wf(),
            has_target_rank(final(self)@.stacks),
            targets_ok(old(self)@.stacks) ==> targets_ok(final(self)@.stacks),
            final(self)@.buttons == old(self)@.buttons,
            !r ==> final(self)@.stacks == old(self)@.stacks && (forall|t: int, s: int|
                !automove_ok(old(self)@.stacks, t, s)),
            r ==> (exists|t: int, s: int|
                #[trigger] automove_ok(old(self)@.stacks, t, s) && final(self)@.stacks
                    == apply_cards_move(old(self)@.stacks, t, s, 1)) && free_cards(
                final(self)@.stacks,
            ) == free_cards(old(self)@.stacks) - 1,
    {
        let ghost sv = self@.stacks;
        match get_automove(&self.stacks) {
            None => false,
            Some((t, s)) => {
                let m = Move::Cards(t, s, 1);
                proof {
                    lemma_automove_is_cards_move(sv, t as int, s as int);
                }
                let st = AiState::new(self.export());
                let applied = st.apply_move(m);
                self.stacks = applied.into_stacks();
                proof {
                    assert(self@.stacks == apply_cards_move(sv, t as int, s as int, 1));
                    assert(self.wf()) by {
                        crate::solver::lemma_apply_keeps_roles(sv, m);
                    }
                    if targets_ok(sv) {
                        lemma_move_keeps_targets(sv, m);
                    }
                    lemma_automove_keeps_target_rank(sv, t as int, s as int);
                    assert(free_cards(self@.stacks) == free_cards(sv) - 1) by {
                        let src = sv[s as int];
                        let dst = sv[t as int];
                        let popped = StackV {
                            role: src.role,
                            cards: src.cards.take(src.cards.len() - 1),
                        };
                        let grown = StackV {
                            role: dst.role,
                            cards: dst.cards + src.cards.skip(src.cards.len() - 1),
                        };
                        lemma_free_cards_update(sv, s as int, popped);
                        lemma_free_cards_update(sv.update(s as int, popped), t as int, grown);
                        assert(sv.update(s as int, popped)[t as int] == dst);
                    }
                }
                true
            },
        }
    }

    /// Recomputes every button that is not down: a button becomes active,
    /// remembering its collection target and four sources, exactly when
    /// its color's dragons can be collected; otherwise it goes up.
    #[verifier::loop_isolation(false)]
    pub fn update_buttons(&mut self)
        requires
            old(self).wf(),
        ensures
            final(self).wf(),
            final(self)@.stacks == old(self)@.stacks,
            forall|i: int|
                0 <= i < 3 ==> button_synced(
                    old(self)@.stacks,
                    old(self)@.buttons[i],
                    #[trigger] final(self)@.buttons[i],
                ),
    {
        let ghost sv = self@.stacks;
        let mut b: usize = 0;
        while b < 3
            invariant
                b <= 3,
                self@.stacks == sv,
                self@.buttons.len() == 3,
                forall|i: int| b <= i < 3 ==> self@.buttons[i] == old(self)@.buttons[i],
                forall|i: int|
                    0 <= i < b ==> button_synced(
                        sv,
                        old(self)@.buttons[i],
                        #[trigger] self@.buttons[i],
                    ),
            decreases 3 - b,
        {
            let btn = self.buttons[b];
            if !matches!(btn.state, ButtonState::Down) {
                match check_button(btn.color, &self.stacks) {
                    Some((t, srcs)) => {
                        self.buttons[b] = Button {
                            color: btn.color,
                            state: ButtonState::Active,
                            stacks: Some((t, srcs)),
                        };
                        proof {
                            assert(button_move_ok(
                                sv,
                                btn.color,
                                t as int,
                                srcs@.map_values(|u: usize| u as int),
                            ));
                        }
                    },
                    None => {
                        self.buttons[b] = Button {
                            color: btn.color,
                            state: ButtonState::Up,
                            stacks: None,
                        };
                        proof {
                            assert forall|t: int, srcs: Seq<int>|
                                !button_move_ok(sv, btn.color, t, srcs) by {
                                if button_move_ok(sv, btn.color, t, srcs) {
                                    assert(collect_target_ok(sv[t], btn.color));
                                    assert(dragon_top_indices(sv, btn.color).len() == 4);
                                }
                            }
                        }
                    },
                }
            }
            b = b + 1;
        }
    }

    /// The global rule pass: performs automatic moves until none remains,
    /// then brings every button that is not down in step with the stacks.
    pub fn update(&mut self)
        requires
            old(self).wf(),
            has_target_rank(old(self)@.stacks),
        ensures
            final(self).wf(),
            has_target_rank(final(self)@.stacks),
            targets_ok(old(self)@.stacks) ==> targets_ok(final(self)@.stacks),
            forall|t: int, s: int| !automove_ok(final(self)@.stacks, t, s),
            forall|i: int|
                0 <= i < 3 ==> button_synced(
                    final(self)@.stacks,
                    old(self)@.buttons[i],
                    #[trigger] final(self)@.buttons[i],
                ),
    {
        let ghost obtns = self@.buttons;
        let mut more = self.do_automove();
        proof {
            lemma_free_cards_nonneg(self@.stacks);
        }
        while more
            invariant
                self.wf(),
                has_target_rank(self@.stacks),
                targets_ok(old(self)@.stacks) ==> targets_ok(self@.stacks),
                self@.buttons == obtns,
                free_cards(self@.stacks) >= 0,
                !more ==> (forall|t: int, s: int| !automove_ok(self@.stacks, t, s)),
            decreases free_cards(self@.stacks) + (if more {
                1int
            } else {
                0int
            }),
        {
            more = self.do_automove();
            proof {
                lemma_free_cards_nonneg(self@.stacks);
            }
        }
        self.update_buttons();
    }
}

} // verus!
