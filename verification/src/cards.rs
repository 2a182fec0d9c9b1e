//! The card model: colors, card faces, stack roles, and the `Stack` type
//! that every rule and the solver operate on.

use vstd::prelude::*;

verus! {

/// One of the three card colors.
#[derive(Copy, Clone, Debug, Eq, PartialEq, Hash, Structural)]
pub enum Color {
    Red,
    Green,
    White,
}

/// A card face. `FaceDown` is the opaque placeholder a collected dragon
/// block is made of; `Flower` is the unique special card; number cards
/// carry a rank and a color.
#[derive(Copy, Clone, Debug, Eq, PartialEq, Hash, Structural)]
pub enum Suite {
    FaceDown,
    Flower,
    Dragon(Color),
    Number(u8, Color),
}

/// The role of a stack decides which cards it accepts and which may leave it.
/// `Generic` and `Animation` never take part in the game rules.
#[derive(Copy, Clone, Debug, Eq, PartialEq, Hash, Structural)]
pub enum StackRole {
    Dragon,
    Flower,
    Target,
    Sorting,
    Generic,
    Animation,
}

/// The mathematical model of a stack: its role and its cards, bottom first.
#[verifier::ext_equal]
pub ghost struct StackV {
    pub role: StackRole,
    pub cards: Seq<Suite>,
}

/// An ordered pile of cards with a role. The last card is the top.
#[derive(Clone, Debug, Eq, PartialEq, Hash)]
pub struct Stack {
    pub cards: Vec<Suite>,
    pub role: StackRole,
}

impl View for Stack {
    type V = StackV;

    open spec fn view(&self) -> StackV {
        StackV { role: self.role, cards: self.cards@ }
    }
}

/// The top card of a card sequence, if any.
pub open spec fn top_of(cards: Seq<Suite>) -> Option<Suite> {
    if cards.len() == 0 {
        None
    } else {
        Some(cards.last())
    }
}

impl Stack {
    pub fn new(role: StackRole) -> (r: Stack)
        ensures
            r@.role == role,
            r@.cards == Seq::<Suite>::empty(),
    {
        Stack { cards: Vec::new(), role }
    }

    pub fn len(&self) -> (r: usize)
        ensures
            r == self@.cards.len(),
    {
        self.cards.len()
    }

    pub fn top(&self) -> (r: Option<Suite>)
        ensures
            r == top_of(self@.cards),
    {
        if self.cards.len() == 0 {
            None
        } else {
            Some(self.cards[self.cards.len() - 1])
        }
    }

    pub fn peek(&self, idx: usize) -> (r: Suite)
        requires
            idx < self@.cards.len(),
        ensures
            r == self@.cards[idx as int],
    {
        self.cards[idx]
    }

    pub fn push_card(&mut self, card: Suite)
        ensures
            final(self)@.role == old(self)@.role,
            final(self)@.cards == old(self)@.cards.push(card),
    {
        self.cards.push(card);
    }

    pub fn pop_card(&mut self) -> (r: Option<Suite>)
        ensures
            final(self)@.role == old(self)@.role,
            old(self)@.cards.len() == 0 ==> r is None && final(self)@.cards == old(self)@.cards,
            old(self)@.cards.len() > 0 ==> r == Some(old(self)@.cards.last())
                && final(self)@.cards == old(self)@.cards.drop_last(),
    {
        let r = self.cards.pop();
        proof {
            if old(self)@.cards.len() > 0 {
                assert(final(self)@.cards =~= old(self)@.cards.drop_last());
            }
        }
        r
    }

    /// Appends every card of `other`, bottom first, onto this stack.
    pub fn extend(&mut self, other: Stack)
        ensures
            final(self)@.role == old(self)@.role,
            final(self)@.cards == old(self)@.cards + other@.cards,
    {
        let mut o = other;
        self.cards.append(&mut o.cards);
    }

    /// Takes the cards from `at` upward off this stack and returns them as a
    /// role-less stack, as a drag does.
    pub fn split(&mut self, at: usize) -> (r: Stack)
        requires
            at <= old(self)@.cards.len(),
        ensures
            final(self)@.role == old(self)@.role,
            final(self)@.cards == old(self)@.cards.take(at as int),
            r@.role == StackRole::Generic,
            r@.cards == old(self)@.cards.skip(at as int),
    {
        let cards = self.cards.split_off(at);
        Stack { cards, role: StackRole::Generic }
    }

    /// A copy whose model is the same as this stack's.
    pub fn duplicate(&self) -> (r: Stack)
        ensures
            r@ == self@,
    {
        let mut cards: Vec<Suite> = Vec::new();
        let mut i: usize = 0;
        while i < self.cards.len()
            invariant
                i <= self.cards.len(),
                cards@ == self.cards@.take(i as int),
            decreases self.cards.len() - i,
        {
            cards.push(self.cards[i]);
            proof {
                assert(cards@ =~= self.cards@.take(i + 1 as int));
            }
            i = i + 1;
        }
        proof {
            assert(cards@ =~= self.cards@);
        }
        Stack { cards, role: self.role }
    }
}

} // verus!
