//! Rule engine and solver for a solitaire game of three dragon stacks,
//! three ascending target stacks, one flower stack and eight free sorting
//! stacks. The rules decide which moves are legal, which moves happen on
//! their own, and when a dragon button may fire; the solver searches the
//! reachable states of a board to tell whether a deal can still be won.

pub mod cards;
pub mod rules;
pub mod solver;
pub mod table;
