//! A solver for the pour-sort puzzle: containers of equal capacity hold
//! stacks of colored units, and the goal is an ordered sequence of pours
//! after which every container is empty or full of a single color.
//!
//! `model` states what boards, pours and solutions are; `check` validates a
//! raw board; `bottle`, `list` and `puzzle` hold the search's compact state;
//! `solve` searches; `replay` proves any answer against the model; and `laws`
//! states the validator's laws.

pub mod bottle;
pub mod check;
pub mod laws;
pub mod list;
pub mod model;
pub mod puzzle;
pub mod replay;
pub mod solve;
