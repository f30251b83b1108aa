//! The player action type, re-exported for callers outside the core: a
//! front end builds an `Action` from a keystroke and hands it to
//! `State::apply`.
pub use crate::state::Action;
