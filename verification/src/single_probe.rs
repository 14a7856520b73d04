//! Slot resolution with a single existence probe: the guard checks only the
//! directory of the token that would be written (the live slot when it is
//! adopted, otherwise the BLS slot).

pub mod context;
pub mod orchestrate;
pub mod slot;
