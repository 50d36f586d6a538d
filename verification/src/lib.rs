//! A fine-grained reactive state engine.
//!
//! A data model is a set of individually trackable cells ("signals").  After a
//! mutation, the engine determines exactly which registered computations
//! ("hooks") depend on the changed cells, re-executes them in creation order,
//! and tears down obsolete sub-computations.  Rendering to a concrete display
//! is left to an external collaborator; the engine works on plain values and
//! opaque artifact slots.

pub mod element;
pub mod expr;
pub mod hook;
pub mod laws;
pub mod registry;
pub mod signal;
pub mod state;
pub mod text;

use vstd::prelude::*;

verus! {

/// Debug logging stub; a host shell may route messages to a console.
/// The engine itself never depends on logging.
pub fn debug(msg: &str) {
    let _ = msg;
}

} // verus!
