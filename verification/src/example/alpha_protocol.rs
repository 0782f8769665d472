//! A protocol whose participants share their names with those of
//! `beta_protocol`.
use vstd::prelude::*;

verus! {

pub struct Frontend;

pub struct Backend;

impl Frontend {
    /// The protocol's single step: a call into the backend.
    pub fn start() {
        Backend::handle_alpha();
    }
}

impl Backend {
    fn handle_alpha() {
    }
}

} // verus!
