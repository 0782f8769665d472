//! A protocol whose participants share their names with those of
//! `alpha_protocol`.
use vstd::prelude::*;

verus! {

pub struct Frontend;

pub struct Backend;

impl Frontend {
    /// The protocol's single step: a call into the backend.
    pub fn start() {
        Backend::handle_beta();
    }
}

impl Backend {
    fn handle_beta() {
    }
}

} // verus!
