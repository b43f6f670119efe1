//! Identifiers shared with a presentation layer.
use vstd::prelude::*;

verus! {

/// Messages a presentation layer reports back to its driver.
#[derive(Debug, PartialEq, Eq, Structural)]
pub enum Msg {
    AppClose,
}

/// Identifiers of the components a presentation layer mounts.
#[derive(Debug, Eq, PartialEq, Structural, Clone, Copy, Hash)]
pub enum Id {
    PlayerTable,
}

} // verus!
