//! Circuit-description vocabulary shared with the netlist-loading layer.

use vstd::prelude::*;

verus! {

/// Whether a module port carries a signal into or out of the module.
#[derive(Debug, Clone, Copy, PartialEq, Eq, Structural)]
pub enum Direction {
    Input,
    Output,
}

} // verus!
