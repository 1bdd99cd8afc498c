// What a compilation can be asked to print, and the location of last resort.

use vstd::prelude::*;
use crate::diag::Span;

verus! {

/// What `compile` prints.
#[derive(Debug, Clone, Copy, PartialEq, Eq, Structural)]
pub enum Emit {
    /// Declarations after precedence resolution.
    Ast,
    /// Lowered modules, before the backend folds anything.
    Ir,
    /// The generated Verilog-2005.
    Verilog,
}

/// A span covering nothing, for diagnostics that have no better location yet.
pub fn nowhere() -> (s: Span)
    ensures
        s == (Span { lo: 0, hi: 0 }),
{
    Span::at(0)
}

} // verus!
