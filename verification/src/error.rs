use vstd::prelude::*;

verus! {

/// Failure raised by an operation between two matrices whose shapes are
/// incompatible. Shape mismatches are always reported; no operation
/// truncates, pads or broadcasts its operands.
#[derive(Debug, PartialEq, Eq, Structural)]
pub enum MatxError {
    SizeError,
}

} // verus!
