//! The ways in which assembling a source text can fail.

use vstd::prelude::*;

verus! {

/// Why a source text was not assembled. Either failure ends the whole run:
/// no stream is handed out.
#[derive(Debug, Clone, Copy, PartialEq, Eq, Structural)]
pub enum AsmError {
    /// A bare argument is not a hexadecimal literal that fits in 64 bits.
    MalformedLiteral,
    /// The payload of an operand to be emitted is not a decimal number that
    /// fits in 64 bits.
    InvalidOperandValue,
}

} // verus!
