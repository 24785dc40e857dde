//! The ways in which a line can fail to assemble.

use vstd::prelude::*;

verus! {

/// Why a line could not be assembled. A failing line leaves the byte counter, the
/// label table and the image as they were.
#[derive(Clone, Copy, Debug, PartialEq, Eq, Structural)]
pub enum AsmError {
    /// The instruction has fewer operands than its mnemonic asks for.
    MissingOperand,
    /// A numeric operand has no digits or denotes more than `i32::MAX`.
    InvalidLiteral,
    /// The immediate operand of `ADD` or `SUB` does not fit in eight bits.
    ImmediateTooWide,
    /// The byte counter cannot advance by another word.
    CounterOverflow,
    /// The text handed to the word emitter is no base-2 numeral.
    InvalidBitString,
    /// The bits of the word denote a number that does not fit in sixteen bits.
    WordOverflow,
}

} // verus!
