use vstd::prelude::*;

verus! {

/// Everything that can go wrong in the library.
#[derive(Debug, PartialEq, Eq)]
pub enum AocErr {
    /// A program image held a field that is not a signed integer.
    ParseIntError,
    /// The first cell of an instruction encodes no supported operation
    /// (or an unsupported parameter mode); the cell's value is kept.
    InvalidOpcode(i64),
    /// An Input instruction found the input queue empty.
    NotEnoughInputs,
    /// The step budget ran out before the program yielded or halted.
    ExceededMaxSteps,
    /// An address resolved outside the allocated memory.
    OutOfBounds,
    /// An instruction tried to write through an immediate operand.
    ImmediateWrite,
    /// An arithmetic result does not fit in the machine's integers.
    Overflow,
    /// The program halted without producing any output.
    NoOutput,
    /// Any other failure, with a message.
    Custom(String),
}

pub type AocResult<T> = Result<T, AocErr>;

/// Builds a `Custom` error carrying the message `s`.
pub fn custom_error(s: &str) -> (r: AocErr)
    ensures
        r matches AocErr::Custom(m) && m@ == s@,
{
    AocErr::Custom(s.to_string())
}

} // verus!
