use vstd::prelude::*;

verus! {

/// Unmatched `[` or `]` in the source text.
pub const STRUCTURAL_ERROR: i16 = 1;

/// The output stream did not take a byte.
pub const OUTPUT_ERROR: i16 = 2;

/// The input stream did not give a byte.
pub const INPUT_ERROR: i16 = 3;

/// The instruction cursor reached an operation that cannot be fetched.
pub const INVALID_CURSOR: i16 = 4;

/// A value could not be stored in a cell.
pub const NEGATIVE_VALUE: i16 = 5;

/// The data cursor would move past the last cell.
pub const OVERFLOW: i16 = 6;

/// The data cursor would move before the first cell.
pub const UNDERFLOW: i16 = 7;

/// The run fetched as many instructions as its budget allows without halting.
pub const BUDGET_EXCEEDED: i16 = 8;

/// The text that describes each status code.
pub open spec fn description_text(code: i16) -> Seq<char> {
    if code == STRUCTURAL_ERROR {
        "Invalid bf source (Symbols [ and ] does not match)"@
    } else if code == OUTPUT_ERROR {
        "Error writing to output stream"@
    } else if code == INPUT_ERROR {
        "Error reading input stream"@
    } else if code == INVALID_CURSOR {
        "Invalid operation pointer"@
    } else if code == NEGATIVE_VALUE {
        "Attempt to write negative value"@
    } else if code == OVERFLOW {
        "Addressing above 30000"@
    } else if code == UNDERFLOW {
        "Addressing below 0"@
    } else if code == BUDGET_EXCEEDED {
        "Execution step budget exceeded"@
    } else {
        "Unknown error"@
    }
}

/// Describes a status code in words.
pub fn error_description(code: i16) -> (r: &'static str)
    ensures
        r@ == description_text(code),
{
    if code == STRUCTURAL_ERROR {
        "Invalid bf source (Symbols [ and ] does not match)"
    } else if code == OUTPUT_ERROR {
        "Error writing to output stream"
    } else if code == INPUT_ERROR {
        "Error reading input stream"
    } else if code == INVALID_CURSOR {
        "Invalid operation pointer"
    } else if code == NEGATIVE_VALUE {
        "Attempt to write negative value"
    } else if code == OVERFLOW {
        "Addressing above 30000"
    } else if code == UNDERFLOW {
        "Addressing below 0"
    } else if code == BUDGET_EXCEEDED {
        "Execution step budget exceeded"
    } else {
        "Unknown error"
    }
}

} // verus!
