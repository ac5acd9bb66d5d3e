//! The errors of the tape machine.

use vstd::prelude::*;
use vstd::string::*;

verus! {

/// Why the machine stopped without finishing its instruction.
#[derive(Debug, Clone, Copy, PartialEq, Eq, Structural)]
pub enum BFError {
    /// A scan for a loop boundary ran off an end of the program.
    UnbalancedBrackets,
    /// The pointer was asked to move left of the first cell.
    NegativeArrayPointer,
    /// A character read, or a cell to be written, is not ASCII.
    NonASCIIChar,
    /// A step was asked for at a counter past the end of the program.
    InvalidInstructionIndex,
    /// The input capability had nothing to give.
    InputFailed,
    /// The output capability did not take the character.
    OutputFailed,
    /// The step budget of a run was used up before the program ended.
    StepLimitReached,
}

/// The name of an error, as text.
pub open spec fn error_name(e: BFError) -> Seq<char> {
    match e {
        BFError::UnbalancedBrackets => "UnbalancedBrackets"@,
        BFError::NegativeArrayPointer => "NegativeArrayPointer"@,
        BFError::NonASCIIChar => "NonASCIIChar"@,
        BFError::InvalidInstructionIndex => "InvalidInstructionIndex"@,
        BFError::InputFailed => "InputFailed"@,
        BFError::OutputFailed => "OutputFailed"@,
        BFError::StepLimitReached => "StepLimitReached"@,
    }
}

impl BFError {
    /// The error's name, for display.
    pub fn to_string(&self) -> (s: String)
        ensures
            s@ == error_name(*self),
    {
        let name: &str = match self {
            BFError::UnbalancedBrackets => "UnbalancedBrackets",
            BFError::NegativeArrayPointer => "NegativeArrayPointer",
            BFError::NonASCIIChar => "NonASCIIChar",
            BFError::InvalidInstructionIndex => "InvalidInstructionIndex",
            BFError::InputFailed => "InputFailed",
            BFError::OutputFailed => "OutputFailed",
            BFError::StepLimitReached => "StepLimitReached",
        };
        String::from_str(name)
    }
}

} // verus!
