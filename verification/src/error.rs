//! What can be wrong with an instruction file.

use vstd::prelude::*;

verus! {

/// The two commands that name files of the build context.
#[derive(Clone, Copy, Debug, PartialEq, Eq, Structural)]
pub enum Command {
    Copy,
    Add,
}

/// Why an instruction file could not be read as a list of commands.
#[derive(Clone, Copy, Debug, PartialEq, Eq, Structural)]
pub enum ParseError {
    /// The file ends within a command: its last line asks for a
    /// continuation that never comes.
    TrailingContinuation,
    /// A `COPY` or `ADD` stands alone, without source or destination.
    NoArguments(Command),
}

impl Command {
    /// The keyword as it is written in an instruction file.
    pub open spec fn keyword(self) -> Seq<char> {
        match self {
            Command::Copy => "COPY"@,
            Command::Add => "ADD"@,
        }
    }
}

impl ParseError {
    /// The error in words.
    pub open spec fn message_text(self) -> Seq<char> {
        match self {
            ParseError::TrailingContinuation => "Trailing \\"@,
            ParseError::NoArguments(command) => "No arguments to "@ + command.keyword()
                + " command?"@,
        }
    }

    /// The error in words, for a reader.
    pub fn message(&self) -> (text: String)
        ensures
            text@ == self.message_text(),
    {
        match self {
            ParseError::TrailingContinuation => String::from_str("Trailing \\"),
            ParseError::NoArguments(command) => {
                let keyword = match command {
                    Command::Copy => "COPY",
                    Command::Add => "ADD",
                };
                String::from_str("No arguments to ").concat(keyword).concat(" command?")
            },
        }
    }
}

} // verus!
