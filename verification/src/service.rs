//! The capability contracts a command schema offers the session:
//! parsing, autocompletion and help.

use vstd::prelude::*;

use crate::autocomplete::Autocompletion;
use crate::autocomplete::Request;
use crate::command::RawCommand;
use crate::writer::SinkError;

verus! {

/// Why handling a dispatched command failed: the handler rejected the
/// command, or the output transport failed.  A host prints the first
/// through the session's diagnostic reporter and propagates the second.
#[derive(Clone, Debug)]
pub enum ProcessError {
    ParseError(ParseError),
    WriteError(SinkError),
}

/// Why a submitted line could not be parsed into a typed command.
#[derive(Clone, Debug)]
#[non_exhaustive]
pub enum ParseError {
    MissingRequiredArgument {
        /// Name of the argument, as shown to the user.
        name: Vec<u8>,
    },
    ParseValueError {
        /// The value that did not parse.
        value: Vec<u8>,
        /// A name for what was expected instead.
        expected: Vec<u8>,
    },
    UnexpectedArgument {
        value: Vec<u8>,
    },
    UnexpectedLongOption {
        name: Vec<u8>,
    },
    UnexpectedShortOption {
        name: char,
    },
    UnknownCommand,
}

/// Why help for a command could not be printed.
#[derive(Clone, Copy, Debug, PartialEq, Eq, Structural)]
pub enum HelpError {
    /// The command is not known to the schema.
    UnknownCommand,
    /// The output transport failed.
    WriteError,
}

/// Autocompletion capability of a command schema: merge the candidate
/// completions of `request` into `autocompletion`.
pub trait Autocomplete {
    fn autocomplete(request: &Request, autocompletion: &mut Autocompletion);
}

/// Help capability of a command schema.
pub trait Help {
    /// How many commands are known.
    fn command_count() -> usize;

    /// Appends a listing of all commands to `out`.
    fn list_commands(out: &mut Vec<u8>);

    /// Appends help for the given command to `out`.  The command's
    /// arguments may hold `-h` or `--help`.  A schema that does not
    /// know the command must return [`HelpError::UnknownCommand`].
    ///
    /// Help is gathered in a byte buffer and written out by the session
    /// in one piece, rather than streamed through a writer handle; for
    /// the same reason there is no separate channel for a parent
    /// command's name prefix — a schema that nests subcommands writes
    /// the full path itself.  A [`HelpError::WriteError`] is propagated
    /// by the session as a sink error.
    fn command_help(command: &RawCommand, out: &mut Vec<u8>) -> Result<(), HelpError>;
}

/// Parsing capability of a command schema: turn a raw command into a
/// typed one.
pub trait FromRaw: Sized {
    fn parse(raw: RawCommand) -> Result<Self, ParseError>;
}

} // verus!
