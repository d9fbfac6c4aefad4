//! A submitted command before schema parsing: its name and its raw
//! argument list.

use vstd::prelude::*;

use crate::arguments::Args;

verus! {

/// Why a command name and argument list could not be turned into a
/// typed container.
#[derive(Clone, Debug)]
#[non_exhaustive]
pub enum ParseError {
    MissingRequiredArgument {
        /// Name of the argument, as shown to the user.
        name: Vec<u8>,
    },
    ParseValueError {
        /// The value that did not parse.
        value: Vec<u8>,
        /// A name for what was expected instead.
        expected: Vec<u8>,
    },
    UnexpectedArgument {
        value: Vec<u8>,
    },
    UnexpectedLongOption {
        name: Vec<u8>,
    },
    UnexpectedShortOption {
        name: char,
    },
    UnknownCommand,
}

/// Parsing of a command name and argument list into a typed container.
pub trait FromCommand: Sized {
    fn parse(name: Vec<u8>, args: Args) -> Result<Self, ParseError>;
}

/// A command as tokenized from one submitted line.
#[derive(Clone, Debug)]
pub struct RawCommand {
    /// The command name: the first token of the line.
    name: Vec<u8>,
    /// The remaining tokens.
    args: Args,
}

impl RawCommand {
    pub closed spec fn name_spec(&self) -> Seq<u8> {
        self.name@
    }

    pub closed spec fn args_spec(&self) -> Args {
        self.args
    }

    pub fn new(name: Vec<u8>, args: Args) -> (r: RawCommand)
        ensures
            r.name_spec() == name@,
            r.args_spec() == args,
    {
        RawCommand { name, args }
    }

    /// The argument list.
    pub fn args(&self) -> (r: &Args)
        ensures
            *r == self.args_spec(),
    {
        &self.args
    }

    /// The command name.
    pub fn name(&self) -> (r: &Vec<u8>)
        ensures
            r@ == self.name_spec(),
    {
        &self.name
    }

    /// Takes the name and arguments apart.
    pub fn into_parts(self) -> (r: (Vec<u8>, Args))
        ensures
            r.0@ == self.name_spec(),
            r.1 == self.args_spec(),
    {
        (self.name, self.args)
    }
}

impl FromCommand for RawCommand {
    /// Every command name with every argument list is accepted as-is.
    fn parse(name: Vec<u8>, args: Args) -> Result<RawCommand, ParseError> {
        Ok(RawCommand { name, args })
    }
}

} // verus!
