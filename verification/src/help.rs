//! Recognizes a request for help in a submitted command.
//!
//! `help`, `help <cmd>`, or any `-h` / `--help` among a command's
//! arguments requests help instead of dispatch.

use vstd::prelude::*;
use vstd::utf8::valid_first_scalar;

use crate::arguments::Arg;
use crate::arguments::Args;
use crate::command::RawCommand;
use crate::utils::slice_eq;

verus! {

/// The bytes of the built-in command name `help`.
pub open spec fn help_name() -> Seq<u8> {
    seq![104u8, 101u8, 108u8, 112u8]
}

/// Whether a run of collapsed short options (the bytes after the
/// leading `-`) contains the option `h`: its characters are unpacked
/// while they are well-formed, and one of them is `h`.
pub open spec fn short_run_has_h(s: Seq<u8>) -> bool
    decreases s.len(),
{
    if s.len() == 0 || !valid_first_scalar(s) {
        false
    } else if vstd::utf8::decode_first_scalar(s) == 104u32 {
        true
    } else {
        short_run_has_h(s.skip(vstd::utf8::length_of_first_scalar(s)))
    }
}

/// Whether the classified arguments of `toks` hold `-h` or `--help`
/// before any bare `--`.
pub open spec fn has_help_option(toks: Seq<Seq<u8>>) -> bool
    decreases toks.len(),
{
    if toks.len() == 0 {
        false
    } else {
        let tok = toks[0];
        if tok.len() > 1 && tok[0] == 45u8 {
            if tok[1] == 45u8 {
                if tok.len() == 2 {
                    false
                } else {
                    tok.skip(2) == help_name() || has_help_option(toks.skip(1))
                }
            } else {
                short_run_has_h(tok.skip(1)) || has_help_option(toks.skip(1))
            }
        } else {
            has_help_option(toks.skip(1))
        }
    }
}

/// What is still scannable for `-h` / `--help` from a classifier state:
/// nothing once a bare `--` was seen, else what is left of the current
/// short-option run and the tokens not yet consumed.
pub open spec fn help_in_rest(leftover: Seq<u8>, toks: Seq<Seq<u8>>, values_only: bool) -> bool {
    !values_only && (short_run_has_h(leftover) || has_help_option(toks))
}

/// A recognized request for help.
#[derive(Clone, Debug)]
pub enum HelpRequest {
    /// Show the list of all available commands.
    All,
    /// Show help for one command; its arguments may hold `-h` or
    /// `--help`.
    Command(RawCommand),
}

impl HelpRequest {
    /// Recognizes a help request in a command.
    ///
    /// For the built-in name `help`, a first positional argument names
    /// the command to describe, anything else asks for the full list.
    /// For any other name, an `-h` or `--help` among the classified
    /// arguments (before any bare `--`) asks for that command's help,
    /// with the name and arguments carried along unchanged; otherwise
    /// there is no help request.
    pub fn from_command(name: &[u8], args: &Args) -> (r: Option<HelpRequest>)
        ensures
            name@ == help_name() ==> ({
                let toks = args.tokens();
                &&& toks.len() == 0 ==> r == Some(HelpRequest::All)
                &&& toks.len() > 0 ==> {
                    let tok = toks[0];
                    let optionish = tok.len() > 1 && tok[0] == 45u8 && (tok[1] == 45u8
                        || valid_first_scalar(tok.skip(1)));
                    &&& optionish ==> r == Some(HelpRequest::All)
                    &&& !optionish ==> (r matches Some(HelpRequest::Command(c))
                        && c.name_spec() == tok && c.args_spec().tokens() == toks.skip(1))
                }
            }),
            name@ != help_name() ==> ({
                &&& has_help_option(args.tokens()) ==> (r matches Some(HelpRequest::Command(c))
                    && c.name_spec() == name@ && c.args_spec().tokens() == args.tokens())
                &&& !has_help_option(args.tokens()) ==> r is None
            }),
    {
        let help_word = "help".as_bytes();
        proof {
            reveal_strlit("help");
            vstd::utf8::is_ascii_chars_encode_utf8("help"@);
            assert(help_word@ =~= help_name());
        }
        if slice_eq(name, help_word) {
            let mut it = args.iter();
            match it.next() {
                Some(Arg::Value(n)) => Some(HelpRequest::Command(RawCommand::new(n, it.into_args()))),
                _ => Some(HelpRequest::All),
            }
        } else {
            // look for -h or --help among the classified arguments
            let ghost toks0 = args.tokens();
            let mut it = args.iter();
            let mut found = false;
            let mut done = false;
            while !done
                invariant
                    it.leftover().len() > 0 ==> !it.values_only(),
                    found ==> has_help_option(toks0),
                    !found && !done ==> has_help_option(toks0) == help_in_rest(
                        it.leftover(),
                        it.rem_tokens(),
                        it.values_only(),
                    ),
                    !found && done ==> !has_help_option(toks0),
                decreases (if done {
                    0int
                } else {
                    1int
                }), it.rem_tokens().len(), it.leftover().len(),
            {
                let ghost lo = it.leftover();
                let ghost toks = it.rem_tokens();
                let ghost vo = it.values_only();
                match it.next() {
                    None => {
                        proof {
                            assert(!short_run_has_h(lo));
                        }
                        done = true;
                    },
                    Some(Arg::LongOption(n)) => {
                        let hw = "help".as_bytes();
                        proof {
                            reveal_strlit("help");
                            vstd::utf8::is_ascii_chars_encode_utf8("help"@);
                            assert(hw@ =~= help_name());
                            assert(!short_run_has_h(lo));
                            assert(toks.len() > 0);
                            assert(has_help_option(toks) == (toks[0].skip(2) == help_name()
                                || has_help_option(toks.skip(1))));
                        }
                        if slice_eq(n.as_slice(), hw) {
                            found = true;
                            done = true;
                        }
                    },
                    Some(Arg::ShortOption(c)) => {
                        proof {
                            vstd::utf8::char_is_scalar(c);
                            vstd::utf8::char_u32_cast('h', 'h' as u32);
                            assert('h' as u32 == 104u32);
                            if lo.len() > 0 && valid_first_scalar(lo) {
                                crate::utf8::lemma_decode_is_scalar(lo);
                                let cp = vstd::utf8::decode_first_scalar(lo);
                                assert(c == cp as char);
                                assert((cp as char) as u32 == cp);
                                assert(c == 'h' <==> cp == 104u32);
                                assert(short_run_has_h(lo) == (cp == 104u32 || short_run_has_h(
                                    lo.skip(vstd::utf8::length_of_first_scalar(lo)),
                                )));
                            } else {
                                assert(!short_run_has_h(lo));
                                assert(toks.len() > 0);
                                let rest = toks[0].skip(1);
                                crate::utf8::lemma_decode_is_scalar(rest);
                                let cp = vstd::utf8::decode_first_scalar(rest);
                                assert(c == cp as char);
                                assert((cp as char) as u32 == cp);
                                assert(c == 'h' <==> cp == 104u32);
                                assert(has_help_option(toks) == (short_run_has_h(rest)
                                    || has_help_option(toks.skip(1))));
                                assert(short_run_has_h(rest) == (cp == 104u32 || short_run_has_h(
                                    rest.skip(vstd::utf8::length_of_first_scalar(rest)),
                                )));
                            }
                        }
                        if c == 'h' {
                            found = true;
                            done = true;
                        }
                    },
                    Some(Arg::DoubleDash) => {
                        proof {
                            assert(!short_run_has_h(lo));
                            assert(toks.len() > 0);
                            assert(!has_help_option(toks));
                        }
                    },
                    Some(Arg::Value(_v)) => {
                        proof {
                            assert(!short_run_has_h(lo));
                            assert(toks.len() > 0);
                            let tok = toks[0];
                            if !vo {
                                if tok.len() > 1 && tok[0] == 45u8 && tok[1] != 45u8 {
                                    assert(!valid_first_scalar(tok.skip(1)));
                                    assert(has_help_option(toks) == (short_run_has_h(tok.skip(1))
                                        || has_help_option(toks.skip(1))));
                                    assert(!short_run_has_h(tok.skip(1)));
                                } else {
                                    assert(has_help_option(toks) == has_help_option(
                                        toks.skip(1),
                                    ));
                                }
                            }
                        }
                    },
                }
            }
            if found {
                Some(
                    HelpRequest::Command(
                        RawCommand::new(vstd::slice::slice_to_vec(name), args.duplicate()),
                    ),
                )
            } else {
                None
            }
        }
    }
}

} // verus!
