//! The session driver: receives bytes one at a time, keeps the edited
//! line, the history and the prompt redrawn, and on a complete line
//! tokenizes it and dispatches it against a caller-supplied command
//! schema.

use vstd::prelude::*;

use crate::arguments::Args;
use crate::autocomplete::Autocompletion;
use crate::autocomplete::Request;
use crate::command::RawCommand;
use crate::editor::Editor;
use crate::help::HelpRequest;
use crate::history::History;
use crate::input::ControlInput;
use crate::input::Input;
use crate::input::InputGenerator;
use crate::service::Autocomplete;
use crate::service::FromRaw;
use crate::service::Help;
use crate::service::HelpError;
use crate::service::ParseError;
use crate::token::Tokens;
use crate::utils::char_to_byte;
use vstd::utf8::length_of_first_scalar;
use crate::writer::Sink;
use crate::writer::SinkError;
use crate::writer::Writer;
use crate::writer::crlf_of;
use crate::writer::track_fold;
use vstd::string::StringSliceAdditionalSpecFns;
use vstd::utf8::encode_scalar;

verus! {

/// An interactive command-line session over a byte sink.
pub struct Cli<S> {
    writer: Writer<S>,
    editor: Editor,
    history: History,
    input_generator: InputGenerator,
    prompt: Vec<u8>,
}

/// The CR LF line break.
pub open spec fn crlf() -> Seq<u8> {
    seq![13u8, 10u8]
}

/// The control code that blanks the whole line (after a CR).
pub open spec fn code_clear_line() -> Seq<u8> {
    seq![27u8, 91u8, 50u8, 75u8]
}

/// The control code that moves the cursor one column forward.
pub open spec fn code_cursor_forward() -> Seq<u8> {
    seq![27u8, 91u8, 67u8]
}

/// The control code that moves the cursor one column back.
pub open spec fn code_cursor_back() -> Seq<u8> {
    seq![27u8, 91u8, 68u8]
}

/// The control code that shifts the rest of the line right by one.
pub open spec fn code_insert_char() -> Seq<u8> {
    seq![27u8, 91u8, 64u8]
}

/// The control code that deletes the character under the cursor.
pub open spec fn code_delete_char() -> Seq<u8> {
    seq![27u8, 91u8, 80u8]
}

/// The bytes that blanking the current line sends: carriage return,
/// clear-line, and the prompt again unless it too is cleared.
pub open spec fn clear_line_out(prompt: Seq<u8>, clear_prompt: bool) -> Seq<u8> {
    seq![13u8] + code_clear_line() + (if clear_prompt {
        Seq::<u8>::empty()
    } else {
        prompt
    })
}

/// The one diagnostic line printed for a command that did not parse.
pub open spec fn error_line(error: ParseError) -> Seq<u8> {
    ("error: ").spec_bytes() + (match error {
        ParseError::MissingRequiredArgument { name } => ("missing required argument: ").spec_bytes()
            + name@,
        ParseError::ParseValueError { value, expected } => ("failed to parse '").spec_bytes()
            + value@ + ("', expected ").spec_bytes() + expected@,
        ParseError::UnexpectedArgument { value } => ("unexpected argument: ").spec_bytes()
            + value@,
        ParseError::UnexpectedLongOption { name } => ("unexpected option: --").spec_bytes()
            + name@,
        ParseError::UnexpectedShortOption { name } => ("unexpected option: -").spec_bytes()
            + encode_scalar(name as u32),
        ParseError::UnknownCommand => ("unknown command").spec_bytes(),
    }) + crlf()
}

/// The CR LF pair as bytes.
fn crlf_bytes() -> (r: Vec<u8>)
    ensures
        r@ == crlf(),
{
    let mut v: Vec<u8> = Vec::new();
    v.push(13u8);
    v.push(10u8);
    proof {
        assert(v@ =~= crlf());
    }
    v
}

/// A lone carriage return.
fn cr_bytes() -> (r: Vec<u8>)
    ensures
        r@ == seq![13u8],
{
    let mut v: Vec<u8> = Vec::new();
    v.push(13u8);
    proof {
        assert(v@ =~= seq![13u8]);
    }
    v
}

/// The clear-line control code.
fn clear_line_bytes() -> (r: Vec<u8>)
    ensures
        r@ == code_clear_line(),
{
    let mut v: Vec<u8> = Vec::new();
    v.push(27u8);
    v.push(91u8);
    v.push(50u8);
    v.push(75u8);
    proof {
        assert(v@ =~= code_clear_line());
    }
    v
}

/// A one-final-byte control sequence.
fn csi_bytes(fin: u8) -> (r: Vec<u8>)
    ensures
        r@ == seq![27u8, 91u8, fin],
{
    let mut v: Vec<u8> = Vec::new();
    v.push(27u8);
    v.push(91u8);
    v.push(fin);
    proof {
        assert(v@ =~= seq![27u8, 91u8, fin]);
    }
    v
}

/// Whether a byte reaches the session outside any control sequence.
pub open spec fn byte_is_plain(dec: InputGenerator, b: u8) -> bool {
    !dec.csi() && !(dec.last() == 0x1Bu8 && b == 91u8)
}

/// Whether help output of `o`, written on a fresh line, ends mid-line,
/// so that a line break must follow it.
pub open spec fn help_left_dirty(o: Seq<u8>) -> bool {
    let st = track_fold((0u8, 0u8, false), o);
    st.2 && !(st.0 == 13u8 && st.1 == 10u8)
}

impl<S: Sink> Cli<S> {
    pub closed spec fn editor_ref(&self) -> Editor {
        self.editor
    }

    pub closed spec fn history_ref(&self) -> History {
        self.history
    }

    pub closed spec fn decoder_ref(&self) -> InputGenerator {
        self.input_generator
    }

    pub closed spec fn writer_ref(&self) -> Writer<S> {
        self.writer
    }

    /// The prompt written before each line of input.
    pub closed spec fn prompt_spec(&self) -> Seq<u8> {
        self.prompt@
    }

    /// Every byte this session has successfully handed to the sink.
    pub open spec fn sink_log(&self) -> Seq<u8> {
        self.writer_ref().log()
    }

    /// The text of the line being edited.
    pub open spec fn editor_text(&self) -> Seq<u8> {
        self.editor_ref().text_spec()
    }

    pub open spec fn wf(&self) -> bool {
        &&& self.editor_ref().wf()
        &&& self.history_ref().wf()
        &&& self.decoder_ref().wf()
    }

    /// The entry a history step selects: the next older or newer entry,
    /// or the empty present line when stepping newer past the newest.
    /// Nothing when stepping older with nothing older to select.
    pub open spec fn history_step_entry(&self, newer: bool) -> Option<Seq<u8>> {
        let es = self.history_ref().entries();
        if newer {
            match self.history_ref().selected() {
                Some(i) => if i + 1 < es.len() {
                    Some(es[i + 1])
                } else {
                    Some(Seq::empty())
                },
                None => Some(Seq::empty()),
            }
        } else {
            match self.history_ref().selected() {
                Some(i) => if i > 0 {
                    Some(es[i - 1])
                } else {
                    None
                },
                None => if es.len() > 0 {
                    Some(es[es.len() - 1])
                } else {
                    None
                },
            }
        }
    }

    /// What one history step does: with no entry to select, nothing at
    /// all; else the selected entry replaces the edited line wholesale
    /// (or leaves it empty when it cannot fit the line buffer), the
    /// cursor moves to its end, and the line is redrawn under the
    /// prompt.
    pub open spec fn history_step_effect(&self, post: Cli<S>, newer: bool) -> bool {
        match self.history_step_entry(newer) {
            None => post.editor_text() == self.editor_text() && post.sink_log()
                == self.sink_log(),
            Some(e) => {
                &&& post.editor_text() == (if e.len() <= self.editor_ref().buf().len() {
                    e
                } else {
                    Seq::<u8>::empty()
                })
                &&& post.editor_ref().cursor_spec() == post.editor_ref().char_len()
                &&& post.sink_log() == self.sink_log() + clear_line_out(self.prompt_spec(), false)
                    + post.editor_text()
            },
        }
    }

    /// What one cursor step does: the text stays, the cursor moves one
    /// character when it can, and the matching control code is echoed.
    pub open spec fn cursor_step_effect(&self, post: Cli<S>, forward: bool) -> bool {
        &&& post.editor_text() == self.editor_text()
        &&& if forward {
            if self.editor_ref().cursor_spec() < self.editor_ref().char_len() {
                post.editor_ref().cursor_spec() == self.editor_ref().cursor_spec() + 1
                    && post.sink_log() == self.sink_log() + code_cursor_forward()
            } else {
                post.editor_ref().cursor_spec() == self.editor_ref().cursor_spec()
                    && post.sink_log() == self.sink_log()
            }
        } else {
            if self.editor_ref().cursor_spec() > 0 {
                post.editor_ref().cursor_spec() == self.editor_ref().cursor_spec() - 1
                    && post.sink_log() == self.sink_log() + code_cursor_back()
            } else {
                post.editor_ref().cursor_spec() == self.editor_ref().cursor_spec()
                    && post.sink_log() == self.sink_log()
            }
        }
    }

    /// What a backspace does: with the cursor past the start, the
    /// character before it is removed, the cursor moves back, and the
    /// cursor-back and delete-character codes are echoed.
    pub open spec fn backspace_effect(&self, post: Cli<S>) -> bool {
        let t0 = self.editor_text();
        if self.editor_ref().cursor_spec() > 0 {
            let at = char_to_byte(t0, self.editor_ref().cursor_spec() - 1);
            let w = length_of_first_scalar(t0.subrange(at, t0.len() as int));
            &&& post.editor_text() == t0.subrange(0, at) + t0.subrange(at + w, t0.len() as int)
            &&& post.editor_ref().cursor_spec() == self.editor_ref().cursor_spec() - 1
            &&& post.sink_log() == self.sink_log() + code_cursor_back() + code_delete_char()
        } else {
            &&& post.editor_text() == t0
            &&& post.editor_ref().cursor_spec() == 0
            &&& post.sink_log() == self.sink_log()
        }
    }

    /// What a completed line does: the line is pushed to history, the
    /// editor is cleared, and after the CR LF either the parsed command
    /// is handed back with nothing more written, or some response (a
    /// help answer, a diagnostic, or nothing for a blank line) and a
    /// fresh prompt are written.
    pub open spec fn enter_effect(&self, post: Cli<S>, command: bool) -> bool {
        &&& post.editor_text() == Seq::<u8>::empty()
        &&& post.history_ref().entries() == crate::history::push_result(
            self.history_ref().entries(),
            self.editor_text(),
            self.history_ref().buf().len() as int,
        )
        &&& if command {
            post.sink_log() == self.sink_log() + crlf()
        } else {
            exists|response: Seq<u8>|
                post.sink_log() == self.sink_log() + crlf() + response + self.prompt_spec()
        }
    }

    /// What a completion attempt does: whatever the schema offered, the
    /// bytes echoed are exactly what was appended to the line, cursor to
    /// the end; a completion that went nowhere echoes nothing.
    pub open spec fn tab_effect(&self, post: Cli<S>) -> bool {
        if post.editor_ref().cursor_spec() > self.editor_ref().cursor_spec() {
            post.sink_log() == self.sink_log() + post.editor_text().subrange(
                char_to_byte(post.editor_text(), self.editor_ref().cursor_spec()),
                post.editor_text().len() as int,
            )
        } else {
            post.sink_log() == self.sink_log()
        }
    }

    /// A fresh session: empty line, empty history, prompt written once.
    pub fn new(sink: S, command_capacity: usize, history_capacity: usize, prompt: &[u8]) -> (r:
        Result<Cli<S>, SinkError>)
        ensures
            r matches Ok(c) ==> c.wf() && c.editor_text() == Seq::<u8>::empty()
                && c.history_ref().entries() == Seq::<Seq<u8>>::empty() && c.prompt_spec()
                == prompt@ && c.sink_log() == prompt@,
    {
        let mut writer = Writer::new(sink);
        match writer.write_raw(prompt) {
            Ok(()) => {},
            Err(e) => {
                return Err(e);
            },
        }
        match writer.flush() {
            Ok(()) => {},
            Err(e) => {
                return Err(e);
            },
        }
        Ok(
            Cli {
                writer,
                editor: Editor::new(command_capacity),
                history: History::new(history_capacity),
                input_generator: InputGenerator::new(),
                prompt: vstd::slice::slice_to_vec(prompt),
            },
        )
    }

    /// Sets a new prompt and redraws the current line under it.
    pub fn set_prompt(&mut self, prompt: &[u8]) -> (r: Result<(), SinkError>)
        requires
            old(self).wf(),
        ensures
            final(self).wf(),
            final(self).editor_ref() == old(self).editor_ref(),
            final(self).prompt_spec() == prompt@,
            r is Ok ==> final(self).sink_log() == old(self).sink_log() + clear_line_out(
                prompt@,
                false,
            ) + old(self).editor_text(),
    {
        self.prompt = vstd::slice::slice_to_vec(prompt);
        match self.clear_line(false) {
            Ok(()) => {},
            Err(e) => {
                return Err(e);
            },
        }
        match self.writer.write_raw(self.editor.text()) {
            Ok(()) => {},
            Err(e) => {
                return Err(e);
            },
        }
        self.writer.flush()
    }

    /// Blanks the current terminal line, optionally rewriting the
    /// prompt.
    fn clear_line(&mut self, clear_prompt: bool) -> (r: Result<(), SinkError>)
        requires
            old(self).wf(),
        ensures
            final(self).wf(),
            *final(self) == (Cli { writer: final(self).writer, ..*old(self) }),
            final(self).writer_ref().track() == old(self).writer_ref().track(),
            r is Ok ==> final(self).sink_log() == old(self).sink_log() + clear_line_out(
                old(self).prompt_spec(),
                clear_prompt,
            ),
    {
        let cr = cr_bytes();
        match self.writer.write_raw(cr.as_slice()) {
            Ok(()) => {},
            Err(e) => {
                return Err(e);
            },
        }
        let clear = clear_line_bytes();
        match self.writer.write_raw(clear.as_slice()) {
            Ok(()) => {},
            Err(e) => {
                return Err(e);
            },
        }
        if !clear_prompt {
            match self.writer.write_raw(self.prompt.as_slice()) {
                Ok(()) => {},
                Err(e) => {
                    return Err(e);
                },
            }
        }
        match self.writer.flush() {
            Ok(()) => {},
            Err(e) => {
                return Err(e);
            },
        }
        proof {
            assert(self.sink_log() =~= old(self).sink_log() + clear_line_out(
                old(self).prompt_spec(),
                clear_prompt,
            ));
        }
        Ok(())
    }

    /// Starts a block of out-of-band output: blanks the line so the
    /// block starts at the left margin.
    pub fn write_begin(&mut self) -> (r: Result<(), SinkError>)
        requires
            old(self).wf(),
        ensures
            final(self).wf(),
            final(self).editor_ref() == old(self).editor_ref(),
            final(self).prompt_spec() == old(self).prompt_spec(),
            r is Ok ==> final(self).sink_log() == old(self).sink_log() + clear_line_out(
                old(self).prompt_spec(),
                true,
            ),
            r is Ok ==> !final(self).writer_ref().dirty_flag(),
    {
        match self.clear_line(true) {
            Ok(()) => {},
            Err(e) => {
                return Err(e);
            },
        }
        self.writer.reset_tracking();
        Ok(())
    }

    /// Writes text for the command handler or an out-of-band block,
    /// translating line feeds to CR LF.
    pub fn write_str(&mut self, text: &[u8]) -> (r: Result<(), SinkError>)
        requires
            old(self).wf(),
        ensures
            final(self).wf(),
            final(self).editor_ref() == old(self).editor_ref(),
            final(self).prompt_spec() == old(self).prompt_spec(),
            r is Ok ==> final(self).sink_log() == old(self).sink_log() + crlf_of(text@),
    {
        self.writer.write_str(text)
    }

    /// Writes one full line for the command handler or an out-of-band
    /// block.
    pub fn writeln_str(&mut self, text: &[u8]) -> (r: Result<(), SinkError>)
        requires
            old(self).wf(),
        ensures
            final(self).wf(),
            final(self).editor_ref() == old(self).editor_ref(),
            final(self).prompt_spec() == old(self).prompt_spec(),
            r is Ok ==> final(self).sink_log() == old(self).sink_log() + crlf_of(text@) + crlf(),
    {
        self.writer.writeln_str(text)
    }

    /// Ends a block of out-of-band output: restores the prompt and the
    /// pending input.
    pub fn write_end(&mut self) -> (r: Result<(), SinkError>)
        requires
            old(self).wf(),
        ensures
            final(self).wf(),
            final(self).editor_ref() == old(self).editor_ref(),
            final(self).prompt_spec() == old(self).prompt_spec(),
            r is Ok ==> final(self).sink_log() == old(self).sink_log() + (
            if old(self).writer_ref().is_dirty_spec() {
                crlf()
            } else {
                Seq::<u8>::empty()
            }) + old(self).prompt_spec() + old(self).editor_text(),
    {
        if self.writer.is_dirty() {
            let pair = crlf_bytes();
            match self.writer.write_raw(pair.as_slice()) {
                Ok(()) => {},
                Err(e) => {
                    return Err(e);
                },
            }
        }
        match self.writer.write_raw(self.prompt.as_slice()) {
            Ok(()) => {},
            Err(e) => {
                return Err(e);
            },
        }
        match self.writer.write_raw(self.editor.text()) {
            Ok(()) => {},
            Err(e) => {
                return Err(e);
            },
        }
        match self.writer.flush() {
            Ok(()) => {},
            Err(e) => {
                return Err(e);
            },
        }
        proof {
            assert(self.sink_log() =~= old(self).sink_log() + (
            if old(self).writer_ref().is_dirty_spec() {
                crlf()
            } else {
                Seq::<u8>::empty()
            }) + old(self).prompt_spec() + old(self).editor_text());
        }
        Ok(())
    }

    /// Prints the diagnostic line for a parse error that a command
    /// handler rejected a dispatched command with: the same line the
    /// session prints when the schema itself rejects a line.
    pub fn report_error(&mut self, error: ParseError) -> (r: Result<(), SinkError>)
        requires
            old(self).wf(),
        ensures
            final(self).wf(),
            final(self).editor_ref() == old(self).editor_ref(),
            final(self).history_ref() == old(self).history_ref(),
            final(self).prompt_spec() == old(self).prompt_spec(),
            r is Ok ==> final(self).sink_log() == old(self).sink_log() + error_line(error),
    {
        self.process_error(error)
    }

    /// Ends the handling of a dispatched command: finishes the
    /// handler's output line, rewrites the prompt and flushes.
    pub fn end_command(&mut self) -> (r: Result<(), SinkError>)
        requires
            old(self).wf(),
        ensures
            final(self).wf(),
            final(self).editor_ref() == old(self).editor_ref(),
            final(self).prompt_spec() == old(self).prompt_spec(),
            r is Ok ==> final(self).sink_log() == old(self).sink_log() + (
            if old(self).writer_ref().is_dirty_spec() {
                crlf()
            } else {
                Seq::<u8>::empty()
            }) + old(self).prompt_spec(),
    {
        if self.writer.is_dirty() {
            let pair = crlf_bytes();
            match self.writer.write_raw(pair.as_slice()) {
                Ok(()) => {},
                Err(e) => {
                    return Err(e);
                },
            }
        }
        match self.writer.write_raw(self.prompt.as_slice()) {
            Ok(()) => {},
            Err(e) => {
                return Err(e);
            },
        }
        match self.writer.flush() {
            Ok(()) => {},
            Err(e) => {
                return Err(e);
            },
        }
        proof {
            assert(self.sink_log() =~= old(self).sink_log() + (
            if old(self).writer_ref().is_dirty_spec() {
                crlf()
            } else {
                Seq::<u8>::empty()
            }) + old(self).prompt_spec());
        }
        Ok(())
    }

    /// Feeds one received byte to the session.
    ///
    /// A character is inserted at the cursor and echoed; arrow keys move
    /// the cursor or replace the line from history; tab asks the schema
    /// for a completion; enter pushes the line to history, tokenizes it,
    /// answers a help request itself, and otherwise hands the parsed
    /// command back to the caller, who writes any output through a
    /// [`CliHandle`] (or [`Cli::write_str`]) and finishes with
    /// [`Cli::end_command`].
    ///
    /// An error means no further progress is possible on the transport:
    /// either a sink write or flush failed, or the schema's help
    /// printing reported its own write failure, which is treated the
    /// same way.
    #[verifier::rlimit(50)]
    pub fn process_byte<C: Autocomplete + Help + FromRaw>(&mut self, b: u8) -> (r: Result<
        Option<C>,
        SinkError,
    >)
        requires
            old(self).wf(),
        ensures
            final(self).wf(),
            final(self).prompt_spec() == old(self).prompt_spec(),
            r matches Ok(o) && o is Some ==> final(self).editor_text() == Seq::<u8>::empty(),
            old(self).decoder_ref().csi() && !(65u8 <= b && b <= 68u8) ==> r is Ok && final(self).sink_log() == old(self).sink_log() && final(self).editor_ref() == old(self).editor_ref() && final(self).history_ref() == old(self).history_ref(),
            !old(self).decoder_ref().csi() && old(self).decoder_ref().last() == 0x1Bu8 && b == 91u8
                ==> r is Ok && final(self).sink_log() == old(self).sink_log() && final(self).editor_ref() == old(self).editor_ref() && final(self).history_ref() == old(self).history_ref(),
            byte_is_plain(old(self).decoder_ref(), b) && b < 32u8 && b != 8u8 && b != 9u8 && b
                != 13u8 && b != 10u8 ==> r is Ok && final(self).sink_log() == old(self).sink_log()
                && final(self).editor_ref() == old(self).editor_ref() && final(self).history_ref()
                == old(self).history_ref(),
            byte_is_plain(old(self).decoder_ref(), b) && 0xC0u8 <= b ==> r is Ok && final(self).sink_log() == old(self).sink_log() && final(self).editor_ref() == old(self).editor_ref() && final(self).history_ref() == old(self).history_ref(),
            byte_is_plain(old(self).decoder_ref(), b) && vstd::utf8::is_continuation_byte(b) && old(self).decoder_ref().accum().expecting() != 1 ==> r is Ok && final(self).sink_log() == old(self).sink_log() && final(self).editor_ref() == old(self).editor_ref() && final(self).history_ref() == old(self).history_ref(),
            byte_is_plain(old(self).decoder_ref(), b) && 32u8 <= b < 128u8 && old(self).editor_text().len() + 1 > old(self).editor_ref().buf().len() ==> r is Ok && final(self).sink_log() == old(self).sink_log() && final(self).editor_text() == old(self).editor_text(),
            byte_is_plain(old(self).decoder_ref(), b) && b == 8u8 && old(self).editor_ref().cursor_spec() == 0 ==> r is Ok && final(self).sink_log() == old(self).sink_log(),
            old(self).decoder_ref().csi() && b == 67u8 && old(self).editor_ref().cursor_spec()
                >= old(self).editor_ref().char_len() ==> r is Ok && final(self).sink_log() == old(self).sink_log(),
            old(self).decoder_ref().csi() && b == 68u8 && old(self).editor_ref().cursor_spec()
                == 0 ==> r is Ok && final(self).sink_log() == old(self).sink_log(),
            old(self).decoder_ref().csi() && b == 65u8 && old(self).history_step_entry(
                false,
            ) is None ==> r is Ok && final(self).sink_log() == old(self).sink_log(),
            r matches Ok(o) ==> ({
                let dec = old(self).decoder_ref();
                let ed0 = old(self).editor_ref();
                let t0 = ed0.text_spec();
                let plain = byte_is_plain(dec, b);
                let entered = plain && ((b == 13u8 && dec.last() != 10u8) || (b == 10u8
                    && dec.last() != 13u8));
                &&& entered ==> old(self).enter_effect(*final(self), o is Some)
                &&& (plain && b == 8u8) ==> old(self).backspace_effect(*final(self))
                &&& (plain && b == 9u8) ==> old(self).tab_effect(*final(self))
                &&& (dec.csi() && b == 65u8) ==> old(self).history_step_effect(*final(self), false)
                &&& (dec.csi() && b == 66u8) ==> old(self).history_step_effect(*final(self), true)
                &&& (dec.csi() && b == 67u8) ==> old(self).cursor_step_effect(*final(self), true)
                &&& (dec.csi() && b == 68u8) ==> old(self).cursor_step_effect(*final(self), false)
                &&& (plain && 32u8 <= b < 128u8 && t0.len() + 1 <= ed0.buf().len()) ==> ({
                    let at = char_to_byte(t0, ed0.cursor_spec());
                    &&& final(self).editor_text() == t0.subrange(0, at) + seq![b] + t0.subrange(
                        at,
                        t0.len() as int,
                    )
                    &&& final(self).editor_ref().cursor_spec() == ed0.cursor_spec() + 1
                    &&& final(self).sink_log() == old(self).sink_log() + (
                    if ed0.cursor_spec() < ed0.char_len() {
                        code_insert_char()
                    } else {
                        Seq::<u8>::empty()
                    }) + seq![b]
                })
                &&& (plain && vstd::utf8::is_continuation_byte(b)
                    && dec.accum().expecting() == 1) ==> ({
                    let s = dec.accum().pending_bytes().push(b);
                    if vstd::utf8::valid_first_scalar(s) && t0.len() + s.len() <= ed0.buf().len() {
                        let at = char_to_byte(t0, ed0.cursor_spec());
                        &&& final(self).editor_text() == t0.subrange(0, at) + s + t0.subrange(
                            at,
                            t0.len() as int,
                        )
                        &&& final(self).editor_ref().cursor_spec() == ed0.cursor_spec() + 1
                        &&& final(self).sink_log() == old(self).sink_log() + (
                        if ed0.cursor_spec() < ed0.char_len() {
                            code_insert_char()
                        } else {
                            Seq::<u8>::empty()
                        }) + s
                    } else {
                        final(self).editor_text() == t0 && final(self).sink_log() == old(self).sink_log()
                    }
                })
                &&& !entered ==> final(self).history_ref().entries() == old(self).history_ref().entries()
            }),
    {
        proof {
            crate::utf8::lemma_expecting_nonneg(old(self).decoder_ref().accum());
        }
        match self.input_generator.accept(b) {
            None => Ok(None),
            Some(Input::Char(v)) => {
                let is_inside = self.editor.cursor() < self.editor.len();
                if self.editor.insert(v.as_slice()) {
                    if is_inside {
                        let ins = csi_bytes(64);
                        match self.writer.write_raw(ins.as_slice()) {
                            Ok(()) => {},
                            Err(e) => {
                                return Err(e);
                            },
                        }
                    }
                    match self.writer.write_raw(v.as_slice()) {
                        Ok(()) => {},
                        Err(e) => {
                            return Err(e);
                        },
                    }
                    match self.writer.flush() {
                        Ok(()) => {},
                        Err(e) => {
                            return Err(e);
                        },
                    }
                    proof {
                        if is_inside {
                            assert(self.sink_log() =~= old(self).sink_log() + code_insert_char()
                                + v@);
                        } else {
                            assert(self.sink_log() =~= old(self).sink_log()
                                + Seq::<u8>::empty() + v@);
                        }
                    }
                }
                Ok(None)
            },
            Some(Input::Control(control)) => {
                let ghost mid = *self;
                let res = self.on_control_input::<C>(control);
                proof {
                    if res is Ok && control == ControlInput::Enter && !(res->Ok_0 is Some) {
                        let response = choose|response: Seq<u8>|
                            self.sink_log() == mid.sink_log() + crlf() + response
                                + mid.prompt_spec();
                        assert(self.sink_log() == old(self).sink_log() + crlf() + response + old(self).prompt_spec());
                    }
                }
                res
            },
        }
    }

    fn on_control_input<C: Autocomplete + Help + FromRaw>(&mut self, control: ControlInput) -> (r:
        Result<Option<C>, SinkError>)
        requires
            old(self).wf(),
        ensures
            final(self).wf(),
            r matches Ok(o) && o is Some ==> final(self).editor_text() == Seq::<u8>::empty(),
            final(self).prompt_spec() == old(self).prompt_spec(),
            control == ControlInput::Backspace && old(self).editor_ref().cursor_spec() == 0
                ==> r is Ok && final(self).sink_log() == old(self).sink_log(),
            control == ControlInput::Forward && old(self).editor_ref().cursor_spec() >= old(self).editor_ref().char_len() ==> r is Ok && final(self).sink_log() == old(self).sink_log(),
            control == ControlInput::Back && old(self).editor_ref().cursor_spec() == 0 ==> r is Ok
                && final(self).sink_log() == old(self).sink_log(),
            control == ControlInput::Up && old(self).history_step_entry(false) is None ==> r is Ok
                && final(self).sink_log() == old(self).sink_log(),
            r matches Ok(o) ==> ({
                &&& control == ControlInput::Enter ==> old(self).enter_effect(
                    *final(self),
                    o is Some,
                )
                &&& control == ControlInput::Backspace ==> old(self).backspace_effect(
                    *final(self),
                )
                &&& control == ControlInput::Tab ==> old(self).tab_effect(*final(self))
                &&& control == ControlInput::Forward ==> old(self).cursor_step_effect(
                    *final(self),
                    true,
                )
                &&& control == ControlInput::Back ==> old(self).cursor_step_effect(
                    *final(self),
                    false,
                )
                &&& control == ControlInput::Up ==> old(self).history_step_effect(
                    *final(self),
                    false,
                )
                &&& control == ControlInput::Down ==> old(self).history_step_effect(
                    *final(self),
                    true,
                )
                &&& control != ControlInput::Enter ==> final(self).history_ref().entries()
                    == old(self).history_ref().entries()
            }),
    {
        match control {
            ControlInput::Enter => {
                let pair = crlf_bytes();
                match self.writer.write_raw(pair.as_slice()) {
                    Ok(()) => {},
                    Err(e) => {
                        return Err(e);
                    },
                }
                self.history.push(self.editor.text());
                let r = self.process_input::<C>();
                proof {
                    if r is Ok {
                        if r->Ok_0 is Some {
                            assert(self.sink_log() =~= old(self).sink_log() + crlf());
                        } else {
                            let response = choose|response: Seq<u8>|
                                self.sink_log() == (old(self).sink_log() + crlf()) + response
                                    + old(self).prompt_spec();
                            assert(self.sink_log() =~= old(self).sink_log() + crlf() + response
                                + old(self).prompt_spec());
                        }
                    }
                }
                r
            },
            ControlInput::Tab => {
                match self.process_autocomplete::<C>() {
                    Ok(()) => Ok(None),
                    Err(e) => Err(e),
                }
            },
            ControlInput::Backspace => {
                if self.editor.move_left() {
                    self.editor.remove();
                    let back = csi_bytes(68);
                    match self.writer.write_raw(back.as_slice()) {
                        Ok(()) => {},
                        Err(e) => {
                            return Err(e);
                        },
                    }
                    let del = csi_bytes(80);
                    match self.writer.write_raw(del.as_slice()) {
                        Ok(()) => {},
                        Err(e) => {
                            return Err(e);
                        },
                    }
                    match self.writer.flush() {
                        Ok(()) => {},
                        Err(e) => {
                            return Err(e);
                        },
                    }
                    proof {
                        assert(self.sink_log() =~= old(self).sink_log() + code_cursor_back()
                            + code_delete_char());
                    }
                }
                Ok(None)
            },
            ControlInput::Down => {
                match self.navigate_history(true) {
                    Ok(()) => Ok(None),
                    Err(e) => Err(e),
                }
            },
            ControlInput::Up => {
                match self.navigate_history(false) {
                    Ok(()) => Ok(None),
                    Err(e) => Err(e),
                }
            },
            ControlInput::Forward => {
                match self.navigate_input(true) {
                    Ok(()) => Ok(None),
                    Err(e) => Err(e),
                }
            },
            ControlInput::Back => {
                match self.navigate_input(false) {
                    Ok(()) => Ok(None),
                    Err(e) => Err(e),
                }
            },
        }
    }

    /// Moves the cursor one character, echoing the matching control
    /// code when it moved.
    fn navigate_input(&mut self, forward: bool) -> (r: Result<(), SinkError>)
        requires
            old(self).wf(),
        ensures
            final(self).wf(),
            final(self).editor_text() == old(self).editor_text(),
            final(self).history_ref() == old(self).history_ref(),
            final(self).prompt_spec() == old(self).prompt_spec(),
            final(self).editor_ref().cursor_spec() == (if forward {
                if old(self).editor_ref().cursor_spec() < old(self).editor_ref().char_len() {
                    old(self).editor_ref().cursor_spec() + 1
                } else {
                    old(self).editor_ref().cursor_spec()
                }
            } else {
                if old(self).editor_ref().cursor_spec() > 0 {
                    old(self).editor_ref().cursor_spec() - 1
                } else {
                    0
                }
            }),
            r is Ok ==> old(self).cursor_step_effect(*final(self), forward),
            forward && old(self).editor_ref().cursor_spec() >= old(self).editor_ref().char_len()
                ==> r is Ok && final(self).sink_log() == old(self).sink_log(),
            !forward && old(self).editor_ref().cursor_spec() == 0 ==> r is Ok
                && final(self).sink_log() == old(self).sink_log(),
    {
        if forward {
            if self.editor.move_right() {
                let code = csi_bytes(67);
                match self.writer.write_raw(code.as_slice()) {
                    Ok(()) => {},
                    Err(e) => {
                        return Err(e);
                    },
                }
                return self.writer.flush();
            }
        } else {
            if self.editor.move_left() {
                let code = csi_bytes(68);
                match self.writer.write_raw(code.as_slice()) {
                    Ok(()) => {},
                    Err(e) => {
                        return Err(e);
                    },
                }
                return self.writer.flush();
            }
        }
        Ok(())
    }

    /// Replaces the edited line with the next history entry in the
    /// given direction and redraws it; stepping newer than the newest
    /// entry restores an empty present line.
    fn navigate_history(&mut self, newer: bool) -> (r: Result<(), SinkError>)
        requires
            old(self).wf(),
        ensures
            final(self).wf(),
            final(self).history_ref().entries() == old(self).history_ref().entries(),
            final(self).prompt_spec() == old(self).prompt_spec(),
            r is Ok ==> old(self).history_step_effect(*final(self), newer),
            old(self).history_step_entry(newer) is None ==> r is Ok && final(self).sink_log()
                == old(self).sink_log(),
    {
        let element: Option<Vec<u8>> = if newer {
            match self.history.next_newer() {
                Some(e) => Some(e),
                None => Some(Vec::new()),
            }
        } else {
            self.history.next_older()
        };
        match element {
            Some(element) => {
                proof {
                    assert(vstd::utf8::valid_utf8(element@));
                    assert(old(self).history_step_entry(newer) == Some(element@));
                }
                self.editor.clear();
                self.editor.insert(element.as_slice());
                proof {
                    if element@.len() <= old(self).editor_ref().buf().len() {
                        assert(self.editor_text() =~= element@);
                    }
                }
                match self.clear_line(false) {
                    Ok(()) => {},
                    Err(e) => {
                        return Err(e);
                    },
                }
                match self.writer.write_raw(self.editor.text()) {
                    Ok(()) => {},
                    Err(e) => {
                        return Err(e);
                    },
                }
                match self.writer.flush() {
                    Ok(()) => {},
                    Err(e) => {
                        return Err(e);
                    },
                }
                proof {
                    assert(self.sink_log() =~= old(self).sink_log() + clear_line_out(
                        old(self).prompt_spec(),
                        false,
                    ) + self.editor_text());
                }
                Ok(())
            },
            None => Ok(()),
        }
    }

    /// Asks the schema (and the built-in `help` name) for a completion
    /// of the current word and echoes what was appended.
    fn process_autocomplete<C: Autocomplete>(&mut self) -> (r: Result<(), SinkError>)
        requires
            old(self).wf(),
        ensures
            final(self).wf(),
            final(self).history_ref() == old(self).history_ref(),
            final(self).prompt_spec() == old(self).prompt_spec(),
            r is Ok ==> old(self).tab_effect(*final(self)),
            r is Err ==> final(self).editor_ref().cursor_spec() > old(self).editor_ref().cursor_spec(),
    {
        let initial_cursor = self.editor.cursor();
        match self.editor.autocomplete_request() {
            Some((request, capacity)) => {
                let mut completion = Autocompletion::new(capacity);
                C::autocomplete(&request, &mut completion);
                match &request {
                    Request::CommandName(name) => {
                        let help_word = "help".as_bytes();
                        if name.len() <= help_word.len() {
                            let head = vstd::slice::slice_subrange(help_word, 0, name.len());
                            if crate::utils::slice_eq(name.as_slice(), head) {
                                let tail = vstd::slice::slice_subrange(
                                    help_word,
                                    name.len(),
                                    help_word.len(),
                                );
                                completion.merge_autocompletion(tail);
                            }
                        }
                    },
                }
                self.editor.apply_autocompletion(&completion);
            },
            None => {},
        }
        if self.editor.cursor() > initial_cursor {
            let end = self.editor.len();
            let appended = self.editor.text_range(initial_cursor, end);
            proof {
                crate::utils::lemma_char_to_byte(self.editor_text(), self.editor_ref().char_len());
            }
            match self.writer.write_raw(appended) {
                Ok(()) => {},
                Err(e) => {
                    return Err(e);
                },
            }
            return self.writer.flush();
        }
        Ok(())
    }

    /// Tokenizes the submitted line, answers a help request, parses the
    /// command through the schema, and on success hands it back.
    fn process_input<C: Help + FromRaw>(&mut self) -> (r: Result<Option<C>, SinkError>)
        requires
            old(self).wf(),
        ensures
            final(self).wf(),
            final(self).editor_text() == Seq::<u8>::empty(),
            final(self).history_ref() == old(self).history_ref(),
            final(self).prompt_spec() == old(self).prompt_spec(),
            r matches Ok(o) && o is Some ==> final(self).sink_log() == old(self).sink_log(),
            r matches Ok(o) && o is None ==> exists|response: Seq<u8>|
                final(self).sink_log() == old(self).sink_log() + response + old(self).prompt_spec(),
    {
        let line = vstd::slice::slice_to_vec(self.editor.text());
        self.editor.clear();
        let tokens = Tokens::new(line);
        let mut it = tokens.iter();
        match it.next() {
            None => {
                match self.writer.write_raw(self.prompt.as_slice()) {
                    Ok(()) => {},
                    Err(e) => {
                        return Err(e);
                    },
                }
                match self.writer.flush() {
                    Ok(()) => {},
                    Err(e) => {
                        return Err(e);
                    },
                }
                proof {
                    assert(self.sink_log() =~= old(self).sink_log() + Seq::<u8>::empty() + old(self).prompt_spec());
                }
                Ok(None)
            },
            Some(name) => {
                let args = Args::new(it.into_tokens());
                match HelpRequest::from_command(name.as_slice(), &args) {
                    Some(request) => {
                        match self.process_help::<C>(request) {
                            Ok(()) => {},
                            Err(e) => {
                                return Err(e);
                            },
                        }
                        match self.writer.write_raw(self.prompt.as_slice()) {
                            Ok(()) => {},
                            Err(e) => {
                                return Err(e);
                            },
                        }
                        match self.writer.flush() {
                            Ok(()) => {},
                            Err(e) => {
                                return Err(e);
                            },
                        }
                        proof {
                            let ghost mid = self.sink_log().subrange(
                                old(self).sink_log().len() as int,
                                self.sink_log().len() - old(self).prompt_spec().len(),
                            );
                            assert(self.sink_log() =~= old(self).sink_log() + mid + old(self).prompt_spec());
                        }
                        Ok(None)
                    },
                    None => {
                        match C::parse(RawCommand::new(name, args)) {
                            Err(err) => {
                                match self.process_error(err) {
                                    Ok(()) => {},
                                    Err(e) => {
                                        return Err(e);
                                    },
                                }
                                match self.writer.write_raw(self.prompt.as_slice()) {
                                    Ok(()) => {},
                                    Err(e) => {
                                        return Err(e);
                                    },
                                }
                                match self.writer.flush() {
                                    Ok(()) => {},
                                    Err(e) => {
                                        return Err(e);
                                    },
                                }
                                proof {
                                    assert(self.sink_log() =~= old(self).sink_log() + error_line(
                                        err,
                                    ) + old(self).prompt_spec());
                                }
                                Ok(None)
                            },
                            Ok(cmd) => {
                                self.writer.reset_tracking();
                                Ok(Some(cmd))
                            },
                        }
                    },
                }
            },
        }
    }

    /// Prints one diagnostic line for a command that did not parse.
    fn process_error(&mut self, error: ParseError) -> (r: Result<(), SinkError>)
        requires
            old(self).wf(),
        ensures
            final(self).wf(),
            final(self).editor_ref() == old(self).editor_ref(),
            final(self).history_ref() == old(self).history_ref(),
            final(self).prompt_spec() == old(self).prompt_spec(),
            r is Ok ==> final(self).sink_log() == old(self).sink_log() + error_line(error),
    {
        let ghost error0 = error;
        match self.writer.write_raw("error: ".as_bytes()) {
            Ok(()) => {},
            Err(e) => {
                return Err(e);
            },
        }
        let outcome: Result<(), SinkError> = match error {
            ParseError::MissingRequiredArgument { name } => {
                match self.writer.write_raw("missing required argument: ".as_bytes()) {
                    Ok(()) => self.writer.write_raw(name.as_slice()),
                    Err(e) => Err(e),
                }
            },
            ParseError::ParseValueError { value, expected } => {
                match self.writer.write_raw("failed to parse '".as_bytes()) {
                    Ok(()) => {
                        match self.writer.write_raw(value.as_slice()) {
                            Ok(()) => {
                                match self.writer.write_raw("', expected ".as_bytes()) {
                                    Ok(()) => self.writer.write_raw(expected.as_slice()),
                                    Err(e) => Err(e),
                                }
                            },
                            Err(e) => Err(e),
                        }
                    },
                    Err(e) => Err(e),
                }
            },
            ParseError::UnexpectedArgument { value } => {
                match self.writer.write_raw("unexpected argument: ".as_bytes()) {
                    Ok(()) => self.writer.write_raw(value.as_slice()),
                    Err(e) => Err(e),
                }
            },
            ParseError::UnexpectedLongOption { name } => {
                match self.writer.write_raw("unexpected option: --".as_bytes()) {
                    Ok(()) => self.writer.write_raw(name.as_slice()),
                    Err(e) => Err(e),
                }
            },
            ParseError::UnexpectedShortOption { name } => {
                let encoded = crate::utils::encode_utf8(name);
                match self.writer.write_raw("unexpected option: -".as_bytes()) {
                    Ok(()) => self.writer.write_raw(encoded.as_slice()),
                    Err(e) => Err(e),
                }
            },
            ParseError::UnknownCommand => self.writer.write_raw("unknown command".as_bytes()),
        };
        match outcome {
            Ok(()) => {},
            Err(e) => {
                return Err(e);
            },
        }
        let pair = crlf_bytes();
        match self.writer.write_raw(pair.as_slice()) {
            Ok(()) => {},
            Err(e) => {
                return Err(e);
            },
        }
        proof {
            assert(self.sink_log() =~= old(self).sink_log() + error_line(error0));
        }
        Ok(())
    }

    /// Prints the answer to a help request: the command list, one
    /// command's help, or a diagnostic for an unknown command.  A
    /// schema that reports [`HelpError::WriteError`] is treated as a
    /// failed sink.
    fn process_help<C: Help>(&mut self, request: HelpRequest) -> (r: Result<(), SinkError>)
        requires
            old(self).wf(),
        ensures
            final(self).wf(),
            final(self).editor_ref() == old(self).editor_ref(),
            final(self).history_ref() == old(self).history_ref(),
            final(self).prompt_spec() == old(self).prompt_spec(),
            r is Ok ==> exists|o: Seq<u8>|
                final(self).sink_log() == old(self).sink_log() + crlf_of(o) + (
                if help_left_dirty(o) {
                    crlf()
                } else {
                    Seq::<u8>::empty()
                }),
    {
        let mut out: Vec<u8> = Vec::new();
        match request {
            HelpRequest::All => {
                C::list_commands(&mut out);
            },
            HelpRequest::Command(command) => {
                match C::command_help(&command, &mut out) {
                    Ok(()) => {},
                    Err(HelpError::UnknownCommand) => {
                        out.extend_from_slice("error: unknown command".as_bytes());
                    },
                    Err(HelpError::WriteError) => {
                        return Err(SinkError);
                    },
                }
            },
        }
        self.writer.reset_tracking();
        match self.writer.write_str(out.as_slice()) {
            Ok(()) => {},
            Err(e) => {
                return Err(e);
            },
        }
        if self.writer.is_dirty() {
            let pair = crlf_bytes();
            match self.writer.write_raw(pair.as_slice()) {
                Ok(()) => {},
                Err(e) => {
                    return Err(e);
                },
            }
            proof {
                assert(self.sink_log() == old(self).sink_log() + crlf_of(out@) + crlf());
                assert(help_left_dirty(out@));
            }
        } else {
            proof {
                assert(self.sink_log() =~= old(self).sink_log() + crlf_of(out@));
                assert(!help_left_dirty(out@));
            }
        }
        Ok(())
    }
}

/// The narrow capability a command handler receives while a dispatched
/// command is being handled: it can write output and change the prompt,
/// and nothing else — the line editor and the history are out of its
/// reach.
pub struct CliHandle<'a, S> {
    cli: &'a mut Cli<S>,
}

impl<'a, S: Sink> CliHandle<'a, S> {
    /// The session as the handle currently sees it.
    pub closed spec fn session(&self) -> Cli<S> {
        *self.cli
    }

    /// Wraps a session for a command handler.
    pub fn wrap(cli: &'a mut Cli<S>) -> (r: CliHandle<'a, S>)
        requires
            old(cli).wf(),
        ensures
            r.session() == *old(cli),
    {
        CliHandle { cli }
    }

    /// Writes text for the command being handled.
    pub fn write_str(&mut self, text: &[u8]) -> (r: Result<(), SinkError>)
        requires
            old(self).session().wf(),
        ensures
            final(self).session().wf(),
            final(self).session().editor_ref() == old(self).session().editor_ref(),
            r is Ok ==> final(self).session().sink_log() == old(self).session().sink_log()
                + crlf_of(text@),
    {
        self.cli.write_str(text)
    }

    /// Writes one full line for the command being handled.
    pub fn writeln_str(&mut self, text: &[u8]) -> (r: Result<(), SinkError>)
        requires
            old(self).session().wf(),
        ensures
            final(self).session().wf(),
            final(self).session().editor_ref() == old(self).session().editor_ref(),
            r is Ok ==> final(self).session().sink_log() == old(self).session().sink_log()
                + crlf_of(text@) + crlf(),
    {
        self.cli.writeln_str(text)
    }

    /// Prints the diagnostic line for a parse error the handler rejects
    /// the command with.
    pub fn report_error(&mut self, error: ParseError) -> (r: Result<(), SinkError>)
        requires
            old(self).session().wf(),
        ensures
            final(self).session().wf(),
            final(self).session().editor_ref() == old(self).session().editor_ref(),
            r is Ok ==> final(self).session().sink_log() == old(self).session().sink_log()
                + error_line(error),
    {
        self.cli.process_error(error)
    }

    /// Sets the prompt the session writes from now on.
    pub fn set_prompt(&mut self, prompt: &[u8])
        requires
            old(self).session().wf(),
        ensures
            final(self).session().wf(),
            final(self).session().editor_ref() == old(self).session().editor_ref(),
            final(self).session().prompt_spec() == prompt@,
            final(self).session().sink_log() == old(self).session().sink_log(),
    {
        self.cli.prompt = vstd::slice::slice_to_vec(prompt);
    }
}

} // verus!
