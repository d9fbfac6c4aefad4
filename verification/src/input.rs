//! Turns raw received bytes into editing events: control keys, ANSI
//! cursor sequences, and complete UTF-8 characters.

use vstd::prelude::*;
use vstd::utf8::*;

use crate::utf8::Utf8Accum;
use crate::utf8::lead_width;

verus! {

/// A recognized control key.
#[derive(Clone, Copy, Debug, PartialEq, Eq, Structural)]
pub enum ControlInput {
    Backspace,
    Down,
    Enter,
    Back,
    Forward,
    Tab,
    Up,
}

/// One decoded input event: a control key or a complete character,
/// carried as its UTF-8 bytes.
#[derive(Clone, Debug)]
pub enum Input {
    Control(ControlInput),
    Char(Vec<u8>),
}

impl PartialEq for Input {
    fn eq(&self, other: &Input) -> (r: bool) {
        match (self, other) {
            (Input::Control(a), Input::Control(b)) => a == b,
            (Input::Char(a), Input::Char(b)) => {
                let r = a == b;
                proof {
                    if r {
                        assert(a@ =~= b@);
                    }
                    if a@ == b@ {
                        assert(a@.len() == b@.len());
                        assert(forall|i: int| 0 <= i < a@.len() ==> a@[i] == b@[i]);
                    }
                }
                r
            },
            _ => false,
        }
    }
}

impl vstd::std_specs::cmp::PartialEqSpecImpl for Input {
    open spec fn obeys_eq_spec() -> bool {
        true
    }

    open spec fn eq_spec(&self, other: &Input) -> bool {
        match (self, other) {
            (Input::Control(a), Input::Control(b)) => a == b,
            (Input::Char(a), Input::Char(b)) => a@ == b@,
            _ => false,
        }
    }
}

/// Decodes the byte stream one byte at a time.
pub struct InputGenerator {
    csi_started: bool,
    last_byte: u8,
    utf8: Utf8Accum,
}

impl InputGenerator {
    /// Whether an ANSI control sequence is being consumed.
    pub closed spec fn csi(&self) -> bool {
        self.csi_started
    }

    /// The previously received byte.
    pub closed spec fn last(&self) -> u8 {
        self.last_byte
    }

    /// The UTF-8 accumulator state.
    pub closed spec fn accum(&self) -> Utf8Accum {
        self.utf8
    }

    pub closed spec fn wf(&self) -> bool {
        self.utf8.wf()
    }

    pub fn new() -> (r: InputGenerator)
        ensures
            r.wf(),
            !r.csi(),
            r.last() == 0u8,
            r.accum().expecting() == 0,
    {
        InputGenerator { csi_started: false, last_byte: 0, utf8: Utf8Accum::new() }
    }

    /// Decodes one received byte into at most one event.
    ///
    /// Inside a control sequence, parameter bytes are absorbed silently
    /// and the final byte selects among the four arrow keys, every other
    /// final byte being dropped.  Outside one, `ESC [` opens a sequence;
    /// backspace, tab, and line breaks map to control events, with a
    /// CR directly after LF (or LF after CR) collapsing into a single
    /// Enter; bytes of 0x20 and above run through the UTF-8 accumulator.
    pub fn accept(&mut self, byte: u8) -> (r: Option<Input>)
        requires
            old(self).wf(),
        ensures
            final(self).wf(),
            final(self).last() == byte,
            old(self).csi() ==> {
                &&& final(self).accum() == old(self).accum()
                &&& if 0x40 <= byte <= 0x7E {
                    !final(self).csi() && r == (if byte == 65u8 {
                        Some(Input::Control(ControlInput::Up))
                    } else if byte == 66u8 {
                        Some(Input::Control(ControlInput::Down))
                    } else if byte == 67u8 {
                        Some(Input::Control(ControlInput::Forward))
                    } else if byte == 68u8 {
                        Some(Input::Control(ControlInput::Back))
                    } else {
                        None
                    })
                } else {
                    final(self).csi() && r is None
                }
            },
            !old(self).csi() && old(self).last() == 0x1B && byte == 91u8 ==> final(self).csi()
                && r is None && final(self).accum() == old(self).accum(),
            !old(self).csi() && !(old(self).last() == 0x1B && byte == 91u8) ==> {
                &&& !final(self).csi()
                &&& byte == 8u8 ==> r == Some(Input::Control(ControlInput::Backspace))
                &&& byte == 13u8 ==> r == (if old(self).last() == 10u8 {
                    None
                } else {
                    Some(Input::Control(ControlInput::Enter))
                })
                &&& byte == 10u8 ==> r == (if old(self).last() == 13u8 {
                    None
                } else {
                    Some(Input::Control(ControlInput::Enter))
                })
                &&& byte == 9u8 ==> r == Some(Input::Control(ControlInput::Tab))
                &&& (byte < 32u8 && byte != 8u8 && byte != 13u8 && byte != 10u8 && byte != 9u8)
                    ==> r is None && final(self).accum() == old(self).accum()
                &&& 32u8 <= byte < 128u8 ==> (r matches Some(Input::Char(v)) && v@ == seq![byte])
                &&& (0xC0u8 <= byte < 0xF8u8) ==> r is None && final(self).accum().pending_bytes()
                    == seq![byte] && final(self).accum().expecting() == lead_width(byte) - 1
                &&& byte >= 0xF8u8 ==> r is None && final(self).accum().expecting() == 0
                &&& (is_continuation_byte(byte) && old(self).accum().expecting() == 0) ==> r is None
                    && final(self).accum() == old(self).accum()
                &&& (is_continuation_byte(byte) && old(self).accum().expecting() > 1) ==> r is None
                    && final(self).accum().pending_bytes() == old(
                    self,
                ).accum().pending_bytes().push(byte) && final(self).accum().expecting() == old(
                    self,
                ).accum().expecting() - 1
                &&& (is_continuation_byte(byte) && old(self).accum().expecting() == 1) ==> {
                    let s = old(self).accum().pending_bytes().push(byte);
                    &&& final(self).accum().expecting() == 0
                    &&& if valid_first_scalar(s) {
                        (r matches Some(Input::Char(v)) && v@ == s)
                    } else {
                        r is None
                    }
                }
            },
            r matches Some(Input::Char(v)) ==> (valid_utf8(v@) && decode_utf8(v@).len() == 1),
    {
        let last_byte = self.last_byte;
        self.last_byte = byte;
        if self.csi_started {
            // inside a sequence: absorb parameter bytes, act on the final byte
            if 0x40 <= byte && byte <= 0x7E {
                self.csi_started = false;
                match byte {
                    65u8 => Some(Input::Control(ControlInput::Up)),
                    66u8 => Some(Input::Control(ControlInput::Down)),
                    67u8 => Some(Input::Control(ControlInput::Forward)),
                    68u8 => Some(Input::Control(ControlInput::Back)),
                    _ => None,
                }
            } else {
                None
            }
        } else if last_byte == 0x1B && byte == 91u8 {
            self.csi_started = true;
            None
        } else if byte == 8u8 {
            Some(Input::Control(ControlInput::Backspace))
        } else if byte == 13u8 {
            if last_byte == 10u8 {
                None
            } else {
                Some(Input::Control(ControlInput::Enter))
            }
        } else if byte == 10u8 {
            if last_byte == 13u8 {
                None
            } else {
                Some(Input::Control(ControlInput::Enter))
            }
        } else if byte == 9u8 {
            Some(Input::Control(ControlInput::Tab))
        } else if byte >= 32u8 {
            match self.utf8.push_byte(byte) {
                Some(v) => Some(Input::Char(v)),
                None => None,
            }
        } else {
            None
        }
    }
}

} // verus!
