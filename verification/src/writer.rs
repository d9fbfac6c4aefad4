//! The byte sink the session writes to, and a line-break-aware wrapper
//! over it.

use vstd::prelude::*;

verus! {

/// Error of a failed write to the output transport; opaque.
#[derive(Clone, Copy, Debug, PartialEq, Eq, Structural)]
pub struct SinkError;

/// The output transport: a reliable byte sink supplied by the caller.
///
/// Nothing is assumed of an implementation beyond its signatures; the
/// session treats every write as opaque and propagates its errors.
pub trait Sink {
    /// Writes all given bytes.
    fn write_bytes(&mut self, bytes: &[u8]) -> Result<(), SinkError>;

    /// Flushes buffered bytes to the transport.
    fn flush(&mut self) -> Result<(), SinkError>;
}

/// A sink that discards everything and never fails.
#[derive(Debug)]
pub struct EmptyWriter;

impl Sink for EmptyWriter {
    fn write_bytes(&mut self, _bytes: &[u8]) -> Result<(), SinkError> {
        Ok(())
    }

    fn flush(&mut self) -> Result<(), SinkError> {
        Ok(())
    }
}

/// One step of the dirty-line tracker on one written byte: a line feed
/// completes the line, any other byte leaves the output mid-line.
pub open spec fn track_step(st: (u8, u8, bool), b: u8) -> (u8, u8, bool) {
    if b == 10u8 {
        (0u8, 0u8, false)
    } else {
        (st.1, b, true)
    }
}

/// The tracker state after writing `text` from state `st`.
pub open spec fn track_fold(st: (u8, u8, bool), text: Seq<u8>) -> (u8, u8, bool)
    decreases text.len(),
{
    if text.len() == 0 {
        st
    } else {
        track_fold(track_step(st, text[0]), text.skip(1))
    }
}

/// The bytes that writing `text` hands to the sink: each line feed
/// becomes CR LF, every other byte passes through.
pub open spec fn crlf_of(text: Seq<u8>) -> Seq<u8>
    decreases text.len(),
{
    if text.len() == 0 {
        Seq::empty()
    } else {
        (if text[0] == 10u8 {
            seq![13u8, 10u8]
        } else {
            seq![text[0]]
        }) + crlf_of(text.skip(1))
    }
}

/// A run of `n` space bytes.
pub open spec fn spaces(n: int) -> Seq<u8>
    decreases n,
{
    if n <= 0 {
        Seq::empty()
    } else {
        spaces(n - 1).push(32u8)
    }
}

/// Rendering one more byte extends the rendering of the prefix.
pub proof fn lemma_crlf_of_snoc(text: Seq<u8>, i: int)
    requires
        0 <= i < text.len(),
    ensures
        crlf_of(text.take(i + 1)) == crlf_of(text.take(i)) + (if text[i] == 10u8 {
            seq![13u8, 10u8]
        } else {
            seq![text[i]]
        }),
    decreases i,
{
    let piece = if text[i] == 10u8 {
        seq![13u8, 10u8]
    } else {
        seq![text[i]]
    };
    if i == 0 {
        assert(text.take(0) =~= Seq::<u8>::empty());
        assert(text.take(1).len() == 1);
        assert(text.take(1)[0] == text[0]);
        assert(text.take(1).skip(1) =~= Seq::<u8>::empty());
        assert(crlf_of(Seq::<u8>::empty()) == Seq::<u8>::empty());
        assert(crlf_of(text.take(1)) == (if text.take(1)[0] == 10u8 {
            seq![13u8, 10u8]
        } else {
            seq![text.take(1)[0]]
        }) + crlf_of(text.take(1).skip(1)));
        assert(crlf_of(text.take(1)) =~= piece);
        assert(crlf_of(text.take(0)) + piece =~= piece);
    } else {
        lemma_crlf_of_snoc(text.skip(1), i - 1);
        assert(text.take(i + 1)[0] == text[0]);
        assert(text.take(i + 1).skip(1) =~= text.skip(1).take(i));
        assert(text.take(i)[0] == text[0]);
        assert(text.take(i).skip(1) =~= text.skip(1).take(i - 1));
        assert(text.skip(1)[i - 1] == text[i]);
        let head = if text[0] == 10u8 {
            seq![13u8, 10u8]
        } else {
            seq![text[0]]
        };
        assert(crlf_of(text.take(i + 1)) == head + crlf_of(text.skip(1).take(i)));
        assert(crlf_of(text.take(i)) == head + crlf_of(text.skip(1).take(i - 1)));
        assert(head + (crlf_of(text.skip(1).take(i - 1)) + piece) =~= (head + crlf_of(
            text.skip(1).take(i - 1),
        )) + piece);
    }
}

/// Writes text to a sink, turning each line feed into CR LF, and tracks
/// whether the output cursor is mid-line.  A ghost log records every
/// byte handed to the sink by a call that succeeded, so callers can
/// state exactly what was sent.
pub struct Writer<S> {
    sink: S,
    last0: u8,
    last1: u8,
    dirty: bool,
    log: Ghost<Seq<u8>>,
}

impl<S: Sink> Writer<S> {
    /// Every byte handed to the sink by a successful write, in order.
    pub closed spec fn log(&self) -> Seq<u8> {
        self.log@
    }

    /// The two bytes written last, oldest first.
    pub closed spec fn last_pair(&self) -> (u8, u8) {
        (self.last0, self.last1)
    }

    pub closed spec fn dirty_flag(&self) -> bool {
        self.dirty
    }

    /// The tracker state as one tuple.
    pub open spec fn track(&self) -> (u8, u8, bool) {
        (self.last_pair().0, self.last_pair().1, self.dirty_flag())
    }

    /// Whether the output cursor is mid-line: something was written and
    /// the last bytes were not CR LF.
    pub open spec fn is_dirty_spec(&self) -> bool {
        self.dirty_flag() && !(self.last_pair().0 == 13u8 && self.last_pair().1 == 10u8)
    }

    pub fn new(sink: S) -> (r: Writer<S>)
        ensures
            !r.dirty_flag(),
            r.last_pair() == (0u8, 0u8),
            r.log() == Seq::<u8>::empty(),
    {
        Writer { sink, last0: 0, last1: 0, dirty: false, log: Ghost(Seq::empty()) }
    }

    /// Forgets the tracked line state, as for a fresh block of output.
    pub fn reset_tracking(&mut self)
        ensures
            !final(self).dirty_flag(),
            final(self).last_pair() == (0u8, 0u8),
            final(self).log() == old(self).log(),
    {
        self.last0 = 0;
        self.last1 = 0;
        self.dirty = false;
    }

    /// Whether a line break must be emitted before redrawing the prompt.
    pub fn is_dirty(&self) -> (r: bool)
        ensures
            r == self.is_dirty_spec(),
    {
        self.dirty && !(self.last0 == 13u8 && self.last1 == 10u8)
    }

    /// Writes bytes without touching the line tracker (cursor control
    /// codes, prompt redraws).
    pub fn write_raw(&mut self, bytes: &[u8]) -> (r: Result<(), SinkError>)
        ensures
            final(self).track() == old(self).track(),
            r is Ok ==> final(self).log() == old(self).log() + bytes@,
            r is Err ==> final(self).log() == old(self).log(),
    {
        match self.sink.write_bytes(bytes) {
            Ok(()) => {
                self.log = Ghost(self.log@ + bytes@);
                Ok(())
            },
            Err(e) => Err(e),
        }
    }

    /// Flushes the sink; the line tracker is unchanged.
    pub fn flush(&mut self) -> (r: Result<(), SinkError>)
        ensures
            final(self).track() == old(self).track(),
            final(self).log() == old(self).log(),
    {
        self.sink.flush()
    }

    /// Writes text, replacing each line feed with CR LF, and tracks the
    /// line state byte by byte.
    pub fn write_str(&mut self, text: &[u8]) -> (r: Result<(), SinkError>)
        ensures
            r is Ok ==> final(self).track() == track_fold(old(self).track(), text@),
            r is Ok ==> final(self).log() == old(self).log() + crlf_of(text@),
            r is Err ==> exists|i: int|
                0 <= i <= text@.len() && final(self).log() == old(self).log() + crlf_of(
                    text@.take(i),
                ),
    {
        let n = text.len();
        let mut i: usize = 0;
        while i < n
            invariant
                0 <= i <= n,
                n == text@.len(),
                self.track() == track_fold(old(self).track(), text@.take(i as int)),
                self.log() == old(self).log() + crlf_of(text@.take(i as int)),
            decreases n - i,
        {
            let b = text[i];
            proof {
                lemma_crlf_of_snoc(text@, i as int);
            }
            if b == 10u8 {
                let pair = "\r\n".as_bytes();
                proof {
                    reveal_strlit("\r\n");
                    vstd::utf8::is_ascii_chars_encode_utf8("\r\n"@);
                    assert(pair@ =~= seq![13u8, 10u8]);
                }
                match self.sink.write_bytes(pair) {
                    Ok(()) => {},
                    Err(e) => {
                        return Err(e);
                    },
                }
                self.log = Ghost(self.log@ + pair@);
                self.last0 = 0;
                self.last1 = 0;
                self.dirty = false;
            } else {
                let one = vstd::slice::slice_subrange(text, i, i + 1);
                proof {
                    assert(one@ =~= seq![text@[i as int]]);
                }
                match self.sink.write_bytes(one) {
                    Ok(()) => {},
                    Err(e) => {
                        return Err(e);
                    },
                }
                self.log = Ghost(self.log@ + one@);
                self.last0 = self.last1;
                self.last1 = b;
                self.dirty = true;
            }
            proof {
                lemma_track_fold_snoc(old(self).track(), text@, i as int);
                assert(self.log@ =~= old(self).log() + crlf_of(text@.take(i + 1)));
            }
            i += 1;
        }
        proof {
            assert(text@.take(n as int) =~= text@);
        }
        Ok(())
    }

    /// Writes text followed by one line break, leaving a clean line.
    pub fn writeln_str(&mut self, text: &[u8]) -> (r: Result<(), SinkError>)
        ensures
            r is Ok ==> !final(self).dirty_flag(),
            r is Ok ==> final(self).log() == old(self).log() + crlf_of(text@) + seq![13u8, 10u8],
    {
        match self.write_str(text) {
            Ok(()) => {},
            Err(e) => {
                return Err(e);
            },
        }
        let pair = "\r\n".as_bytes();
        proof {
            reveal_strlit("\r\n");
            vstd::utf8::is_ascii_chars_encode_utf8("\r\n"@);
            assert(pair@ =~= seq![13u8, 10u8]);
        }
        match self.sink.write_bytes(pair) {
            Ok(()) => {},
            Err(e) => {
                return Err(e);
            },
        }
        self.log = Ghost(self.log@ + pair@);
        self.dirty = false;
        Ok(())
    }

    /// Writes one aligned name/description line of a listing.
    pub fn write_list_element(&mut self, name: &[u8], description: &[u8], longest_name: usize) -> (r:
        Result<(), SinkError>)
        ensures
            r is Ok ==> !final(self).dirty_flag(),
            r is Ok ==> final(self).log() == old(self).log() + seq![32u8, 32u8] + crlf_of(name@)
                + spaces(if name@.len() < longest_name {
                longest_name - name@.len()
            } else {
                0
            }) + seq![32u8, 32u8] + crlf_of(description@) + seq![13u8, 10u8],
    {
        let two = "  ".as_bytes();
        proof {
            reveal_strlit("  ");
            vstd::utf8::is_ascii_chars_encode_utf8("  "@);
            assert(two@ =~= seq![32u8, 32u8]);
            assert(crlf_of(Seq::<u8>::empty()) == Seq::<u8>::empty());
            assert(two@.skip(1) =~= seq![32u8]);
            assert(two@.skip(1).skip(1) =~= Seq::<u8>::empty());
            assert(crlf_of(two@.skip(1)) == seq![two@.skip(1)[0]] + crlf_of(two@.skip(1).skip(1)));
            assert(crlf_of(two@) == seq![two@[0]] + crlf_of(two@.skip(1)));
            assert(crlf_of(two@) =~= seq![32u8, 32u8]);
        }
        match self.write_str(two) {
            Ok(()) => {},
            Err(e) => {
                return Err(e);
            },
        }
        match self.write_str(name) {
            Ok(()) => {},
            Err(e) => {
                return Err(e);
            },
        }
        let ghost base = self.log();
        let one = " ".as_bytes();
        proof {
            reveal_strlit(" ");
            vstd::utf8::is_ascii_chars_encode_utf8(" "@);
            assert(one@ =~= seq![32u8]);
            assert(crlf_of(Seq::<u8>::empty()) == Seq::<u8>::empty());
            assert(one@.skip(1) =~= Seq::<u8>::empty());
            assert(crlf_of(one@) == seq![one@[0]] + crlf_of(one@.skip(1)));
            assert(crlf_of(one@) =~= seq![32u8]);
        }
        let mut pad = name.len();
        while pad < longest_name
            invariant
                name@.len() <= pad,
                pad <= longest_name || pad == name@.len(),
                one@ == seq![32u8],
                crlf_of(one@) == seq![32u8],
                self.log() == base + spaces(pad - name@.len()),
            decreases longest_name - pad,
        {
            match self.write_str(one) {
                Ok(()) => {},
                Err(e) => {
                    return Err(e);
                },
            }
            pad += 1;
        }
        proof {
            if name@.len() < longest_name {
                assert(self.log() == base + spaces(longest_name - name@.len()));
            } else {
                assert(spaces(0) =~= Seq::<u8>::empty());
                assert(self.log() =~= base + spaces(0));
            }
        }
        match self.write_str(two) {
            Ok(()) => {},
            Err(e) => {
                return Err(e);
            },
        }
        self.writeln_str(description)
    }

    /// Writes a section title.
    pub fn write_title(&mut self, title: &[u8]) -> (r: Result<(), SinkError>)
        ensures
            r is Ok ==> final(self).log() == old(self).log() + crlf_of(title@),
    {
        self.write_str(title)
    }
}

/// Folding one more byte extends the fold over the prefix.
pub proof fn lemma_track_fold_snoc(st: (u8, u8, bool), text: Seq<u8>, i: int)
    requires
        0 <= i < text.len(),
    ensures
        track_fold(st, text.take(i + 1)) == track_step(track_fold(st, text.take(i)), text[i]),
    decreases i,
{
    if i == 0 {
        assert(text.take(0) =~= Seq::<u8>::empty());
        assert(text.take(1).len() == 1);
        assert(text.take(1)[0] == text[0]);
        assert(text.take(1).skip(1) =~= Seq::<u8>::empty());
        assert(track_fold(st, text.take(1)) == track_fold(
            track_step(st, text[0]),
            text.take(1).skip(1),
        ));
        assert(track_fold(track_step(st, text[0]), Seq::<u8>::empty()) == track_step(
            st,
            text[0],
        ));
        assert(track_fold(st, text.take(0)) == st);
    } else {
        lemma_track_fold_snoc(track_step(st, text[0]), text.skip(1), i - 1);
        assert(text.take(i + 1)[0] == text[0]);
        assert(text.take(i + 1).skip(1) =~= text.skip(1).take(i));
        assert(text.take(i)[0] == text[0]);
        assert(text.take(i).skip(1) =~= text.skip(1).take(i - 1));
        assert(text.skip(1)[i - 1] == text[i]);
        assert(track_fold(st, text.take(i + 1)) == track_fold(
            track_step(st, text[0]),
            text.skip(1).take(i),
        ));
        assert(track_fold(st, text.take(i)) == track_fold(
            track_step(st, text[0]),
            text.skip(1).take(i - 1),
        ));
    }
}

} // verus!
