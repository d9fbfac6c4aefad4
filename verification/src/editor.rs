//! A cursor-addressed, fixed-capacity UTF-8 text buffer.
//!
//! The buffer never grows; the bytes up to `valid` always form valid
//! UTF-8, and the cursor is a character index never beyond the number of
//! characters stored.

use vstd::prelude::*;
use vstd::utf8::*;

use crate::autocomplete::Autocompletion;
use crate::autocomplete::Request;
use crate::utils::char_byte_index;
use crate::utils::char_count;
use crate::utils::char_to_byte;
use crate::utils::is_valid_utf8;
use crate::utils::lemma_boundary_concat;
use crate::utils::lemma_char_to_byte;
use crate::utils::lemma_char_to_byte_mono;
use crate::utils::lemma_decode_le_len;
use crate::utils::lemma_step_scalar;
use crate::utils::lemma_trailing_spaces_bounds;
use crate::utils::leading_spaces;
use crate::utils::trailing_space_count;
use crate::utils::trailing_spaces;

verus! {

/// The line editor over a fixed-size byte buffer.
pub struct Editor {
    buffer: Vec<u8>,
    /// How many bytes at the front of the buffer hold text.
    valid: usize,
    /// Character index where the next character will be inserted.
    cursor: usize,
}

impl Editor {
    pub closed spec fn buf(&self) -> Seq<u8> {
        self.buffer@
    }

    pub closed spec fn valid_len(&self) -> int {
        self.valid as int
    }

    pub closed spec fn cursor_spec(&self) -> int {
        self.cursor as int
    }

    /// The stored text bytes.
    pub open spec fn text_spec(&self) -> Seq<u8> {
        self.buf().subrange(0, self.valid_len())
    }

    /// The stored text length in characters.
    pub open spec fn char_len(&self) -> int {
        decode_utf8(self.text_spec()).len() as int
    }

    /// The stored bytes fit the buffer and are valid UTF-8, and the
    /// cursor never passes the end of the text.
    pub open spec fn wf(&self) -> bool {
        &&& 0 <= self.valid_len() <= self.buf().len()
        &&& valid_utf8(self.text_spec())
        &&& 0 <= self.cursor_spec() <= self.char_len()
    }

    /// Number of trailing spaces right of the cursor, provisionally set
    /// aside when building an autocompletion request.
    pub open spec fn removed_spaces_spec(&self) -> int {
        if self.cursor_spec() < self.char_len() {
            trailing_spaces(
                self.text_spec().skip(char_to_byte(self.text_spec(), self.cursor_spec())),
            )
        } else {
            0
        }
    }

    /// Byte length of the text handed to the completion callback.
    pub open spec fn request_len_spec(&self) -> int {
        self.valid_len() - self.removed_spaces_spec()
    }

    /// An empty editor over a fresh buffer of `capacity` bytes.
    pub fn new(capacity: usize) -> (r: Editor)
        ensures
            r.wf(),
            r.buf().len() == capacity,
            r.text_spec() == Seq::<u8>::empty(),
            r.cursor_spec() == 0,
    {
        let buffer: Vec<u8> = vec![0u8; capacity];
        proof {
            assert(buffer@.subrange(0, 0) =~= Seq::<u8>::empty());
        }
        Editor { buffer, valid: 0, cursor: 0 }
    }

    /// Forgets the stored text and resets the cursor.
    pub fn clear(&mut self)
        ensures
            final(self).wf(),
            final(self).buf().len() == old(self).buf().len(),
            final(self).text_spec() == Seq::<u8>::empty(),
            final(self).cursor_spec() == 0,
    {
        self.valid = 0;
        self.cursor = 0;
        proof {
            assert(self.buf().subrange(0, 0) =~= Seq::<u8>::empty());
        }
    }

    /// The cursor as a character index.
    pub fn cursor(&self) -> (r: usize)
        ensures
            r == self.cursor_spec(),
    {
        self.cursor
    }

    /// The stored text length in characters.
    pub fn len(&self) -> (r: usize)
        requires
            self.wf(),
        ensures
            r == self.char_len(),
    {
        char_count(self.text())
    }

    /// The stored text.
    pub fn text(&self) -> (r: &[u8])
        requires
            self.wf(),
        ensures
            r@ == self.text_spec(),
    {
        vstd::slice::slice_subrange(self.buffer.as_slice(), 0, self.valid)
    }

    /// Moves the cursor one character left; reports whether it moved.
    pub fn move_left(&mut self) -> (r: bool)
        requires
            old(self).wf(),
        ensures
            final(self).wf(),
            final(self).text_spec() == old(self).text_spec(),
            final(self).buf() == old(self).buf(),
            r == (old(self).cursor_spec() > 0),
            final(self).cursor_spec() == if old(self).cursor_spec() > 0 {
                old(self).cursor_spec() - 1
            } else {
                0
            },
    {
        if self.cursor > 0 {
            self.cursor = self.cursor - 1;
            true
        } else {
            false
        }
    }

    /// Moves the cursor one character right; reports whether it moved.
    pub fn move_right(&mut self) -> (r: bool)
        requires
            old(self).wf(),
        ensures
            final(self).wf(),
            final(self).text_spec() == old(self).text_spec(),
            final(self).buf() == old(self).buf(),
            r == (old(self).cursor_spec() < old(self).char_len()),
            final(self).cursor_spec() == if old(self).cursor_spec() < old(self).char_len() {
                old(self).cursor_spec() + 1
            } else {
                old(self).cursor_spec()
            },
    {
        if self.cursor < self.len() {
            self.cursor = self.cursor + 1;
            true
        } else {
            false
        }
    }

    /// Inserts `text` at the cursor, advancing the cursor past it;
    /// rejects the whole insertion when the free capacity is smaller
    /// than the inserted byte length.
    pub fn insert(&mut self, text: &[u8]) -> (r: bool)
        requires
            old(self).wf(),
            valid_utf8(text@),
        ensures
            final(self).wf(),
            final(self).buf().len() == old(self).buf().len(),
            old(self).valid_len() + text@.len() > old(self).buf().len() ==> !r && *final(self)
                == *old(self),
            old(self).valid_len() + text@.len() <= old(self).buf().len() ==> r && ({
                let t0 = old(self).text_spec();
                let b = char_to_byte(t0, old(self).cursor_spec());
                &&& final(self).text_spec() == t0.subrange(0, b) + text@ + t0.subrange(
                    b,
                    t0.len() as int,
                )
                &&& final(self).cursor_spec() == old(self).cursor_spec() + decode_utf8(
                    text@,
                ).len()
                &&& final(self).valid_len() == old(self).valid_len() + text@.len()
            }),
    {
        let tlen = text.len();
        let cap = self.buffer.len();
        if cap - self.valid < tlen {
            return false;
        }
        let ghost t0 = self.text_spec();
        let ghost c0 = self.cursor_spec();
        let ghost v0 = self.valid_len();
        let ghost buf0 = self.buffer@;
        proof {
            lemma_char_to_byte(t0, c0);
        }
        let b = match char_byte_index(self.text(), self.cursor) {
            Some(b) => b,
            None => self.valid,
        };
        proof {
            assert(b == char_to_byte(t0, c0));
            assert(0 <= b <= v0);
        }
        let chars = char_count(text);
        let mut k = self.valid;
        while k > b
            invariant
                b <= k <= v0,
                v0 + tlen <= cap,
                cap == buf0.len(),
                tlen == text@.len(),
                self.buffer@.len() == buf0.len(),
                self.valid == v0,
                self.cursor == c0,
                forall|j: int| 0 <= j < k + tlen ==> self.buffer@[j] == buf0[j],
                forall|j: int|
                    k + tlen <= j < v0 + tlen ==> self.buffer@[j] == buf0[j - tlen],
            decreases k - b,
        {
            k -= 1;
            let tmp = self.buffer[k];
            self.buffer[k + tlen] = tmp;
        }
        let mut idx: usize = 0;
        while idx < tlen
            invariant
                0 <= idx <= tlen,
                0 <= b,
                b + tlen <= v0 + tlen <= cap,
                cap == buf0.len(),
                tlen == text@.len(),
                self.buffer@.len() == buf0.len(),
                self.valid == v0,
                self.cursor == c0,
                forall|j: int| 0 <= j < b ==> self.buffer@[j] == buf0[j],
                forall|j: int| b <= j < b + idx ==> self.buffer@[j] == text@[j - b],
                forall|j: int|
                    b + tlen <= j < v0 + tlen ==> self.buffer@[j] == buf0[j - tlen],
            decreases tlen - idx,
        {
            let tb = text[idx];
            self.buffer[b + idx] = tb;
            idx += 1;
        }
        proof {
            lemma_decode_le_len(t0);
            lemma_decode_le_len(text@);
        }
        self.valid = self.valid + tlen;
        self.cursor = self.cursor + chars;
        proof {
            let a = t0.subrange(0, b as int);
            let z = t0.subrange(b as int, t0.len() as int);
            assert(self.text_spec() =~= a + text@ + z);
            valid_utf8_split(t0, b as int);
            lemma_boundary_concat(a, text@);
            lemma_boundary_concat(a + text@, z);
            assert(a + text@ + z =~= (a + text@) + z);
            assert(self.text_spec() == (a + text@) + z);
            assert(decode_utf8((a + text@) + z) == decode_utf8(a + text@) + decode_utf8(z));
            assert(decode_utf8(a).len() == c0);
        }
        true
    }

    /// Removes the character at the cursor, when the cursor is not at
    /// the end of the text.
    pub fn remove(&mut self)
        requires
            old(self).wf(),
        ensures
            final(self).wf(),
            final(self).buf().len() == old(self).buf().len(),
            old(self).cursor_spec() >= old(self).char_len() ==> *final(self) == *old(self),
            old(self).cursor_spec() < old(self).char_len() ==> ({
                let t0 = old(self).text_spec();
                let b = char_to_byte(t0, old(self).cursor_spec());
                let w = length_of_first_scalar(t0.subrange(b, t0.len() as int));
                &&& final(self).text_spec() == t0.subrange(0, b) + t0.subrange(
                    b + w,
                    t0.len() as int,
                )
                &&& final(self).cursor_spec() == old(self).cursor_spec()
                &&& final(self).valid_len() == old(self).valid_len() - w
            }),
    {
        let ghost t0 = self.text_spec();
        let ghost c0 = self.cursor_spec();
        let ghost v0 = self.valid_len();
        let ghost buf0 = self.buffer@;
        proof {
            lemma_char_to_byte(t0, c0);
        }
        let b = match char_byte_index(self.text(), self.cursor) {
            Some(b) => b,
            None => {
                return;
            },
        };
        proof {
            assert(b == char_to_byte(t0, c0));
            lemma_step_scalar(t0, b as int);
        }
        let lead = self.buffer[b];
        proof {
            assert(t0.subrange(b as int, t0.len() as int)[0] == t0[b as int]);
            assert(lead == t0[b as int]);
        }
        let w = crate::utils::decode_scalar_prefix(
            vstd::slice::slice_subrange(self.buffer.as_slice(), b, self.valid),
        ).unwrap().1;
        proof {
            assert(t0.subrange(b as int, t0.len() as int) =~= buf0.subrange(
                b as int,
                v0 as int,
            ));
            assert(w == length_of_first_scalar(t0.subrange(b as int, t0.len() as int)));
            assert(b + w <= v0);
        }
        let v = self.valid;
        let mut j = b + w;
        while j < v
            invariant
                b + w <= j <= v,
                0 <= b,
                1 <= w,
                v == v0 <= buf0.len(),
                self.buffer@.len() == buf0.len(),
                self.valid == v0,
                self.cursor == c0,
                forall|t: int| 0 <= t < b ==> self.buffer@[t] == buf0[t],
                forall|t: int| b <= t < j - w ==> self.buffer@[t] == buf0[t + w],
                forall|t: int| j - w <= t < buf0.len() ==> self.buffer@[t] == buf0[t],
            decreases v - j,
        {
            let tmp = self.buffer[j];
            self.buffer[j - w] = tmp;
            j += 1;
        }
        self.valid = self.valid - w;
        proof {
            let a = t0.subrange(0, b as int);
            let z = t0.subrange(b + w, t0.len() as int);
            assert(self.text_spec() =~= a + z);
            valid_utf8_split(t0, b as int);
            valid_utf8_split(t0, b + w);
            lemma_boundary_concat(a, z);
            assert(decode_utf8(a).len() == c0);
        }
    }

    /// The text between the character indices `start` (inclusive) and
    /// `end` (exclusive), clamped to the stored text.
    pub fn text_range(&self, start: usize, end: usize) -> (r: &[u8])
        requires
            self.wf(),
        ensures
            ({
                let t = self.text_spec();
                let n = self.char_len();
                if end <= start || start >= n {
                    r@ == Seq::<u8>::empty()
                } else {
                    r@ == t.subrange(
                        char_to_byte(t, start as int),
                        char_to_byte(
                            t,
                            if end as int <= n {
                                end as int
                            } else {
                                n
                            },
                        ),
                    )
                }
            }),
    {
        let t = self.text();
        if end <= start {
            let r = vstd::slice::slice_subrange(t, 0, 0);
            proof {
                assert(r@ =~= Seq::<u8>::empty());
            }
            return r;
        }
        match char_byte_index(t, start) {
            None => {
                let r = vstd::slice::slice_subrange(t, 0, 0);
                proof {
                    assert(r@ =~= Seq::<u8>::empty());
                }
                r
            },
            Some(sb) => {
                let eb = match char_byte_index(t, end) {
                    Some(e) => e,
                    None => self.valid,
                };
                proof {
                    let ts = self.text_spec();
                    let n = self.char_len();
                    lemma_char_to_byte(ts, n);
                    if (end as int) < n {
                        assert(eb == char_to_byte(ts, end as int));
                        lemma_char_to_byte_mono(ts, start as int, end as int);
                        lemma_char_to_byte(ts, end as int);
                    } else {
                        assert(eb == char_to_byte(ts, n));
                        lemma_char_to_byte_mono(ts, start as int, n);
                    }
                    lemma_char_to_byte(ts, start as int);
                }
                vstd::slice::slice_subrange(t, sb, eb)
            },
        }
    }

    /// Byte length of the current autocompletion request: the stored
    /// text without the trailing spaces right of the cursor.
    fn request_len(&self) -> (r: usize)
        requires
            self.wf(),
        ensures
            r == self.request_len_spec(),
            0 <= r <= self.valid_len(),
            is_char_boundary(self.text_spec(), r as int),
            valid_utf8(self.text_spec().subrange(0, r as int)),
            forall|i: int| r <= i < self.valid_len() ==> self.text_spec()[i] == 32u8,
    {
        let ghost t = self.text_spec();
        let removed = match char_byte_index(self.text(), self.cursor) {
            Some(pos) => {
                let suffix = vstd::slice::slice_subrange(self.text(), pos, self.valid);
                proof {
                    assert(suffix@ =~= t.skip(char_to_byte(t, self.cursor_spec())));
                    lemma_trailing_spaces_bounds(suffix@);
                }
                trailing_space_count(suffix)
            },
            None => 0,
        };
        let r = self.valid - removed;
        proof {
            if removed > 0 {
                let pos = char_to_byte(t, self.cursor_spec());
                lemma_char_to_byte(t, self.cursor_spec());
                let suffix = t.skip(pos);
                lemma_trailing_spaces_bounds(suffix);
                assert forall|i: int| r <= i < self.valid_len() implies t[i] == 32u8 by {
                    assert(suffix[i - pos] == t[i]);
                }
                assert(t[r as int] == 32u8);
                assert(!is_continuation_byte(t[r as int]));
                is_char_boundary_iff_not_is_continuation_byte(t, r as int);
            } else {
                is_char_boundary_start_end_of_seq(t);
            }
            valid_utf8_split(t, r as int);
        }
        r
    }

    /// Builds the autocompletion request for the current input: the
    /// current word (trailing spaces right of the cursor set aside) and
    /// the free capacity a completion may fill.
    pub fn autocomplete_request(&self) -> (r: Option<(Request, usize)>)
        requires
            self.wf(),
        ensures
            ({
                let base = self.text_spec().subrange(0, self.request_len_spec());
                let req = base.skip(leading_spaces(base));
                &&& req.len() == 0 ==> r is None
                &&& (exists|i: int| 0 <= i < req.len() && req[i] == 32u8) ==> r is None
                &&& (req.len() > 0 && forall|i: int| 0 <= i < req.len() ==> req[i] != 32u8) ==> (
                r matches Some(p) && p.0 matches Request::CommandName(v) && v@ == req && p.1
                    == self.buf().len() - self.request_len_spec())
            }),
    {
        let rl = self.request_len();
        let req_slice = vstd::slice::slice_subrange(self.text(), 0, rl);
        match Request::from_input(req_slice) {
            None => None,
            Some(req) => Some((req, self.buffer.len() - rl)),
        }
    }

    /// Applies a merged autocompletion: splices the merged bytes in
    /// after the current word, appends one space when the completion is
    /// unambiguous and room remains, and moves the cursor to the end.
    /// Without a merged result (or with one that is not valid UTF-8),
    /// the text is left unchanged.
    pub fn apply_autocompletion(&mut self, ac: &Autocompletion)
        requires
            old(self).wf(),
        ensures
            final(self).wf(),
            final(self).buf().len() == old(self).buf().len(),
            ac.result_spec() is None ==> *final(self) == *old(self),
            ac.result_spec() is Some && !valid_utf8(ac.result_spec()->Some_0) ==> *final(self)
                == *old(self),
            ac.result_spec() is Some && valid_utf8(ac.result_spec()->Some_0) && old(
                self,
            ).request_len_spec() + ac.result_spec()->Some_0.len() > old(self).buf().len()
                ==> *final(self) == *old(self),
            ac.result_spec() is Some && valid_utf8(ac.result_spec()->Some_0) && old(
                self,
            ).request_len_spec() + ac.result_spec()->Some_0.len() <= old(self).buf().len() ==> ({
                let v = ac.result_spec()->Some_0;
                let rl = old(self).request_len_spec();
                let base = old(self).text_spec().subrange(0, rl);
                let extra: Seq<u8> = if !ac.partial_spec() && rl + v.len() < old(
                    self,
                ).buf().len() {
                    seq![32u8]
                } else {
                    Seq::empty()
                };
                &&& final(self).text_spec() == base + v + extra
                &&& final(self).valid_len() == rl + v.len() + extra.len()
                &&& final(self).cursor_spec() == final(self).char_len()
            }),
    {
        let res = match ac.autocompleted() {
            Some(res) => res,
            None => {
                return;
            },
        };
        if !is_valid_utf8(res.as_slice()) {
            return;
        }
        let ghost t0 = self.text_spec();
        let ghost buf0 = self.buffer@;
        let cap = self.buffer.len();
        let rl = self.request_len();
        let ghost base = t0.subrange(0, rl as int);
        let vlen = res.len();
        if vlen > cap - rl {
            return;
        }
        let mut idx: usize = 0;
        while idx < vlen
            invariant
                0 <= idx <= vlen,
                vlen == res@.len(),
                rl + vlen <= cap,
                cap == buf0.len(),
                self.buffer@.len() == buf0.len(),
                forall|j: int| 0 <= j < rl ==> self.buffer@[j] == buf0[j],
                forall|j: int| rl <= j < rl + idx ==> self.buffer@[j] == res@[j - rl],
            decreases vlen - idx,
        {
            let tb = res[idx];
            self.buffer[rl + idx] = tb;
            idx += 1;
        }
        self.valid = rl + vlen;
        let ghost mut extra: Seq<u8> = Seq::empty();
        if !ac.is_partial() && self.valid < self.buffer.len() {
            self.buffer[self.valid] = 32u8;
            self.valid = self.valid + 1;
            proof {
                extra = seq![32u8];
            }
        }
        proof {
            assert(self.text_spec() =~= base + res@ + extra);
            lemma_boundary_concat(base, res@);
            if extra.len() > 0 {
                let sp = seq![32u8];
                assert(valid_first_scalar(sp));
                assert(length_of_first_scalar(sp) == 1);
                crate::utf8::lemma_single_scalar_valid(sp);
                lemma_boundary_concat(base + res@, sp);
                assert((base + res@) + sp =~= base + res@ + extra);
            }
            assert(valid_utf8(self.text_spec()));
        }
        let new_text = vstd::slice::slice_subrange(self.buffer.as_slice(), 0, self.valid);
        let c = char_count(new_text);
        self.cursor = c;
    }
}

/// However the editor was driven — any sequence of insertions,
/// removals, cursor moves, completions and clears — the cursor is never
/// beyond the number of stored characters, and the stored text is
/// always valid UTF-8.
pub proof fn lemma_editor_always_consistent(e: &Editor)
    requires
        e.wf(),
    ensures
        0 <= e.cursor_spec() <= e.char_len(),
        valid_utf8(e.text_spec()),
{
}

} // verus!
