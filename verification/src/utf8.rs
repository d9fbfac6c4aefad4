//! Folds a raw byte stream into complete UTF-8 scalar values, one byte at
//! a time.

use vstd::prelude::*;
use vstd::utf8::*;

verus! {

/// Width in bytes of the scalar encoding announced by a leading byte,
/// or 0 for a byte that cannot lead an encoding.
pub open spec fn lead_width(b: u8) -> int {
    if is_leading_byte_width_1(b) {
        1
    } else if is_leading_byte_width_2(b) {
        2
    } else if is_leading_byte_width_3(b) {
        3
    } else if is_leading_byte_width_4(b) {
        4
    } else {
        0
    }
}

/// Accumulates bytes until they form a complete UTF-8 scalar encoding.
pub struct Utf8Accum {
    /// Octets of the encoding under construction, leading byte first.
    pending: Vec<u8>,
    /// How many more continuation octets are expected.
    expected: u8,
}

impl Utf8Accum {
    /// Octets gathered so far for the scalar under construction.
    pub closed spec fn pending_bytes(&self) -> Seq<u8> {
        self.pending@
    }

    /// How many more continuation octets are expected.
    pub closed spec fn expecting(&self) -> int {
        self.expected as int
    }

    pub closed spec fn wf(&self) -> bool {
        &&& self.expected <= 3
        &&& self.expected > 0 ==> {
            &&& 1 <= self.pending@.len()
            &&& self.pending@.len() + self.expected <= 4
            &&& lead_width(self.pending@[0]) == self.pending@.len() + self.expected
            &&& forall|i: int|
                1 <= i < self.pending@.len() ==> is_continuation_byte(#[trigger] self.pending@[i])
        }
    }

    pub fn new() -> (r: Utf8Accum)
        ensures
            r.wf(),
            r.expecting() == 0,
    {
        Utf8Accum { pending: Vec::new(), expected: 0 }
    }

    /// Feeds one byte; returns the bytes of a completed scalar, if this
    /// byte completes one.  Bytes that cannot extend or start a valid
    /// encoding yield nothing.
    pub fn push_byte(&mut self, byte: u8) -> (r: Option<Vec<u8>>)
        requires
            old(self).wf(),
        ensures
            final(self).wf(),
            byte >= 0xF8 ==> r is None && final(self).expecting() == 0,
            0xC0 <= byte < 0xF8 ==> r is None && final(self).pending_bytes() == seq![byte]
                && final(self).expecting() == lead_width(byte) - 1,
            byte < 0x80 ==> r is Some && r->Some_0@ == seq![byte] && final(self).expecting() == 0,
            is_continuation_byte(byte) && old(self).expecting() == 0 ==> r is None && *final(self)
                == *old(self),
            is_continuation_byte(byte) && old(self).expecting() > 1 ==> r is None
                && final(self).pending_bytes() == old(self).pending_bytes().push(byte)
                && final(self).expecting() == old(self).expecting() - 1,
            is_continuation_byte(byte) && old(self).expecting() == 1 ==> {
                let s = old(self).pending_bytes().push(byte);
                &&& final(self).expecting() == 0
                &&& if valid_first_scalar(s) {
                    r is Some && r->Some_0@ == s
                } else {
                    r is None
                }
            },
            r is Some ==> valid_utf8(r->Some_0@) && decode_utf8(r->Some_0@).len() == 1,
    {
        if byte >= 0xF8 {
            // a malformed lead byte is rejected and resets the pending
            // expectation
            self.expected = 0;
            None
        } else if byte >= 0xC0 {
            // leading byte of a 2-, 3- or 4-byte encoding
            let mut pending: Vec<u8> = Vec::new();
            pending.push(byte);
            self.pending = pending;
            self.expected = if byte >= 0xF0 {
                3
            } else if byte >= 0xE0 {
                2
            } else {
                1
            };
            None
        } else if byte >= 0x80 {
            // continuation byte
            if self.expected == 0 {
                None
            } else if self.expected > 1 {
                self.pending.push(byte);
                self.expected = self.expected - 1;
                None
            } else {
                self.pending.push(byte);
                self.expected = 0;
                if check_first_scalar(self.pending.as_slice()) {
                    let out = vstd::slice::slice_to_vec(self.pending.as_slice());
                    proof {
                        lemma_single_scalar_valid(out@);
                    }
                    Some(out)
                } else {
                    None
                }
            }
        } else {
            // plain ASCII byte, complete by itself
            self.expected = 0;
            let mut out: Vec<u8> = Vec::new();
            out.push(byte);
            proof {
                assert(valid_first_scalar(out@));
                assert(length_of_first_scalar(out@) == 1);
                lemma_single_scalar_valid(out@);
            }
            Some(out)
        }
    }
}

/// The accumulator never expects a negative number of octets.
pub proof fn lemma_expecting_nonneg(a: Utf8Accum)
    ensures
        a.expecting() >= 0,
{
}

/// A well-formed first encoding decodes to a Unicode scalar value.
pub proof fn lemma_decode_is_scalar(s: Seq<u8>)
    requires
        valid_first_scalar(s),
    ensures
        is_scalar(decode_first_scalar(s)),
{
    let b0 = s[0];
    if is_leading_byte_width_1(b0) {
        assert(b0 & 0x7F < 0x80) by (bit_vector);
    } else if is_leading_byte_width_2(b0) {
        let b1 = s[1];
        assert(((((b0 & 0x1F) as u32) << 6) | ((b1 & 0x3F) as u32)) <= 0x7FF) by (bit_vector);
    } else if is_leading_byte_width_3(b0) {
        let b1 = s[1];
        let b2 = s[2];
        assert(((((b0 & 0x0F) as u32) << 12) | (((b1 & 0x3F) as u32) << 6) | ((b2
            & 0x3F) as u32)) <= 0xFFFF) by (bit_vector);
    } else {
    }
}

/// A sequence holding exactly one well-formed scalar encoding is valid
/// UTF-8 and decodes to one character.
pub proof fn lemma_single_scalar_valid(s: Seq<u8>)
    requires
        valid_first_scalar(s),
        length_of_first_scalar(s) == s.len(),
    ensures
        valid_utf8(s),
        decode_utf8(s).len() == 1,
{
    reveal_with_fuel(valid_utf8, 3);
    assert(pop_first_scalar(s).len() == 0);
    assert(valid_utf8(pop_first_scalar(s)));
    reveal_with_fuel(decode_utf8, 3);
}

/// Runtime check for `valid_first_scalar` on a slice that holds exactly
/// the announced number of octets of one encoding.
fn check_first_scalar(s: &[u8]) -> (r: bool)
    requires
        1 <= s@.len() <= 4,
        lead_width(s@[0]) == s@.len(),
        forall|i: int| 1 <= i < s@.len() ==> is_continuation_byte(#[trigger] s@[i]),
    ensures
        r == valid_first_scalar(s@),
        r ==> length_of_first_scalar(s@) == s@.len(),
{
    let b0 = s[0];
    if b0 < 0x80 {
        proof {
            assert(valid_leading_and_continuation_bytes_first_codepoint(s@));
            assert(decode_first_codepoint(s@) == (b0 & 0x7F) as u32);
            assert((b0 & 0x7F) < 0x80) by (bit_vector);
        }
        true
    } else if b0 < 0xE0 {
        let b1 = s[1];
        let cp: u32 = (((b0 & 0x1F) as u32) << 6) | ((b1 & 0x3F) as u32);
        proof {
            assert(0xC0 <= b0);
            assert(valid_leading_and_continuation_bytes_first_codepoint(s@));
            assert(decode_first_codepoint(s@) == cp);
            assert(length_of_first_codepoint(s@) == 2);
            assert(((((b0 & 0x1F) as u32) << 6) | ((b1 & 0x3F) as u32)) <= 0x7FF)
                by (bit_vector);
        }
        0x80 <= cp
    } else if b0 < 0xF0 {
        let b1 = s[1];
        let b2 = s[2];
        let cp: u32 = (((b0 & 0x0F) as u32) << 12) | (((b1 & 0x3F) as u32) << 6) | ((b2
            & 0x3F) as u32);
        proof {
            assert(valid_leading_and_continuation_bytes_first_codepoint(s@));
            assert(decode_first_codepoint(s@) == cp);
            assert(length_of_first_codepoint(s@) == 3);
            assert(((((b0 & 0x0F) as u32) << 12) | (((b1 & 0x3F) as u32) << 6) | ((b2
                & 0x3F) as u32)) <= 0xFFFF) by (bit_vector);
        }
        0x800 <= cp && !(0xD800 <= cp && cp <= 0xDFFF)
    } else {
        let b1 = s[1];
        let b2 = s[2];
        let b3 = s[3];
        let cp: u32 = (((b0 & 0x07) as u32) << 18) | (((b1 & 0x3F) as u32) << 12) | (((b2
            & 0x3F) as u32) << 6) | ((b3 & 0x3F) as u32);
        proof {
            assert(b0 <= 0xF7);
            assert(valid_leading_and_continuation_bytes_first_codepoint(s@));
            assert(decode_first_codepoint(s@) == cp);
            assert(length_of_first_codepoint(s@) == 4);
        }
        0x10000 <= cp && cp <= 0x10FFFF
    }
}

} // verus!
