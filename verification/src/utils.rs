//! Byte-level text helpers shared by the editor, tokenizer and classifier.

use vstd::prelude::*;
use vstd::utf8::*;

verus! {

/// Byte offset of the character with index `ci` in the UTF-8 bytes `s`
/// (the total byte length when `ci` is the character count).
pub open spec fn char_to_byte(s: Seq<u8>, ci: int) -> int
    decreases ci,
{
    if ci <= 0 {
        0
    } else {
        length_of_first_scalar(s) + char_to_byte(pop_first_scalar(s), ci - 1)
    }
}

/// A valid, non-empty byte sequence decodes to at least one character,
/// and an empty one to none.
pub proof fn lemma_decode_len_zero(s: Seq<u8>)
    requires
        valid_utf8(s),
    ensures
        decode_utf8(s).len() == 0 <==> s.len() == 0,
{
    reveal_with_fuel(decode_utf8, 2);
}

/// Stepping over the scalar that starts at character boundary `i`:
/// its length, the boundary after it, and the character counts around it.
pub proof fn lemma_step_scalar(s: Seq<u8>, i: int)
    requires
        valid_utf8(s),
        is_char_boundary(s, i),
        0 <= i < s.len(),
    ensures
        valid_first_scalar(s.subrange(i, s.len() as int)),
        1 <= length_of_first_scalar(s.subrange(i, s.len() as int)),
        i + length_of_first_scalar(s.subrange(i, s.len() as int)) <= s.len(),
        is_char_boundary(s, i + length_of_first_scalar(s.subrange(i, s.len() as int))),
        decode_utf8(s.subrange(0, i + length_of_first_scalar(s.subrange(i, s.len() as int)))).len()
            == decode_utf8(s.subrange(0, i)).len() + 1,
        decode_utf8(s.subrange(0, i)).len() < decode_utf8(s).len(),
{
    valid_utf8_split(s, i);
    let suffix = s.subrange(i, s.len() as int);
    assert(suffix.len() > 0);
    assert(valid_first_scalar(suffix));
    let k = length_of_first_scalar(suffix);
    assert(1 <= k && k <= suffix.len());
    let pop = pop_first_scalar(suffix);
    assert(valid_utf8(pop));
    assert(s.subrange(i + k, s.len() as int) =~= pop);
    if i + k < s.len() {
        assert(pop.len() > 0);
        assert(valid_first_scalar(pop));
        assert(!is_continuation_byte(pop[0]));
        assert(s[i + k] == pop[0]);
        is_char_boundary_iff_not_is_continuation_byte(s, i + k);
    } else {
        is_char_boundary_start_end_of_seq(s);
    }
    decode_utf8_split(s, i);
    decode_utf8_split(s, i + k);
    assert(decode_utf8(suffix) == seq![decode_first_scalar(suffix) as char] + decode_utf8(pop));
    assert(decode_utf8(suffix).len() == 1 + decode_utf8(pop).len());
}

/// Properties of `char_to_byte` for every character index up to the
/// character count.
pub proof fn lemma_char_to_byte(s: Seq<u8>, ci: int)
    requires
        valid_utf8(s),
        0 <= ci <= decode_utf8(s).len(),
    ensures
        0 <= char_to_byte(s, ci) <= s.len(),
        is_char_boundary(s, char_to_byte(s, ci)),
        decode_utf8(s.subrange(0, char_to_byte(s, ci))).len() == ci,
        ci < decode_utf8(s).len() ==> char_to_byte(s, ci) < s.len(),
        ci == decode_utf8(s).len() ==> char_to_byte(s, ci) == s.len(),
    decreases ci,
{
    lemma_decode_len_zero(s);
    if ci <= 0 {
        assert(char_to_byte(s, ci) == 0);
        assert(s.subrange(0, 0) =~= Seq::<u8>::empty());
        assert(decode_utf8(s.subrange(0, 0)).len() == 0);
        is_char_boundary_start_end_of_seq(s);
    } else {
        assert(decode_utf8(s).len() >= 1);
        assert(s.len() > 0);
        assert(valid_first_scalar(s));
        let k = length_of_first_scalar(s);
        let pop = pop_first_scalar(s);
        assert(valid_utf8(pop));
        assert(decode_utf8(s) == seq![decode_first_scalar(s) as char] + decode_utf8(pop));
        assert(decode_utf8(pop).len() == decode_utf8(s).len() - 1);
        lemma_char_to_byte(pop, ci - 1);
        let r = char_to_byte(pop, ci - 1);
        assert(char_to_byte(s, ci) == k + r);
        assert(pop.len() == s.len() - k);
        // boundary at k + r follows from the boundary at r in the tail
        assert(is_char_boundary(s, k + r));
        // character count of the prefix of length k + r
        decode_utf8_split(s, k + r);
        decode_utf8_split(pop, r);
        assert(s.subrange(k + r, s.len() as int) =~= pop.subrange(r, pop.len() as int));
        assert(decode_utf8(pop.subrange(0, r)).len() == ci - 1);
        assert(decode_utf8(s.subrange(0, k + r)).len() == decode_utf8(s).len() - decode_utf8(
            pop.subrange(r, pop.len() as int),
        ).len());
        assert(decode_utf8(s.subrange(0, k + r)).len() == ci);
    }
}

/// The byte offset of character `ci + 1` is the offset of character `ci`
/// plus the width of the scalar that starts there.
pub proof fn lemma_char_to_byte_step(s: Seq<u8>, ci: int)
    requires
        valid_utf8(s),
        0 <= ci < decode_utf8(s).len(),
    ensures
        char_to_byte(s, ci + 1) == char_to_byte(s, ci) + length_of_first_scalar(
            s.subrange(char_to_byte(s, ci), s.len() as int),
        ),
    decreases ci,
{
    lemma_decode_len_zero(s);
    assert(s.len() > 0);
    assert(valid_first_scalar(s));
    let k = length_of_first_scalar(s);
    let pop = pop_first_scalar(s);
    assert(valid_utf8(pop));
    assert(decode_utf8(s) == seq![decode_first_scalar(s) as char] + decode_utf8(pop));
    if ci == 0 {
        assert(char_to_byte(s, 1) == k + char_to_byte(pop, 0));
        assert(char_to_byte(pop, 0) == 0);
        assert(char_to_byte(s, 0) == 0);
        assert(s.subrange(0, s.len() as int) =~= s);
    } else {
        lemma_char_to_byte_step(pop, ci - 1);
        let b = char_to_byte(pop, ci - 1);
        assert(char_to_byte(s, ci) == k + b);
        assert(char_to_byte(s, ci + 1) == k + char_to_byte(pop, ci));
        lemma_char_to_byte(pop, ci - 1);
        assert(s.subrange(k + b, s.len() as int) =~= pop.subrange(b, pop.len() as int));
    }
}

/// Character byte offsets grow with the character index.
pub proof fn lemma_char_to_byte_mono(s: Seq<u8>, i: int, j: int)
    requires
        valid_utf8(s),
        0 <= i <= j <= decode_utf8(s).len(),
    ensures
        char_to_byte(s, i) <= char_to_byte(s, j),
    decreases i,
{
    if i <= 0 {
        lemma_char_to_byte(s, j);
    } else {
        lemma_decode_len_zero(s);
        assert(s.len() > 0);
        let pop = pop_first_scalar(s);
        assert(decode_utf8(s) == seq![decode_first_scalar(s) as char] + decode_utf8(pop));
        lemma_char_to_byte_mono(pop, i - 1, j - 1);
    }
}

/// Concatenating two valid UTF-8 sequences is valid, splits at the seam,
/// and decodes to the two decodings in order.
pub proof fn lemma_boundary_concat(a: Seq<u8>, b: Seq<u8>)
    requires
        valid_utf8(a),
        valid_utf8(b),
    ensures
        valid_utf8(a + b),
        is_char_boundary(a + b, a.len() as int),
        decode_utf8(a + b) == decode_utf8(a) + decode_utf8(b),
    decreases a.len(),
{
    valid_utf8_concat(a, b);
    if a.len() == 0 {
        assert(a + b =~= b);
        assert(decode_utf8(a) =~= Seq::<char>::empty());
        assert(decode_utf8(a) + decode_utf8(b) =~= decode_utf8(b));
    } else {
        assert(valid_first_scalar(a));
        let k = length_of_first_scalar(a);
        assert((a + b)[0] == a[0]);
        assert(k <= a.len());
        assert forall|j: int| 0 <= j < k implies (a + b)[j] == a[j] by {}
        assert(valid_first_scalar(a + b));
        assert(length_of_first_scalar(a + b) == k);
        assert(decode_first_scalar(a + b) == decode_first_scalar(a));
        assert(pop_first_scalar(a + b) =~= pop_first_scalar(a) + b);
        lemma_boundary_concat(pop_first_scalar(a), b);
        assert(pop_first_scalar(a).len() == a.len() - k);
        assert(is_char_boundary(a + b, a.len() as int));
        assert(decode_utf8(a + b) == seq![decode_first_scalar(a + b) as char] + decode_utf8(
            pop_first_scalar(a + b),
        ));
        assert(decode_utf8(a + b) =~= decode_utf8(a) + decode_utf8(b));
    }
}

/// Width in bytes of the scalar encoding that starts with lead byte `b`.
fn scalar_width_of_lead(b: u8) -> (r: usize)
    requires
        is_leading_byte_width_1(b) || is_leading_byte_width_2(b) || is_leading_byte_width_3(b)
            || is_leading_byte_width_4(b),
    ensures
        1 <= r <= 4,
        r == (if is_leading_byte_width_1(b) {
            1int
        } else if is_leading_byte_width_2(b) {
            2int
        } else if is_leading_byte_width_3(b) {
            3int
        } else {
            4int
        }),
{
    if b < 0x80 {
        1
    } else if b < 0xE0 {
        2
    } else if b < 0xF0 {
        3
    } else {
        4
    }
}

/// Number of characters encoded in the valid UTF-8 bytes `text`.
pub fn char_count(text: &[u8]) -> (r: usize)
    requires
        valid_utf8(text@),
    ensures
        r == decode_utf8(text@).len(),
{
    let ghost s = text@;
    let mut i: usize = 0;
    let mut count: usize = 0;
    while i < text.len()
        invariant
            valid_utf8(s),
            s == text@,
            0 <= i <= s.len(),
            is_char_boundary(s, i as int),
            count == decode_utf8(s.subrange(0, i as int)).len(),
            count <= i,
        decreases s.len() - i,
    {
        proof {
            lemma_step_scalar(s, i as int);
        }
        let w = scalar_width_of_lead(text[i]);
        proof {
            let suffix = s.subrange(i as int, s.len() as int);
            assert(suffix[0] == s[i as int]);
            assert(w == length_of_first_scalar(suffix));
        }
        i += w;
        count += 1;
    }
    proof {
        assert(s.subrange(0, s.len() as int) =~= s);
    }
    count
}

/// Byte offset of the character with index `char_index`, or nothing when
/// `text` has no more than `char_index` characters.
pub fn char_byte_index(text: &[u8], char_index: usize) -> (r: Option<usize>)
    requires
        valid_utf8(text@),
    ensures
        r is Some <==> char_index < decode_utf8(text@).len(),
        r is Some ==> r->Some_0 == char_to_byte(text@, char_index as int) && r->Some_0
            < text@.len(),
{
    let ghost s = text@;
    let mut i: usize = 0;
    let mut count: usize = 0;
    while i < text.len()
        invariant
            valid_utf8(s),
            s == text@,
            0 <= i <= s.len(),
            is_char_boundary(s, i as int),
            count == decode_utf8(s.subrange(0, i as int)).len(),
            count <= i,
            count <= char_index,
            i == char_to_byte(s, count as int),
        decreases s.len() - i,
    {
        proof {
            lemma_step_scalar(s, i as int);
        }
        if count == char_index {
            return Some(i);
        }
        let w = scalar_width_of_lead(text[i]);
        proof {
            let suffix = s.subrange(i as int, s.len() as int);
            assert(suffix[0] == s[i as int]);
            assert(w == length_of_first_scalar(suffix));
            lemma_char_to_byte_step(s, count as int);
        }
        i += w;
        count += 1;
    }
    proof {
        assert(s.subrange(0, s.len() as int) =~= s);
    }
    None
}

/// Reads the scalar encoded at the front of `s`: its value and its width
/// in bytes; nothing when `s` does not start with a well-formed encoding.
pub fn decode_scalar_prefix(s: &[u8]) -> (r: Option<(u32, usize)>)
    ensures
        r is Some <==> valid_first_scalar(s@),
        r is Some ==> r->Some_0.0 == decode_first_scalar(s@) && r->Some_0.1
            == length_of_first_scalar(s@) && 1 <= r->Some_0.1 <= s@.len() && is_scalar(
            r->Some_0.0,
        ),
{
    if s.len() == 0 {
        return None;
    }
    let b0 = s[0];
    if b0 < 0x80 {
        proof {
            assert(b0 & 0x7F == b0) by (bit_vector)
                requires
                    b0 < 0x80,
            ;
        }
        Some(((b0 as u32), 1))
    } else if b0 < 0xC0 {
        None
    } else if b0 < 0xE0 {
        if s.len() < 2 || !(0x80 <= s[1] && s[1] < 0xC0) {
            return None;
        }
        let b1 = s[1];
        let cp: u32 = (((b0 & 0x1F) as u32) << 6) | ((b1 & 0x3F) as u32);
        proof {
            assert(cp == codepoint_width_2(b0, b1));
            assert(((((b0 & 0x1F) as u32) << 6) | ((b1 & 0x3F) as u32)) <= 0x7FF) by (bit_vector);
        }
        if cp < 0x80 {
            return None;
        }
        Some((cp, 2))
    } else if b0 < 0xF0 {
        if s.len() < 3 || !(0x80 <= s[1] && s[1] < 0xC0) || !(0x80 <= s[2] && s[2] < 0xC0) {
            return None;
        }
        let b1 = s[1];
        let b2 = s[2];
        let cp: u32 = (((b0 & 0x0F) as u32) << 12) | (((b1 & 0x3F) as u32) << 6) | ((b2
            & 0x3F) as u32);
        proof {
            assert(cp == codepoint_width_3(b0, b1, b2));
            assert(((((b0 & 0x0F) as u32) << 12) | (((b1 & 0x3F) as u32) << 6) | ((b2
                & 0x3F) as u32)) <= 0xFFFF) by (bit_vector);
        }
        if cp < 0x800 || (0xD800 <= cp && cp <= 0xDFFF) {
            return None;
        }
        Some((cp, 3))
    } else if b0 < 0xF8 {
        if s.len() < 4 || !(0x80 <= s[1] && s[1] < 0xC0) || !(0x80 <= s[2] && s[2] < 0xC0) || !(
        0x80 <= s[3] && s[3] < 0xC0) {
            return None;
        }
        let b1 = s[1];
        let b2 = s[2];
        let b3 = s[3];
        let cp: u32 = (((b0 & 0x07) as u32) << 18) | (((b1 & 0x3F) as u32) << 12) | (((b2
            & 0x3F) as u32) << 6) | ((b3 & 0x3F) as u32);
        proof {
            assert(cp == codepoint_width_4(b0, b1, b2, b3));
        }
        if cp < 0x10000 || cp > 0x10FFFF {
            return None;
        }
        Some((cp, 4))
    } else {
        None
    }
}

/// Relies on `core::char::from_u32`: every Unicode scalar value is the
/// `u32` form of exactly one `char`, and `from_u32` returns it.
#[verifier::external_body]
fn char_from_u32(c: u32) -> (r: char)
    requires
        is_scalar(c),
    ensures
        r == c as char,
{
    match char::from_u32(c) {
        Some(ch) => ch,
        None => ' ',
    }
}

/// Reads the character encoded at the front of `text` and its width in
/// bytes; nothing when `text` does not start with a well-formed encoding.
pub fn char_pop_front(text: &[u8]) -> (r: Option<(char, usize)>)
    ensures
        r is Some <==> valid_first_scalar(text@),
        r is Some ==> r->Some_0.0 == decode_first_scalar(text@) as char && r->Some_0.1
            == length_of_first_scalar(text@) && 1 <= r->Some_0.1 <= text@.len(),
{
    match decode_scalar_prefix(text) {
        None => None,
        Some((cp, k)) => Some((char_from_u32(cp), k)),
    }
}

/// UTF-8 encoding of one character.
pub fn encode_utf8(ch: char) -> (r: Vec<u8>)
    ensures
        r@ == encode_scalar(ch as u32),
        1 <= r@.len() <= 4,
{
    proof {
        char_is_scalar(ch);
    }
    let code = ch as u32;
    let mut r: Vec<u8> = Vec::new();
    if code < 0x80 {
        r.push((code & 0x7F) as u8);
        proof {
            assert(r@ =~= encode_scalar(ch as u32));
        }
    } else if code < 0x800 {
        r.push(0xC0 | (((code >> 6) & 0x1F) as u8));
        r.push(0x80 | ((code & 0x3F) as u8));
        proof {
            assert(r@ =~= encode_scalar(ch as u32));
        }
    } else if code < 0x10000 {
        r.push(0xE0 | (((code >> 12) & 0x0F) as u8));
        r.push(0x80 | (((code >> 6) & 0x3F) as u8));
        r.push(0x80 | ((code & 0x3F) as u8));
        proof {
            assert(r@ =~= encode_scalar(ch as u32));
        }
    } else {
        r.push(0xF0 | (((code >> 18) & 0x7) as u8));
        r.push(0x80 | (((code >> 12) & 0x3F) as u8));
        r.push(0x80 | (((code >> 6) & 0x3F) as u8));
        r.push(0x80 | ((code & 0x3F) as u8));
        proof {
            assert(r@ =~= encode_scalar(ch as u32));
        }
    }
    r
}

/// Length of the longest equal byte prefix of `l` and `r`.
pub open spec fn common_eq_len(l: Seq<u8>, r: Seq<u8>) -> int
    decreases l.len(),
{
    if l.len() == 0 || r.len() == 0 || l[0] != r[0] {
        0
    } else {
        1 + common_eq_len(l.skip(1), r.skip(1))
    }
}

pub proof fn lemma_common_eq_len(l: Seq<u8>, r: Seq<u8>)
    ensures
        0 <= common_eq_len(l, r) <= l.len(),
        common_eq_len(l, r) <= r.len(),
        forall|i: int| 0 <= i < common_eq_len(l, r) ==> l[i] == r[i],
        common_eq_len(l, r) < l.len() && common_eq_len(l, r) < r.len() ==> l[common_eq_len(l, r)]
            != r[common_eq_len(l, r)],
    decreases l.len(),
{
    if l.len() == 0 || r.len() == 0 || l[0] != r[0] {
    } else {
        lemma_common_eq_len(l.skip(1), r.skip(1));
        let n = common_eq_len(l, r);
        assert forall|i: int| 0 <= i < n implies l[i] == r[i] by {
            if i > 0 {
                assert(l.skip(1)[i - 1] == l[i]);
                assert(r.skip(1)[i - 1] == r[i]);
            }
        }
        if n < l.len() && n < r.len() {
            assert(l.skip(1)[n - 1] == l[n]);
            assert(r.skip(1)[n - 1] == r[n]);
        }
    }
}

/// Largest position not beyond `n` at which the byte prefix of `l` ends
/// between characters: at the end of `l` or before a non-continuation byte.
pub open spec fn prefix_fit(l: Seq<u8>, n: int) -> int
    decreases n,
{
    if n <= 0 {
        0
    } else if n == l.len() || !is_continuation_byte(l[n]) {
        n
    } else {
        prefix_fit(l, n - 1)
    }
}

/// Length in bytes of the longest common prefix of `l` and `r` that does
/// not end inside a multi-byte character of `l`.
pub open spec fn common_prefix(l: Seq<u8>, r: Seq<u8>) -> int {
    prefix_fit(l, common_eq_len(l, r))
}

/// Length in bytes of the longest common prefix of `left` and `right`
/// that ends on a whole character.
pub fn common_prefix_len(left: &[u8], right: &[u8]) -> (r: usize)
    ensures
        r == common_prefix(left@, right@),
        r <= left@.len(),
        r <= right@.len(),
        left@.subrange(0, r as int) == right@.subrange(0, r as int),
{
    proof {
        lemma_common_eq_len(left@, right@);
    }
    let min = if left.len() < right.len() {
        left.len()
    } else {
        right.len()
    };
    let mut i: usize = 0;
    while i < min && left[i] == right[i]
        invariant
            0 <= i <= min,
            min <= left@.len(),
            min <= right@.len(),
            min == if left@.len() < right@.len() {
                left@.len()
            } else {
                right@.len()
            },
            forall|j: int| 0 <= j < i ==> left@[j] == right@[j],
        decreases min - i,
    {
        i += 1;
    }
    proof {
        lemma_common_eq_len(left@, right@);
        let n = common_eq_len(left@, right@);
        if i < n {
            assert(left@[i as int] == right@[i as int]);
        }
        if n < i {
            assert(left@[n] == right@[n]);
        }
        assert(i == n);
    }
    let mut q: usize = i;
    while q > 0 && q < left.len() && (left[q] & 0xC0) == 0x80
        invariant
            0 <= q <= i,
            i <= left@.len(),
            prefix_fit(left@, q as int) == prefix_fit(left@, i as int),
        decreases q,
    {
        proof {
            utf8_byte_ranges_bitwise(left@[q as int]);
        }
        q -= 1;
    }
    proof {
        utf8_byte_ranges_bitwise(left@[q as int]);
        assert(prefix_fit(left@, q as int) == q);
        lemma_common_eq_len(left@, right@);
        assert(left@.subrange(0, q as int) =~= right@.subrange(0, q as int));
    }
    q
}

/// A valid byte sequence never decodes to more characters than it has
/// bytes.
pub proof fn lemma_decode_le_len(s: Seq<u8>)
    requires
        valid_utf8(s),
    ensures
        decode_utf8(s).len() <= s.len(),
    decreases s.len(),
{
    if s.len() > 0 {
        let pop = pop_first_scalar(s);
        assert(decode_utf8(s) == seq![decode_first_scalar(s) as char] + decode_utf8(pop));
        lemma_decode_le_len(pop);
    }
}

/// Runtime check for `valid_utf8`.
pub fn is_valid_utf8(s: &[u8]) -> (r: bool)
    ensures
        r == valid_utf8(s@),
{
    let len = s.len();
    let mut i: usize = 0;
    while i < len
        invariant
            0 <= i <= len,
            len == s@.len(),
            valid_utf8(s@.subrange(0, i as int)),
        decreases len - i,
    {
        let suffix = vstd::slice::slice_subrange(s, i, len);
        match decode_scalar_prefix(suffix) {
            Some((_cp, k)) => {
                proof {
                    assert(partial_valid_utf8(s@, i as int));
                    partial_valid_utf8_extend(s@, i as int);
                }
                i += k;
            },
            None => {
                proof {
                    assert(suffix@.len() > 0);
                    assert(!valid_first_scalar(suffix@));
                    assert(!valid_utf8(suffix@));
                    partial_valid_partial_invalid_utf8(s@, i as int);
                }
                return false;
            },
        }
    }
    proof {
        assert(s@.subrange(0, len as int) =~= s@);
    }
    true
}

/// Byte-for-byte equality of two byte slices.
pub fn slice_eq(a: &[u8], b: &[u8]) -> (r: bool)
    ensures
        r == (a@ == b@),
{
    if a.len() != b.len() {
        proof {
            assert(a@ != b@);
        }
        return false;
    }
    let n = a.len();
    let mut i: usize = 0;
    while i < n
        invariant
            0 <= i <= n,
            n == a@.len() == b@.len(),
            forall|j: int| 0 <= j < i ==> a@[j] == b@[j],
        decreases n - i,
    {
        if a[i] != b[i] {
            proof {
                assert(a@[i as int] != b@[i as int]);
            }
            return false;
        }
        i += 1;
    }
    proof {
        assert(a@ =~= b@);
    }
    true
}

/// Whether `s` holds a NUL byte.
pub fn contains_nul(s: &[u8]) -> (r: bool)
    ensures
        r == exists|i: int| 0 <= i < s@.len() && s@[i] == 0u8,
{
    let n = s.len();
    let mut i: usize = 0;
    while i < n
        invariant
            0 <= i <= n,
            n == s@.len(),
            forall|j: int| 0 <= j < i ==> s@[j] != 0u8,
        decreases n - i,
    {
        if s[i] == 0u8 {
            proof {
                assert(0 <= i < s@.len() && s@[i as int] == 0u8);
            }
            return true;
        }
        i += 1;
    }
    false
}

/// Number of trailing space bytes of `s`.
pub open spec fn trailing_spaces(s: Seq<u8>) -> int
    decreases s.len(),
{
    if s.len() == 0 || s[s.len() - 1] != 32u8 {
        0
    } else {
        1 + trailing_spaces(s.take(s.len() - 1))
    }
}

pub proof fn lemma_trailing_spaces_bounds(s: Seq<u8>)
    ensures
        0 <= trailing_spaces(s) <= s.len(),
        forall|i: int| s.len() - trailing_spaces(s) <= i < s.len() ==> s[i] == 32u8,
        s.len() - trailing_spaces(s) > 0 ==> s[s.len() - trailing_spaces(s) - 1] != 32u8,
    decreases s.len(),
{
    if s.len() == 0 || s[s.len() - 1] != 32u8 {
    } else {
        let t = s.take(s.len() - 1);
        lemma_trailing_spaces_bounds(t);
        assert forall|i: int| s.len() - trailing_spaces(s) <= i < s.len() implies s[i] == 32u8 by {
            if i < s.len() - 1 {
                assert(t[i] == s[i]);
            }
        }
        if s.len() - trailing_spaces(s) > 0 {
            assert(t[s.len() - trailing_spaces(s) - 1] == s[s.len() - trailing_spaces(s) - 1]);
        }
    }
}

/// Number of trailing space bytes of `s`.
pub fn trailing_space_count(s: &[u8]) -> (r: usize)
    ensures
        r == trailing_spaces(s@),
{
    let len = s.len();
    let mut j: usize = len;
    while j > 0 && s[j - 1] == 32u8
        invariant
            0 <= j <= len,
            len == s@.len(),
            forall|idx: int| j <= idx < len ==> s@[idx] == 32u8,
        decreases j,
    {
        j -= 1;
    }
    proof {
        lemma_trailing_spaces_bounds(s@);
        let t = trailing_spaces(s@);
        if len - j < t {
            assert(s@[j - 1] == 32u8);
        }
        if len - j > t {
            assert(s@[len - t - 1] == 32u8);
        }
    }
    len - j
}

/// Number of leading space bytes of `s`.
pub open spec fn leading_spaces(s: Seq<u8>) -> int
    decreases s.len(),
{
    if s.len() == 0 || s[0] != 32u8 {
        0
    } else {
        1 + leading_spaces(s.skip(1))
    }
}

pub proof fn lemma_leading_spaces_bounds(s: Seq<u8>)
    ensures
        0 <= leading_spaces(s) <= s.len(),
        forall|i: int| 0 <= i < leading_spaces(s) ==> s[i] == 32u8,
        leading_spaces(s) < s.len() ==> s[leading_spaces(s)] != 32u8,
    decreases s.len(),
{
    if s.len() == 0 || s[0] != 32u8 {
    } else {
        lemma_leading_spaces_bounds(s.skip(1));
        assert forall|i: int| 0 <= i < leading_spaces(s) implies s[i] == 32u8 by {
            if i > 0 {
                assert(s.skip(1)[i - 1] == s[i]);
            }
        }
        if leading_spaces(s) < s.len() {
            assert(s.skip(1)[leading_spaces(s) - 1] == s[leading_spaces(s)]);
        }
    }
}

/// Drops the leading run of space bytes.
pub fn trim_start(input: &[u8]) -> (r: &[u8])
    ensures
        r@ == input@.skip(leading_spaces(input@)),
{
    proof {
        lemma_leading_spaces_bounds(input@);
    }
    let mut i: usize = 0;
    while i < input.len() && input[i] == 32u8
        invariant
            0 <= i <= input@.len(),
            forall|j: int| 0 <= j < i ==> input@[j] == 32u8,
        decreases input@.len() - i,
    {
        i += 1;
    }
    proof {
        lemma_leading_spaces_bounds(input@);
        let k = leading_spaces(input@);
        if i < k {
            assert(input@[i as int] == 32u8);
        }
        if k < i {
            assert(input@[k] == 32u8);
        }
        assert(i == k);
    }
    let r = vstd::slice::slice_subrange(input, i, input.len());
    proof {
        assert(r@ =~= input@.skip(leading_spaces(input@)));
    }
    r
}

} // verus!
