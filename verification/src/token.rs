//! Destructive in-place tokenizer: rewrites a line of text into
//! NUL-separated tokens in one forward pass.
//!
//! Tokens are maximal runs of non-space bytes, or double-quoted spans in
//! which `\"` and `\\` are unescaped and any other escaped byte is passed
//! through.  Runs of spaces between tokens are consumed.  An empty quoted
//! span is a legitimate empty token, distinct from no tokens at all.

use vstd::prelude::*;

verus! {

/// Tokenizer mode after some prefix of the input has been consumed.
#[derive(Clone, Copy, PartialEq, Eq, Structural, Debug)]
pub enum TokMode {
    /// Between tokens, consuming spaces.
    Space,
    /// Inside an unquoted token.
    Normal,
    /// Inside a double-quoted span.
    Quoted,
    /// Inside a quoted span, right after a backslash.
    Unescape,
}

/// Tokenizer state: mode, rewritten output bytes, and whether no token
/// has started yet.
pub ghost struct TokSt {
    pub mode: TokMode,
    pub out: Seq<u8>,
    pub empty: bool,
}

/// One step of the tokenizer on input byte `byte`.
pub open spec fn tok_step(st: TokSt, byte: u8) -> TokSt {
    match st.mode {
        TokMode::Space => {
            if byte == 34u8 {
                TokSt {
                    mode: TokMode::Quoted,
                    out: if st.out.len() > 0 {
                        st.out.push(0u8)
                    } else {
                        st.out
                    },
                    empty: false,
                }
            } else if byte != 32u8 && byte != 0u8 {
                TokSt {
                    mode: TokMode::Normal,
                    out: (if st.out.len() > 0 {
                        st.out.push(0u8)
                    } else {
                        st.out
                    }).push(byte),
                    empty: false,
                }
            } else {
                st
            }
        },
        TokMode::Normal => {
            if byte == 32u8 || byte == 0u8 {
                TokSt { mode: TokMode::Space, ..st }
            } else {
                TokSt { out: st.out.push(byte), ..st }
            }
        },
        TokMode::Quoted => {
            if byte == 34u8 || byte == 0u8 {
                TokSt { mode: TokMode::Space, ..st }
            } else if byte == 92u8 {
                TokSt { mode: TokMode::Unescape, ..st }
            } else {
                TokSt { out: st.out.push(byte), ..st }
            }
        },
        TokMode::Unescape => TokSt { mode: TokMode::Quoted, out: st.out.push(byte), ..st },
    }
}

/// Tokenizer state after the first `i` bytes of `s`.
pub open spec fn tok_fold(s: Seq<u8>, i: int) -> TokSt
    decreases i,
{
    if i <= 0 {
        TokSt { mode: TokMode::Space, out: Seq::empty(), empty: true }
    } else {
        tok_step(tok_fold(s, i - 1), s[i - 1])
    }
}

/// Tokenizer state after the whole of `s`.
pub open spec fn tokenize(s: Seq<u8>) -> TokSt {
    tok_fold(s, s.len() as int)
}

/// The rewritten output never outgrows the consumed input, and a step in
/// `Space` mode with earlier output consumes separator slack, so in-place
/// rewriting stays behind the read position.
pub proof fn lemma_tok_fold_len(s: Seq<u8>, i: int)
    requires
        0 <= i <= s.len(),
    ensures
        tok_fold(s, i).out.len() <= i,
        tok_fold(s, i).mode == TokMode::Space && tok_fold(s, i).out.len() > 0 ==> tok_fold(
            s,
            i,
        ).out.len() < i,
    decreases i,
{
    if i > 0 {
        lemma_tok_fold_len(s, i - 1);
    }
}

/// The tokens of `bytes` when they are read as NUL-separated fields.
pub open spec fn split_nuls(s: Seq<u8>) -> Seq<Seq<u8>>
    decreases s.len(),
{
    if s.len() == 0 {
        seq![Seq::empty()]
    } else if s[0] == 0u8 {
        seq![Seq::<u8>::empty()] + split_nuls(s.skip(1))
    } else {
        let rest = split_nuls(s.skip(1));
        seq![seq![s[0]] + rest[0]] + rest.skip(1)
    }
}

pub proof fn lemma_split_nuls_len(s: Seq<u8>)
    ensures
        split_nuls(s).len() >= 1,
    decreases s.len(),
{
    if s.len() == 0 {
    } else if s[0] == 0u8 {
        lemma_split_nuls_len(s.skip(1));
    } else {
        lemma_split_nuls_len(s.skip(1));
    }
}

/// Splitting at the first NUL: the bytes before it are the first field,
/// the bytes after it hold the rest; with no NUL the whole is one field.
pub proof fn lemma_split_at_first_nul(s: Seq<u8>, pos: int)
    requires
        0 <= pos <= s.len(),
        forall|i: int| 0 <= i < pos ==> s[i] != 0u8,
        pos < s.len() ==> s[pos] == 0u8,
    ensures
        pos == s.len() ==> split_nuls(s) == seq![s],
        pos < s.len() ==> split_nuls(s) == seq![s.subrange(0, pos)] + split_nuls(
            s.subrange(pos + 1, s.len() as int),
        ),
    decreases pos,
{
    lemma_split_nuls_len(s);
    if pos == 0 {
        if 0 < s.len() {
            assert(s.skip(1) =~= s.subrange(1, s.len() as int));
            assert(s.subrange(0, 0) =~= Seq::<u8>::empty());
            assert(split_nuls(s) =~~= seq![s.subrange(0, 0)] + split_nuls(
                s.subrange(1, s.len() as int),
            ));
        } else {
            assert(s =~= Seq::<u8>::empty());
            assert(split_nuls(s) =~~= seq![s]);
        }
    } else {
        let t = s.skip(1);
        lemma_split_at_first_nul(t, pos - 1);
        lemma_split_nuls_len(t);
        if pos == s.len() {
            assert(split_nuls(t) == seq![t]);
            assert(seq![s[0]] + t =~= s);
            assert(split_nuls(s) =~~= seq![s]);
        } else {
            assert(t.subrange(0, pos - 1) =~= s.subrange(1, pos));
            assert(t.subrange(pos, t.len() as int) =~= s.subrange(pos + 1, s.len() as int));
            assert(split_nuls(t) == seq![t.subrange(0, pos - 1)] + split_nuls(
                s.subrange(pos + 1, s.len() as int),
            ));
            assert(seq![s[0]] + split_nuls(t)[0] =~= s.subrange(0, pos));
            assert(split_nuls(s) =~~= seq![s.subrange(0, pos)] + split_nuls(
                s.subrange(pos + 1, s.len() as int),
            ));
        }
    }
}

/// A NUL between two regions separates their fields.
pub proof fn lemma_split_nuls_concat(a: Seq<u8>, b: Seq<u8>)
    ensures
        split_nuls(a + seq![0u8] + b) == split_nuls(a) + split_nuls(b),
    decreases a.len(),
{
    lemma_split_nuls_len(a);
    lemma_split_nuls_len(b);
    if a.len() == 0 {
        assert(a + seq![0u8] + b =~= seq![0u8] + b);
        assert((seq![0u8] + b)[0] == 0u8);
        assert((seq![0u8] + b).skip(1) =~= b);
        assert(split_nuls(a + seq![0u8] + b) =~~= split_nuls(a) + split_nuls(b));
    } else {
        let t = a.skip(1);
        lemma_split_nuls_concat(t, b);
        lemma_split_nuls_len(t);
        let s = a + seq![0u8] + b;
        assert(s[0] == a[0]);
        assert(s.skip(1) =~= t + seq![0u8] + b);
        if a[0] == 0u8 {
            assert(split_nuls(s) == seq![Seq::<u8>::empty()] + split_nuls(t + seq![0u8] + b));
            assert(split_nuls(s) =~~= split_nuls(a) + split_nuls(b));
        } else {
            let rest = split_nuls(t + seq![0u8] + b);
            assert(rest == split_nuls(t) + split_nuls(b));
            assert(rest[0] == split_nuls(t)[0]);
            assert(rest.skip(1) =~= split_nuls(t).skip(1) + split_nuls(b));
            assert(split_nuls(s) == seq![seq![s[0]] + rest[0]] + rest.skip(1));
            assert(split_nuls(a) == seq![seq![a[0]] + split_nuls(t)[0]] + split_nuls(t).skip(1));
            assert(split_nuls(s) =~~= split_nuls(a) + split_nuls(b));
        }
    }
}

/// Fields of a NUL-split never contain a NUL themselves.
pub proof fn lemma_split_nuls_no_nul(s: Seq<u8>)
    ensures
        forall|i: int, j: int|
            0 <= i < split_nuls(s).len() && 0 <= j < split_nuls(s)[i].len()
                ==> #[trigger] split_nuls(s)[i][j] != 0u8,
    decreases s.len(),
{
    lemma_split_nuls_len(s);
    if s.len() == 0 {
    } else if s[0] == 0u8 {
        lemma_split_nuls_no_nul(s.skip(1));
        assert forall|i: int, j: int|
            0 <= i < split_nuls(s).len() && 0 <= j < split_nuls(s)[i].len() implies #[trigger] split_nuls(
            s,
        )[i][j] != 0u8 by {
            if i > 0 {
                assert(split_nuls(s)[i] == split_nuls(s.skip(1))[i - 1]);
            }
        }
    } else {
        lemma_split_nuls_no_nul(s.skip(1));
        let rest = split_nuls(s.skip(1));
        assert forall|i: int, j: int|
            0 <= i < split_nuls(s).len() && 0 <= j < split_nuls(s)[i].len() implies #[trigger] split_nuls(
            s,
        )[i][j] != 0u8 by {
            if i == 0 {
                if j > 0 {
                    assert(split_nuls(s)[0][j] == rest[0][j - 1]);
                }
            } else {
                assert(split_nuls(s)[i] == rest[i]);
            }
        }
    }
}

/// Total bytes of the fields, one separator each, always one more than
/// the raw length.
pub open spec fn size_of_entries(es: Seq<Seq<u8>>) -> int
    decreases es.len(),
{
    if es.len() == 0 {
        0
    } else {
        es[0].len() + 1 + size_of_entries(es.skip(1))
    }
}

pub proof fn lemma_size_split(s: Seq<u8>)
    ensures
        size_of_entries(split_nuls(s)) == s.len() + 1,
    decreases s.len(),
{
    lemma_split_nuls_len(s);
    assert(size_of_entries(split_nuls(s)) == split_nuls(s)[0].len() + 1 + size_of_entries(
        split_nuls(s).skip(1),
    ));
    if s.len() == 0 {
        assert(split_nuls(s).skip(1) =~= Seq::<Seq<u8>>::empty());
        assert(size_of_entries(split_nuls(s).skip(1)) == 0);
    } else if s[0] == 0u8 {
        lemma_size_split(s.skip(1));
        assert(split_nuls(s).skip(1) =~= split_nuls(s.skip(1)));
        assert(split_nuls(s)[0].len() == 0);
    } else {
        lemma_size_split(s.skip(1));
        let rest = split_nuls(s.skip(1));
        assert(split_nuls(s).skip(1) =~= rest.skip(1));
        assert(split_nuls(s)[0] == seq![s[0]] + rest[0]);
        assert(split_nuls(s)[0].len() == 1 + rest[0].len());
        assert(size_of_entries(rest) == rest[0].len() + 1 + size_of_entries(rest.skip(1)));
    }
}

/// The token list carried by raw NUL-separated bytes together with the
/// no-tokens flag.
pub open spec fn token_list(bytes: Seq<u8>, empty: bool) -> Seq<Seq<u8>> {
    if empty {
        Seq::empty()
    } else {
        split_nuls(bytes)
    }
}

/// A buffer of NUL-separated tokens, produced by destructively rewriting
/// a line of text.
#[derive(Clone, Debug)]
pub struct Tokens {
    bytes: Vec<u8>,
    empty: bool,
}

impl Tokens {
    /// The raw rewritten bytes, tokens separated by single NULs.
    pub closed spec fn raw_spec(&self) -> Seq<u8> {
        self.bytes@
    }

    /// Whether no token at all was found.
    pub closed spec fn empty_flag(&self) -> bool {
        self.empty
    }

    /// The token list this buffer holds.
    pub open spec fn tokens(&self) -> Seq<Seq<u8>> {
        token_list(self.raw_spec(), self.empty_flag())
    }

    /// Tokenizes `input` by rewriting it in place; the rewritten bytes
    /// never outgrow the line it rewrote.
    pub fn new(input: Vec<u8>) -> (r: Tokens)
        ensures
            r.raw_spec() == tokenize(input@).out,
            r.empty_flag() == tokenize(input@).empty,
            r.raw_spec().len() <= input@.len(),
    {
        let ghost in0 = input@;
        let mut bytes = input;
        let len = bytes.len();
        let mut insert: usize = 0;
        let mut empty = true;
        let mut mode = TokMode::Space;
        let mut pos: usize = 0;
        while pos < len
            invariant
                len == bytes@.len(),
                len == in0.len(),
                0 <= pos <= len,
                insert <= pos,
                mode == tok_fold(in0, pos as int).mode,
                empty == tok_fold(in0, pos as int).empty,
                insert == tok_fold(in0, pos as int).out.len(),
                bytes@.subrange(0, insert as int) == tok_fold(in0, pos as int).out,
                forall|j: int| pos as int <= j < len ==> bytes@[j] == in0[j],
                mode == TokMode::Space && insert > 0 ==> insert < pos,
            decreases len - pos,
        {
            let byte = bytes[pos];
            proof {
                assert(byte == in0[pos as int]);
                lemma_tok_fold_len(in0, pos as int);
            }
            let ghost pre = tok_fold(in0, pos as int);
            let ghost post = tok_step(pre, in0[pos as int]);
            match mode {
                TokMode::Space => {
                    if byte == 34u8 {
                        mode = TokMode::Quoted;
                        empty = false;
                        if insert > 0 {
                            bytes[insert] = 0u8;
                            insert += 1;
                        }
                    } else if byte != 32u8 && byte != 0u8 {
                        mode = TokMode::Normal;
                        empty = false;
                        if insert > 0 {
                            bytes[insert] = 0u8;
                            insert += 1;
                        }
                        bytes[insert] = byte;
                        insert += 1;
                    }
                },
                TokMode::Normal => {
                    if byte == 32u8 || byte == 0u8 {
                        mode = TokMode::Space;
                    } else {
                        bytes[insert] = byte;
                        insert += 1;
                    }
                },
                TokMode::Quoted => {
                    if byte == 34u8 || byte == 0u8 {
                        mode = TokMode::Space;
                    } else if byte == 92u8 {
                        mode = TokMode::Unescape;
                    } else {
                        bytes[insert] = byte;
                        insert += 1;
                    }
                },
                TokMode::Unescape => {
                    bytes[insert] = byte;
                    insert += 1;
                    mode = TokMode::Quoted;
                },
            }
            pos += 1;
            proof {
                assert(tok_fold(in0, pos as int) == post);
                assert(bytes@.subrange(0, insert as int) =~= post.out);
            }
        }
        bytes.truncate(insert);
        proof {
            assert(bytes@ =~= tokenize(in0).out);
        }
        Tokens { bytes, empty }
    }

    /// Rebuilds a token buffer from raw NUL-separated bytes and the
    /// no-tokens flag.
    pub fn from_raw(tokens: Vec<u8>, is_empty: bool) -> (r: Tokens)
        ensures
            r.raw_spec() == tokens@,
            r.empty_flag() == is_empty,
    {
        Tokens { bytes: tokens, empty: is_empty }
    }

    /// Returns the raw representation of the tokens (NUL-delimited).
    pub fn into_raw(self) -> (r: Vec<u8>)
        ensures
            r@ == self.raw_spec(),
    {
        self.bytes
    }

    /// An iterator over the tokens.
    pub fn iter(&self) -> (r: TokensIter)
        ensures
            r.tokens() == self.tokens(),
    {
        TokensIter::new(vstd::slice::slice_to_vec(self.bytes.as_slice()), self.empty)
    }

    /// The raw NUL-separated bytes.
    pub fn raw_bytes(&self) -> (r: &[u8])
        ensures
            r@ == self.raw_spec(),
    {
        self.bytes.as_slice()
    }

    /// A copy of this token buffer.
    pub fn duplicate(&self) -> (r: Tokens)
        ensures
            r.raw_spec() == self.raw_spec(),
            r.empty_flag() == self.empty_flag(),
    {
        Tokens { bytes: vstd::slice::slice_to_vec(self.bytes.as_slice()), empty: self.empty }
    }

    /// Whether this buffer holds no tokens at all.
    pub fn is_empty(&self) -> (r: bool)
        ensures
            r == self.empty_flag(),
    {
        self.empty
    }
}

/// Iterator over the tokens of a [`Tokens`] buffer; what has not been
/// yielded yet can be turned back into a buffer.
#[derive(Clone, Debug)]
pub struct TokensIter {
    bytes: Vec<u8>,
    empty: bool,
}

impl TokensIter {
    pub closed spec fn raw_spec(&self) -> Seq<u8> {
        self.bytes@
    }

    pub closed spec fn empty_flag(&self) -> bool {
        self.empty
    }

    /// The tokens this iterator has not yielded yet.
    pub open spec fn tokens(&self) -> Seq<Seq<u8>> {
        token_list(self.raw_spec(), self.empty_flag())
    }

    pub fn new(tokens: Vec<u8>, empty: bool) -> (r: TokensIter)
        ensures
            r.raw_spec() == tokens@,
            r.empty_flag() == empty,
    {
        TokensIter { bytes: tokens, empty }
    }

    /// Turns the tokens that are left back into a token buffer.
    pub fn into_tokens(self) -> (r: Tokens)
        ensures
            r.tokens() == self.tokens(),
    {
        Tokens { bytes: self.bytes, empty: self.empty }
    }

    /// Yields the next token, front to back.
    pub fn next(&mut self) -> (r: Option<Vec<u8>>)
        ensures
            old(self).tokens().len() == 0 ==> r is None && final(self).tokens()
                == old(self).tokens(),
            old(self).tokens().len() > 0 ==> r is Some && r->Some_0@ == old(self).tokens()[0]
                && final(self).tokens() == old(self).tokens().skip(1),
    {
        proof {
            lemma_split_nuls_len(self.bytes@);
        }
        if self.empty {
            return None;
        }
        let ghost b0 = self.bytes@;
        let len = self.bytes.len();
        let mut pos: usize = 0;
        while pos < len && self.bytes[pos] != 0u8
            invariant
                len == self.bytes@.len(),
                0 <= pos <= len,
                forall|i: int| 0 <= i < pos ==> self.bytes@[i] != 0u8,
                self.bytes@ == b0,
                self.empty == false,
            decreases len - pos,
        {
            pos += 1;
        }
        proof {
            lemma_split_at_first_nul(b0, pos as int);
        }
        if pos < len {
            let token = vstd::slice::slice_to_vec(
                vstd::slice::slice_subrange(self.bytes.as_slice(), 0, pos),
            );
            let rest = vstd::slice::slice_to_vec(
                vstd::slice::slice_subrange(self.bytes.as_slice(), pos + 1, len),
            );
            self.bytes = rest;
            proof {
                assert(split_nuls(b0).skip(1) =~= split_nuls(
                    b0.subrange(pos + 1, b0.len() as int),
                ));
            }
            Some(token)
        } else {
            self.empty = true;
            let token = vstd::slice::slice_to_vec(self.bytes.as_slice());
            proof {
                assert(token@ =~= b0);
                assert(split_nuls(b0) == seq![b0]);
            }
            Some(token)
        }
    }
}

} // verus!
