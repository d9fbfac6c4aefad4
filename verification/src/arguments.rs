//! Classifies tokens positionally into long options, short options,
//! positional values and the bare `--` separator.

use vstd::prelude::*;
use vstd::utf8::*;

use crate::token::Tokens;
use crate::token::TokensIter;
use crate::utils::char_pop_front;
use vstd::string::StringSliceAdditionalSpecFns;

verus! {

/// One classified argument.
#[derive(Clone, Debug)]
pub enum Arg {
    /// The bare `--`; every later token is a plain value.
    DoubleDash,
    /// A long option; the name is stored without the leading `--`.
    LongOption(Vec<u8>),
    /// A short option: a single character without the leading `-`.
    /// A token of several short options is unpacked one character at
    /// a time.
    ShortOption(char),
    /// A value of an option, or a positional argument.
    Value(Vec<u8>),
}

impl PartialEq for Arg {
    fn eq(&self, other: &Arg) -> (r: bool) {
        match (self, other) {
            (Arg::DoubleDash, Arg::DoubleDash) => true,
            (Arg::ShortOption(a), Arg::ShortOption(b)) => a == b,
            (Arg::LongOption(a), Arg::LongOption(b)) => vec_bytes_eq(a, b),
            (Arg::Value(a), Arg::Value(b)) => vec_bytes_eq(a, b),
            _ => false,
        }
    }
}

impl vstd::std_specs::cmp::PartialEqSpecImpl for Arg {
    open spec fn obeys_eq_spec() -> bool {
        true
    }

    open spec fn eq_spec(&self, other: &Arg) -> bool {
        match (self, other) {
            (Arg::DoubleDash, Arg::DoubleDash) => true,
            (Arg::ShortOption(a), Arg::ShortOption(b)) => a == b,
            (Arg::LongOption(a), Arg::LongOption(b)) => a@ == b@,
            (Arg::Value(a), Arg::Value(b)) => a@ == b@,
            _ => false,
        }
    }
}

/// Byte-for-byte equality of two byte vectors.
pub fn vec_bytes_eq(a: &Vec<u8>, b: &Vec<u8>) -> (r: bool)
    ensures
        r == (a@ == b@),
{
    let r = a == b;
    proof {
        if r {
            assert(a@ =~= b@);
        }
        if a@ == b@ {
            assert(a@.len() == b@.len());
            assert(forall|i: int| 0 <= i < a@.len() ==> a@[i] == b@[i]);
        }
    }
    r
}

/// The argument list of a command: its tokens after the command name.
#[derive(Clone, Debug)]
pub struct Args {
    tokens: Tokens,
}

impl Args {
    /// The tokens this argument list was built from.
    pub closed spec fn token_buf(&self) -> Tokens {
        self.tokens
    }

    /// The raw token list.
    pub open spec fn tokens(&self) -> Seq<Seq<u8>> {
        self.token_buf().tokens()
    }

    /// Creates an argument list over the given tokens.
    pub fn new(tokens: Tokens) -> (r: Args)
        ensures
            r.token_buf() == tokens,
    {
        Args { tokens }
    }

    /// Iterates the arguments as classified [`Arg`] values.
    pub fn iter(&self) -> (r: ArgsIter)
        ensures
            !r.values_only(),
            r.leftover() == Seq::<u8>::empty(),
            r.rem_tokens() == self.tokens(),
    {
        ArgsIter::new(self.tokens.iter())
    }

    /// Whether there are no arguments at all.
    pub fn is_empty(&self) -> (r: bool)
        ensures
            r == self.token_buf().empty_flag(),
    {
        self.tokens.is_empty()
    }

    /// Iterates the raw token values.
    pub fn iter_raw(&self) -> (r: TokensIter)
        ensures
            r.tokens() == self.tokens(),
    {
        self.tokens.iter()
    }

    /// A copy of this argument list.
    pub fn duplicate(&self) -> (r: Args)
        ensures
            r.tokens() == self.tokens(),
    {
        Args { tokens: self.tokens.duplicate() }
    }

    /// The first raw token, without consuming it.
    pub fn peek_raw(&self) -> (r: Option<Vec<u8>>)
        ensures
            self.tokens().len() == 0 ==> r is None,
            self.tokens().len() > 0 ==> r is Some && r->Some_0@ == self.tokens()[0],
    {
        let mut it = self.tokens.iter();
        it.next()
    }
}

impl PartialEq for Args {
    /// Two argument lists are equal when they carry the same tokens;
    /// the raw bytes are canonical once the no-tokens flag agrees.
    fn eq(&self, other: &Args) -> (r: bool) {
        if self.tokens.is_empty() != other.tokens.is_empty() {
            false
        } else if self.tokens.is_empty() {
            true
        } else {
            crate::utils::slice_eq(self.tokens.raw_bytes(), other.tokens.raw_bytes())
        }
    }
}

impl vstd::std_specs::cmp::PartialEqSpecImpl for Args {
    open spec fn obeys_eq_spec() -> bool {
        true
    }

    open spec fn eq_spec(&self, other: &Args) -> bool {
        &&& self.token_buf().empty_flag() == other.token_buf().empty_flag()
        &&& !self.token_buf().empty_flag() ==> self.token_buf().raw_spec()
            == other.token_buf().raw_spec()
    }
}

/// Iterator that classifies tokens into [`Arg`] values, unpacking
/// collapsed short options one character at a time.
#[derive(Clone, Debug)]
pub struct ArgsIter {
    values_only: bool,
    leftover: Vec<u8>,
    tokens: TokensIter,
}

impl ArgsIter {
    /// Whether a `--` was seen, so every later token is a plain value.
    pub closed spec fn values_only(&self) -> bool {
        self.values_only
    }

    /// Short-option characters left over from the current token.
    pub closed spec fn leftover(&self) -> Seq<u8> {
        self.leftover@
    }

    /// The tokens not yet consumed.
    pub open spec fn rem_tokens(&self) -> Seq<Seq<u8>> {
        self.tokens_iter().tokens()
    }

    pub closed spec fn tokens_iter(&self) -> TokensIter {
        self.tokens
    }

    pub fn new(tokens: TokensIter) -> (r: ArgsIter)
        ensures
            !r.values_only(),
            r.leftover() == Seq::<u8>::empty(),
            r.tokens_iter() == tokens,
    {
        ArgsIter { values_only: false, leftover: Vec::new(), tokens }
    }

    /// Converts what is left back to [`Args`].
    ///
    /// Short options not yet unpacked from the current token are
    /// discarded.
    pub fn into_args(self) -> (r: Args)
        ensures
            r.tokens() == self.rem_tokens(),
    {
        Args::new(self.tokens.into_tokens())
    }

    /// Classifies and yields the next argument.
    pub fn next(&mut self) -> (r: Option<Arg>)
        ensures
            ({
                let lo = old(self).leftover();
                let toks = old(self).rem_tokens();
                &&& (lo.len() > 0 && valid_first_scalar(lo)) ==> r == Some(
                    Arg::ShortOption(decode_first_scalar(lo) as char),
                ) && final(self).leftover() == lo.skip(length_of_first_scalar(lo))
                    && final(self).rem_tokens() == toks
                    && final(self).values_only() == old(self).values_only()
                &&& (lo.len() == 0 || !valid_first_scalar(lo)) ==> {
                    &&& toks.len() == 0 ==> r is None && final(self).rem_tokens() == toks
                        && final(self).leftover() == Seq::<u8>::empty()
                    &&& toks.len() > 0 ==> {
                        let tok = toks[0];
                        &&& final(self).rem_tokens() == toks.skip(1)
                        &&& old(self).values_only() ==> (r matches Some(Arg::Value(v)) && v@ == tok)
                            && final(self).values_only() && final(self).leftover()
                            == Seq::<u8>::empty()
                        &&& !old(self).values_only() ==> {
                            &&& (tok.len() > 1 && tok[0] == 45u8 && tok[1] == 45u8 && tok.len()
                                == 2) ==> r == Some(Arg::DoubleDash) && final(self).values_only()
                                && final(self).leftover() == Seq::<u8>::empty()
                            &&& (tok.len() > 1 && tok[0] == 45u8 && tok[1] == 45u8 && tok.len()
                                > 2) ==> (r matches Some(Arg::LongOption(n)) && n@ == tok.skip(2))
                                && !final(self).values_only() && final(self).leftover()
                                == Seq::<u8>::empty()
                            &&& (tok.len() > 1 && tok[0] == 45u8 && tok[1] != 45u8) ==> {
                                let rest = tok.skip(1);
                                if valid_first_scalar(rest) {
                                    r == Some(Arg::ShortOption(decode_first_scalar(rest) as char))
                                        && final(self).leftover() == rest.skip(
                                        length_of_first_scalar(rest),
                                    ) && !final(self).values_only()
                                } else {
                                    (r matches Some(Arg::Value(v)) && v@ == tok)
                                        && !final(self).values_only() && final(self).leftover()
                                        == Seq::<u8>::empty()
                                }
                            }
                            &&& !(tok.len() > 1 && tok[0] == 45u8) ==> (r matches Some(
                                Arg::Value(v),
                            ) && v@ == tok) && !final(self).values_only() && final(self).leftover()
                                == Seq::<u8>::empty()
                        }
                    }
                }
            }),
    {
        let lo_len = self.leftover.len();
        if lo_len > 0 {
            match char_pop_front(self.leftover.as_slice()) {
                Some((opt, k)) => {
                    let rest = vstd::slice::slice_to_vec(
                        vstd::slice::slice_subrange(self.leftover.as_slice(), k, lo_len),
                    );
                    proof {
                        assert(rest@ =~= old(self).leftover().skip(
                            length_of_first_scalar(old(self).leftover()),
                        ));
                    }
                    self.leftover = rest;
                    return Some(Arg::ShortOption(opt));
                },
                None => {
                    // not a well-formed character: drop the leftover run
                    self.leftover = Vec::new();
                },
            }
        }
        let raw = match self.tokens.next() {
            Some(raw) => raw,
            None => {
                return None;
            },
        };
        if self.values_only {
            return Some(Arg::Value(raw));
        }
        let raw_len = raw.len();
        if raw_len > 1 && raw[0] == 45u8 {
            if raw[1] == 45u8 {
                if raw_len == 2 {
                    self.values_only = true;
                    Some(Arg::DoubleDash)
                } else {
                    let name = vstd::slice::slice_to_vec(
                        vstd::slice::slice_subrange(raw.as_slice(), 2, raw_len),
                    );
                    proof {
                        assert(name@ =~= raw@.skip(2));
                    }
                    Some(Arg::LongOption(name))
                }
            } else {
                let tail = vstd::slice::slice_subrange(raw.as_slice(), 1, raw_len);
                proof {
                    assert(tail@ =~= raw@.skip(1));
                }
                match char_pop_front(tail) {
                    Some((opt, k)) => {
                        let rest = vstd::slice::slice_to_vec(
                            vstd::slice::slice_subrange(tail, k, raw_len - 1),
                        );
                        proof {
                            assert(rest@ =~= raw@.skip(1).skip(
                                length_of_first_scalar(raw@.skip(1)),
                            ));
                        }
                        self.leftover = rest;
                        Some(Arg::ShortOption(opt))
                    },
                    None => Some(Arg::Value(raw)),
                }
            }
        } else {
            Some(Arg::Value(raw))
        }
    }
}

/// The error of a failed conversion of one argument to a typed value.
#[derive(Clone, Debug)]
pub struct FromArgError {
    /// The argument text that did not convert.
    pub value: Vec<u8>,
    /// A name for what was expected instead.
    pub expected: Vec<u8>,
}

/// Conversion of one raw argument into a typed value.
pub trait FromArg: Sized {
    fn from_arg(arg: &[u8]) -> Result<Self, FromArgError>;
}

impl FromArg for Vec<u8> {
    /// The raw argument itself always converts.
    fn from_arg(arg: &[u8]) -> Result<Vec<u8>, FromArgError> {
        Ok(vstd::slice::slice_to_vec(arg))
    }
}

/// Whether every byte of `s` is a decimal digit.
pub open spec fn all_digits(s: Seq<u8>) -> bool {
    forall|i: int| 0 <= i < s.len() ==> 48u8 <= #[trigger] s[i] <= 57u8
}

/// The number written in decimal by the digit bytes `s`.
pub open spec fn dec_val(s: Seq<u8>) -> int
    decreases s.len(),
{
    if s.len() == 0 {
        0
    } else {
        dec_val(s.take(s.len() - 1)) * 10 + (s[s.len() - 1] - 48)
    }
}

pub proof fn lemma_dec_val_nonneg(s: Seq<u8>)
    requires
        all_digits(s),
    ensures
        dec_val(s) >= 0,
    decreases s.len(),
{
    if s.len() > 0 {
        assert(all_digits(s.take(s.len() - 1)));
        lemma_dec_val_nonneg(s.take(s.len() - 1));
    }
}

/// The value of a digit prefix never exceeds the value of the whole.
pub proof fn lemma_dec_val_prefix_le(s: Seq<u8>, k: int)
    requires
        all_digits(s),
        0 <= k <= s.len(),
    ensures
        0 <= dec_val(s.take(k)) <= dec_val(s),
    decreases s.len(),
{
    assert(all_digits(s.take(k)));
    lemma_dec_val_nonneg(s.take(k));
    if k == s.len() {
        assert(s.take(k) =~= s);
    } else {
        let head = s.take(s.len() - 1);
        assert(all_digits(head));
        assert(head.take(k) =~= s.take(k));
        lemma_dec_val_prefix_le(head, k);
        lemma_dec_val_nonneg(head);
        assert(dec_val(s) == dec_val(head) * 10 + (s[s.len() - 1] - 48));
        assert(dec_val(head) * 10 >= dec_val(head)) by (nonlinear_arith)
            requires
                dec_val(head) >= 0,
        ;
    }
}

/// The digit part of a possibly signed number: the bytes after one
/// leading `+` or `-`, or all of them.
pub open spec fn signed_digits(s: Seq<u8>) -> Seq<u8> {
    if s.len() > 0 && (s[0] == 43u8 || s[0] == 45u8) {
        s.skip(1)
    } else {
        s
    }
}

/// Whether a possibly signed number starts with a `-`.
pub open spec fn is_negative(s: Seq<u8>) -> bool {
    s.len() > 0 && s[0] == 45u8
}

/// Converts decimal digit bytes to the number they write, when they are
/// non-empty, all digits, and write no more than `max`.
fn parse_decimal_digits(arg: &[u8], max: u128) -> (r: Option<u128>)
    ensures
        r is Some <==> (arg@.len() > 0 && all_digits(arg@) && dec_val(arg@) <= max),
        r matches Some(v) ==> v == dec_val(arg@),
{
    let n = arg.len();
    if n == 0 {
        return None;
    }
    let mut acc: u128 = 0;
    let mut i: usize = 0;
    while i < n
        invariant
            0 <= i <= n,
            n == arg@.len(),
            all_digits(arg@.take(i as int)),
            acc == dec_val(arg@.take(i as int)),
            acc <= max,
        decreases n - i,
    {
        let b = arg[i];
        if b < 48 || b > 57 {
            return None;
        }
        let d = (b - 48) as u128;
        proof {
            assert(arg@.take(i + 1).take(i as int) =~= arg@.take(i as int));
            assert(arg@.take(i + 1)[i as int] == arg@[i as int]);
            assert(all_digits(arg@.take(i + 1)));
            assert(dec_val(arg@.take(i + 1)) == dec_val(arg@.take(i as int)) * 10 + (arg@[i as int]
                - 48));
        }
        if d > max || acc > (max - d) / 10 {
            proof {
                if d <= max {
                    assert(acc * 10 + d > max) by (nonlinear_arith)
                        requires
                            acc > (max as int - d) / 10,
                            0 <= d <= 9,
                            acc >= 0,
                    ;
                }
                if all_digits(arg@) {
                    lemma_dec_val_prefix_le(arg@, i + 1);
                    assert(dec_val(arg@) >= dec_val(arg@.take(i + 1)));
                    assert(dec_val(arg@) > max);
                }
            }
            return None;
        }
        proof {
            assert(acc * 10 + d <= max) by (nonlinear_arith)
                requires
                    acc <= (max as int - d) / 10,
                    0 <= d <= 9,
                    acc >= 0,
            ;
        }
        acc = acc * 10 + d;
        i += 1;
    }
    proof {
        assert(arg@.take(n as int) =~= arg@);
    }
    Some(acc)
}

/// The conversion error for one argument, naming what was expected.
fn convert_error(arg: &[u8], expected: &[u8]) -> (r: FromArgError)
    ensures
        r.value@ == arg@,
        r.expected@ == expected@,
{
    FromArgError {
        value: vstd::slice::slice_to_vec(arg),
        expected: vstd::slice::slice_to_vec(expected),
    }
}

/// Converts a decimal number to an unsigned value of at most `max`,
/// rejecting anything empty, non-decimal, or too large.
pub fn parse_unsigned_decimal(arg: &[u8], max: u128, expected: &[u8]) -> (r: Result<
    u128,
    FromArgError,
>)
    ensures
        r is Ok <==> (arg@.len() > 0 && all_digits(arg@) && dec_val(arg@) <= max),
        r matches Ok(v) ==> v == dec_val(arg@),
        r matches Err(e) ==> e.value@ == arg@ && e.expected@ == expected@,
{
    match parse_decimal_digits(arg, max) {
        Some(v) => Ok(v),
        None => Err(convert_error(arg, expected)),
    }
}

/// Converts a decimal number with one optional leading `+` or `-` to a
/// sign and a magnitude, the magnitude bounded by `pos_max` for a
/// non-negative number and by `neg_max` for a negative one.
pub fn parse_signed_decimal(arg: &[u8], pos_max: u128, neg_max: u128, expected: &[u8]) -> (r:
    Result<(bool, u128), FromArgError>)
    ensures
        r is Ok <==> ({
            let digits = signed_digits(arg@);
            digits.len() > 0 && all_digits(digits) && dec_val(digits) <= (if is_negative(arg@) {
                neg_max as int
            } else {
                pos_max as int
            })
        }),
        r matches Ok(v) ==> v.0 == is_negative(arg@) && v.1 == dec_val(signed_digits(arg@)),
        r matches Err(e) ==> e.value@ == arg@ && e.expected@ == expected@,
{
    let n = arg.len();
    let negative = n > 0 && arg[0] == 45u8;
    let digits: &[u8] = if n > 0 && (arg[0] == 43u8 || arg[0] == 45u8) {
        vstd::slice::slice_subrange(arg, 1, n)
    } else {
        arg
    };
    proof {
        assert(digits@ =~= signed_digits(arg@));
    }
    let max = if negative {
        neg_max
    } else {
        pos_max
    };
    match parse_decimal_digits(digits, max) {
        Some(v) => Ok((negative, v)),
        None => Err(convert_error(arg, expected)),
    }
}

/// Converts the words `true` and `false`, and nothing else.
pub fn parse_bool_value(arg: &[u8]) -> (r: Result<bool, FromArgError>)
    ensures
        r is Ok <==> (arg@ == ("true").spec_bytes() || arg@ == ("false").spec_bytes()),
        r matches Ok(v) ==> v == (arg@ == ("true").spec_bytes()),
        r matches Err(e) ==> e.value@ == arg@,
{
    if crate::utils::slice_eq(arg, "true".as_bytes()) {
        Ok(true)
    } else if crate::utils::slice_eq(arg, "false".as_bytes()) {
        Ok(false)
    } else {
        Err(convert_error(arg, "bool".as_bytes()))
    }
}

/// Converts an argument that is exactly one character.
pub fn parse_char_value(arg: &[u8]) -> (r: Result<char, FromArgError>)
    ensures
        r is Ok <==> (valid_first_scalar(arg@) && length_of_first_scalar(arg@) == arg@.len()),
        r matches Ok(c) ==> c == decode_first_scalar(arg@) as char,
        r matches Err(e) ==> e.value@ == arg@,
{
    match char_pop_front(arg) {
        Some((c, width)) => {
            if width == arg.len() {
                Ok(c)
            } else {
                Err(convert_error(arg, "char".as_bytes()))
            }
        },
        None => Err(convert_error(arg, "char".as_bytes())),
    }
}

impl FromArg for char {
    /// An argument of exactly one character converts to it.
    fn from_arg(arg: &[u8]) -> Result<char, FromArgError> {
        parse_char_value(arg)
    }
}

impl FromArg for bool {
    /// The words `true` and `false` convert; nothing else does.
    fn from_arg(arg: &[u8]) -> Result<bool, FromArgError> {
        parse_bool_value(arg)
    }
}

impl FromArg for u8 {
    /// A decimal number in range converts to its value.
    fn from_arg(arg: &[u8]) -> Result<u8, FromArgError> {
        match parse_unsigned_decimal(arg, u8::MAX as u128, "u8".as_bytes()) {
            Ok(v) => Ok(v as u8),
            Err(e) => Err(e),
        }
    }
}

impl FromArg for u16 {
    /// A decimal number in range converts to its value.
    fn from_arg(arg: &[u8]) -> Result<u16, FromArgError> {
        match parse_unsigned_decimal(arg, u16::MAX as u128, "u16".as_bytes()) {
            Ok(v) => Ok(v as u16),
            Err(e) => Err(e),
        }
    }
}

impl FromArg for u32 {
    /// A decimal number in range converts to its value.
    fn from_arg(arg: &[u8]) -> Result<u32, FromArgError> {
        match parse_unsigned_decimal(arg, u32::MAX as u128, "u32".as_bytes()) {
            Ok(v) => Ok(v as u32),
            Err(e) => Err(e),
        }
    }
}

impl FromArg for u64 {
    /// A decimal number in range converts to its value.
    fn from_arg(arg: &[u8]) -> Result<u64, FromArgError> {
        match parse_unsigned_decimal(arg, u64::MAX as u128, "u64".as_bytes()) {
            Ok(v) => Ok(v as u64),
            Err(e) => Err(e),
        }
    }
}

impl FromArg for u128 {
    /// A decimal number in range converts to its value.
    fn from_arg(arg: &[u8]) -> Result<u128, FromArgError> {
        parse_unsigned_decimal(arg, u128::MAX, "u128".as_bytes())
    }
}

impl FromArg for usize {
    /// A decimal number in range converts to its value.
    fn from_arg(arg: &[u8]) -> Result<usize, FromArgError> {
        match parse_unsigned_decimal(arg, usize::MAX as u128, "usize".as_bytes()) {
            Ok(v) => Ok(v as usize),
            Err(e) => Err(e),
        }
    }
}

impl FromArg for i8 {
    /// A decimal number in range, optionally signed, converts to its
    /// value.
    fn from_arg(arg: &[u8]) -> Result<i8, FromArgError> {
        match parse_signed_decimal(arg, i8::MAX as u128, 128u128, "i8".as_bytes()) {
            Ok((negative, magnitude)) => {
                if negative {
                    if magnitude == 128u128 {
                        Ok(i8::MIN)
                    } else {
                        Ok(-(magnitude as i8))
                    }
                } else {
                    Ok(magnitude as i8)
                }
            },
            Err(e) => Err(e),
        }
    }
}

impl FromArg for i16 {
    /// A decimal number in range, optionally signed, converts to its
    /// value.
    fn from_arg(arg: &[u8]) -> Result<i16, FromArgError> {
        match parse_signed_decimal(arg, i16::MAX as u128, 32768u128, "i16".as_bytes()) {
            Ok((negative, magnitude)) => {
                if negative {
                    if magnitude == 32768u128 {
                        Ok(i16::MIN)
                    } else {
                        Ok(-(magnitude as i16))
                    }
                } else {
                    Ok(magnitude as i16)
                }
            },
            Err(e) => Err(e),
        }
    }
}

impl FromArg for i32 {
    /// A decimal number in range, optionally signed, converts to its
    /// value.
    fn from_arg(arg: &[u8]) -> Result<i32, FromArgError> {
        match parse_signed_decimal(arg, i32::MAX as u128, 2147483648u128, "i32".as_bytes()) {
            Ok((negative, magnitude)) => {
                if negative {
                    if magnitude == 2147483648u128 {
                        Ok(i32::MIN)
                    } else {
                        Ok(-(magnitude as i32))
                    }
                } else {
                    Ok(magnitude as i32)
                }
            },
            Err(e) => Err(e),
        }
    }
}

impl FromArg for i64 {
    /// A decimal number in range, optionally signed, converts to its
    /// value.
    fn from_arg(arg: &[u8]) -> Result<i64, FromArgError> {
        match parse_signed_decimal(arg, i64::MAX as u128, 9223372036854775808u128, "i64".as_bytes()) {
            Ok((negative, magnitude)) => {
                if negative {
                    if magnitude == 9223372036854775808u128 {
                        Ok(i64::MIN)
                    } else {
                        Ok(-(magnitude as i64))
                    }
                } else {
                    Ok(magnitude as i64)
                }
            },
            Err(e) => Err(e),
        }
    }
}

impl FromArg for i128 {
    /// A decimal number in range, optionally signed, converts to its
    /// value.
    fn from_arg(arg: &[u8]) -> Result<i128, FromArgError> {
        match parse_signed_decimal(
            arg,
            i128::MAX as u128,
            170141183460469231731687303715884105728u128,
            "i128".as_bytes(),
        ) {
            Ok((negative, magnitude)) => {
                if negative {
                    if magnitude == 170141183460469231731687303715884105728u128 {
                        Ok(i128::MIN)
                    } else {
                        Ok(-(magnitude as i128))
                    }
                } else {
                    Ok(magnitude as i128)
                }
            },
            Err(e) => Err(e),
        }
    }
}

impl FromArg for isize {
    /// A decimal number in range, optionally signed, converts to its
    /// value.
    fn from_arg(arg: &[u8]) -> Result<isize, FromArgError> {
        match parse_signed_decimal(
            arg,
            isize::MAX as u128,
            isize::MAX as u128 + 1,
            "isize".as_bytes(),
        ) {
            Ok((negative, magnitude)) => {
                if negative {
                    if magnitude == isize::MAX as u128 + 1 {
                        Ok(isize::MIN)
                    } else {
                        Ok(-(magnitude as isize))
                    }
                } else {
                    Ok(magnitude as isize)
                }
            },
            Err(e) => Err(e),
        }
    }
}

} // verus!
