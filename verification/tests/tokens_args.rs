use embedded_cli::arguments::Arg;
use embedded_cli::arguments::FromArg;
use embedded_cli::arguments::Args;
use embedded_cli::token::Tokens;

fn tokenize(input: &str) -> Tokens {
    Tokens::new(input.as_bytes().to_vec())
}

fn collect_tokens(tokens: &Tokens) -> Vec<String> {
    let mut it = tokens.iter();
    let mut out = Vec::new();
    while let Some(tok) = it.next() {
        out.push(String::from_utf8(tok).unwrap());
    }
    out
}

#[test]
fn tokenizer_rewrites_in_place() {
    for (input, expected) in [
        ("", ""),
        ("   ", ""),
        ("abc", "abc"),
        ("  abc ", "abc"),
        ("  abc  def ", "abc\0def"),
        ("  abc  def gh ", "abc\0def\0gh"),
        ("abc  def gh", "abc\0def\0gh"),
        (r#""abc""#, "abc"),
        (r#"  "abc" "#, "abc"),
        (r#"  "  abc " "#, "  abc "),
        (r#"  "  abc  "#, "  abc  "),
        (r#"  " abc"   "de fg " "  he  yw""#, " abc\0de fg \0  he  yw"),
        (r#"  "ab \"c\\d\" " "#, r#"ab "c\d" "#),
        (r#""abc\\""#, r#"abc\"#),
    ] {
        let result = tokenize(input);
        assert_eq!(result.into_raw(), expected.as_bytes());
    }
}

#[test]
fn tokenizer_round_trip() {
    let tokens = tokenize(r#"cmd "a b" c"#);
    assert_eq!(collect_tokens(&tokens), vec!["cmd", "a b", "c"]);
}

#[test]
fn tokenizer_empty_quotes() {
    let tokens = tokenize(r#""""#);
    assert!(!tokens.is_empty());
    assert_eq!(collect_tokens(&tokens), vec![""]);
}

#[test]
fn tokenizer_all_spaces() {
    let tokens = tokenize("     ");
    assert!(tokens.is_empty());
    assert_eq!(collect_tokens(&tokens), Vec::<String>::new());
}

#[test]
fn test_eq() {
    let args1 = Args::new(tokenize("arg1 arg2"));
    let args2 = Args::new(tokenize("   arg1    arg2  "));

    assert_eq!(args1, args2)
}

fn classify(input: &str) -> Vec<Arg> {
    let args = Args::new(tokenize(input));
    let mut it = args.iter();
    let mut out = Vec::new();
    while let Some(arg) = it.next() {
        out.push(arg);
    }
    out
}

#[test]
fn arg_tokens() {
    assert_eq!(
        classify("arg1 --option1 val1 -f val2 -vs"),
        vec![
            Arg::Value(b"arg1".to_vec()),
            Arg::LongOption(b"option1".to_vec()),
            Arg::Value(b"val1".to_vec()),
            Arg::ShortOption('f'),
            Arg::Value(b"val2".to_vec()),
            Arg::ShortOption('v'),
            Arg::ShortOption('s'),
        ]
    );
}

#[test]
fn arg_tokens_collapsed_short_options() {
    assert_eq!(
        classify("-vhs"),
        vec![
            Arg::ShortOption('v'),
            Arg::ShortOption('h'),
            Arg::ShortOption('s'),
        ]
    );
}

#[test]
fn arg_tokens_double_dash() {
    assert_eq!(
        classify("a -- -b"),
        vec![
            Arg::Value(b"a".to_vec()),
            Arg::DoubleDash,
            Arg::Value(b"-b".to_vec()),
        ]
    );
    assert_eq!(
        classify("arg1 --option1 -- val1 -f val2 -vs"),
        vec![
            Arg::Value(b"arg1".to_vec()),
            Arg::LongOption(b"option1".to_vec()),
            Arg::DoubleDash,
            Arg::Value(b"val1".to_vec()),
            Arg::Value(b"-f".to_vec()),
            Arg::Value(b"val2".to_vec()),
            Arg::Value(b"-vs".to_vec()),
        ]
    );
}

#[test]
fn arg_tokens_utf8_short_options() {
    assert_eq!(
        classify("arg1 -бj佗𑿌"),
        vec![
            Arg::Value(b"arg1".to_vec()),
            Arg::ShortOption('б'),
            Arg::ShortOption('j'),
            Arg::ShortOption('佗'),
            Arg::ShortOption('𑿌'),
        ]
    );
}

#[test]
fn args_peek_and_into_args() {
    let args = Args::new(tokenize("get --config normal rest"));
    assert_eq!(args.peek_raw(), Some(b"get".to_vec()));
    assert!(!args.is_empty());

    let mut it = args.iter();
    assert_eq!(it.next(), Some(Arg::Value(b"get".to_vec())));
    let remaining = it.into_args();
    assert_eq!(remaining.peek_raw(), Some(b"--config".to_vec()));
}

#[test]
fn from_arg_decimal() {
    assert_eq!(u32::from_arg(b"0").unwrap(), 0);
    assert_eq!(u32::from_arg(b"42").unwrap(), 42);
    assert_eq!(u32::from_arg(b"4294967295").unwrap(), u32::MAX);
    assert!(u32::from_arg(b"4294967296").is_err());
    assert!(u32::from_arg(b"").is_err());
    assert!(u32::from_arg(b"12a").is_err());
    assert!(u32::from_arg(b"-3").is_err());

    let err = u32::from_arg(b"led").unwrap_err();
    assert_eq!(err.value, b"led".to_vec());
    assert_eq!(err.expected, b"u32".to_vec());

    assert_eq!(Vec::<u8>::from_arg(b"led").unwrap(), b"led".to_vec());
}

#[test]
fn from_arg_all_widths() {
    assert_eq!(u8::from_arg(b"255").unwrap(), 255);
    assert!(u8::from_arg(b"256").is_err());
    assert_eq!(u16::from_arg(b"65535").unwrap(), 65535);
    assert_eq!(u64::from_arg(b"18446744073709551615").unwrap(), u64::MAX);
    assert_eq!(
        u128::from_arg(b"340282366920938463463374607431768211455").unwrap(),
        u128::MAX
    );
    assert_eq!(usize::from_arg(b"42").unwrap(), 42);

    assert_eq!(i8::from_arg(b"-128").unwrap(), i8::MIN);
    assert_eq!(i8::from_arg(b"127").unwrap(), i8::MAX);
    assert!(i8::from_arg(b"128").is_err());
    assert!(i8::from_arg(b"-129").is_err());
    assert_eq!(i16::from_arg(b"-32768").unwrap(), i16::MIN);
    assert_eq!(i32::from_arg(b"+17").unwrap(), 17);
    assert_eq!(i32::from_arg(b"-2147483648").unwrap(), i32::MIN);
    assert_eq!(i64::from_arg(b"-9223372036854775808").unwrap(), i64::MIN);
    assert_eq!(
        i128::from_arg(b"-170141183460469231731687303715884105728").unwrap(),
        i128::MIN
    );
    assert_eq!(isize::from_arg(b"-5").unwrap(), -5);
    assert!(i32::from_arg(b"-").is_err());
    assert!(i32::from_arg(b"").is_err());
}

#[test]
fn from_arg_bool_and_char() {
    assert_eq!(bool::from_arg(b"true").unwrap(), true);
    assert_eq!(bool::from_arg(b"false").unwrap(), false);
    assert!(bool::from_arg(b"TRUE").is_err());
    assert!(bool::from_arg(b"").is_err());

    assert_eq!(char::from_arg(b"x").unwrap(), 'x');
    assert_eq!(char::from_arg("б".as_bytes()).unwrap(), 'б');
    assert_eq!(char::from_arg("𑿌".as_bytes()).unwrap(), '𑿌');
    assert!(char::from_arg(b"xy").is_err());
    assert!(char::from_arg(b"").is_err());
}
