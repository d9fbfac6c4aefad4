use embedded_cli::autocomplete::Autocompletion;
use embedded_cli::autocomplete::Request;

#[test]
fn no_merge() {
    let autocompletion = Autocompletion::new(64);

    assert!(!autocompletion.is_partial());
    assert_eq!(autocompletion.autocompleted(), None);
}

#[test]
fn merge_single() {
    for (text, expected) in [("abc", "abc"), ("", "")] {
        let mut autocompletion = Autocompletion::new(64);

        autocompletion.merge_autocompletion(text.as_bytes());

        assert!(!autocompletion.is_partial());
        assert_eq!(autocompletion.autocompleted(), Some(expected.as_bytes().to_vec()));
    }
}

#[test]
fn merge_multiple() {
    for (text1, text2, expected) in [
        ("abc1", "abc2", "abc"),
        ("ab", "abc", "ab"),
        ("abc", "ab", "ab"),
        ("", "ab", ""),
        ("ab", "", ""),
        ("abc", "def", ""),
    ] {
        let mut autocompletion = Autocompletion::new(64);

        autocompletion.merge_autocompletion(text1.as_bytes());
        autocompletion.merge_autocompletion(text2.as_bytes());

        assert!(autocompletion.is_partial());
        assert_eq!(autocompletion.autocompleted(), Some(expected.as_bytes().to_vec()));
    }
}

#[test]
fn merge_too_long_for_capacity() {
    let mut autocompletion = Autocompletion::new(2);
    autocompletion.merge_autocompletion(b"abc");
    assert_eq!(autocompletion.autocompleted(), None);
    assert!(!autocompletion.is_partial());
}

#[test]
fn merge_without_capacity() {
    let mut autocompletion = Autocompletion::new(0);
    autocompletion.merge_autocompletion(b"abc");
    assert!(autocompletion.is_partial());
    assert_eq!(autocompletion.autocompleted(), Some(Vec::new()));
}

#[test]
fn mark_partial_sticks() {
    let mut autocompletion = Autocompletion::new(8);
    autocompletion.merge_autocompletion(b"abc");
    autocompletion.mark_partial();
    assert!(autocompletion.is_partial());
    assert_eq!(autocompletion.autocompleted(), Some(b"abc".to_vec()));
}

#[test]
fn request_from_input() {
    assert!(Request::from_input(b"").is_none());
    assert!(Request::from_input(b"   ").is_none());
    assert!(Request::from_input(b"get led").is_none());
    assert!(matches!(
        Request::from_input(b"  get"),
        Some(Request::CommandName(v)) if v == b"get".to_vec()
    ));
}
