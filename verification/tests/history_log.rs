use embedded_cli::history::History;

#[test]
fn empty() {
    let mut history = History::new(64);

    assert_eq!(history.next_newer(), None);
    assert_eq!(history.next_older(), None);
}

#[test]
fn text_with_nulls() {
    let mut history = History::new(64);

    history.push(b"ab\0c");

    assert_eq!(history.next_newer(), None);
    assert_eq!(history.next_older(), None);
}

#[test]
fn log_navigation() {
    let mut history = History::new(32);

    history.push(b"abc");
    history.push(b"def");
    history.push(b"ghi");

    assert_eq!(history.next_newer(), None);
    assert_eq!(history.next_older(), Some(b"ghi".to_vec()));
    assert_eq!(history.next_older(), Some(b"def".to_vec()));
    assert_eq!(history.next_older(), Some(b"abc".to_vec()));
    assert_eq!(history.next_older(), None);
    assert_eq!(history.next_newer(), Some(b"def".to_vec()));
    assert_eq!(history.next_newer(), Some(b"ghi".to_vec()));
    assert_eq!(history.next_newer(), None);
    assert_eq!(history.next_older(), Some(b"ghi".to_vec()));
    assert_eq!(history.next_older(), Some(b"def".to_vec()));

    history.push(b"jkl");

    assert_eq!(history.next_newer(), None);
    assert_eq!(history.next_older(), Some(b"jkl".to_vec()));
    assert_eq!(history.next_older(), Some(b"ghi".to_vec()));
    assert_eq!(history.next_older(), Some(b"def".to_vec()));

    history.push(b"ghi");

    assert_eq!(history.next_older(), Some(b"ghi".to_vec()));
    assert_eq!(history.next_older(), Some(b"jkl".to_vec()));
    assert_eq!(history.next_older(), Some(b"def".to_vec()));
    assert_eq!(history.next_older(), Some(b"abc".to_vec()));
    assert_eq!(history.next_older(), None);
}

#[test]
fn overflow_small() {
    let mut history = History::new(12);

    history.push(b"abc");
    history.push(b"def");
    history.push(b"ghi");
    history.push(b"jkl");

    assert_eq!(history.next_newer(), None);
    assert_eq!(history.next_older(), Some(b"jkl".to_vec()));
    assert_eq!(history.next_older(), Some(b"ghi".to_vec()));
    assert_eq!(history.next_older(), Some(b"def".to_vec()));
    assert_eq!(history.next_older(), None);
}

#[test]
fn overflow_big() {
    let mut history = History::new(10);

    history.push(b"abc");
    history.push(b"def");
    history.push(b"ghijklm");

    assert_eq!(history.next_newer(), None);
    assert_eq!(history.next_older(), Some(b"ghijklm".to_vec()));
    assert_eq!(history.next_older(), None);
}

#[test]
fn duplicate_when_full() {
    let mut history = History::new(10);

    history.push(b"abc");
    history.push(b"defgh");

    assert_eq!(history.next_older(), Some(b"defgh".to_vec()));
    assert_eq!(history.next_older(), Some(b"abc".to_vec()));
    assert_eq!(history.next_older(), None);

    history.push(b"abc");

    assert_eq!(history.next_older(), Some(b"abc".to_vec()));
    assert_eq!(history.next_older(), Some(b"defgh".to_vec()));
    assert_eq!(history.next_older(), None);

    history.push(b"abc");

    assert_eq!(history.next_older(), Some(b"abc".to_vec()));
    assert_eq!(history.next_older(), Some(b"defgh".to_vec()));
    assert_eq!(history.next_older(), None);
}

#[test]
fn empty_and_oversized_lines_ignored() {
    let mut history = History::new(8);
    history.push(b"");
    history.push(b"waytoolongforthis");
    assert_eq!(history.next_older(), None);

    history.push(b"ok");
    assert_eq!(history.next_older(), Some(b"ok".to_vec()));
}
