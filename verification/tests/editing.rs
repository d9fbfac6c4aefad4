use embedded_cli::editor::Editor;

#[test]
fn add_chars_to_back() {
    let mut editor = Editor::new(128);

    let text = "abcdабвг佐佗佟𑿁𑿆𑿌";

    for (i, b) in text.chars().enumerate() {
        let mut buffer = [0u8; 4];
        editor.insert(b.encode_utf8(&mut buffer).as_bytes());
        let exp: String = text.chars().take(i + 1).collect();
        assert_eq!(editor.text(), exp.as_bytes());
    }
}

#[test]
fn add_chars_to_front() {
    let mut editor = Editor::new(128);

    let text = "abcdабвг佐佗佟𑿁𑿆𑿌";

    for (i, b) in text.chars().enumerate() {
        let mut buffer = [0u8; 4];
        editor.insert(b.encode_utf8(&mut buffer).as_bytes());
        assert!(editor.move_left());
        let exp = text
            .chars()
            .take(i + 1)
            .collect::<String>()
            .chars()
            .rev()
            .collect::<String>();
        assert_eq!(editor.text(), exp.as_bytes());
    }
}

#[test]
fn remove() {
    let mut editor = Editor::new(128);

    editor.insert("adbc佐佗𑿌".as_bytes());
    assert_eq!(editor.cursor(), 7);
    editor.remove();

    assert_eq!(editor.text(), "adbc佐佗𑿌".as_bytes());
    assert_eq!(editor.cursor(), 7);

    editor.move_left();
    editor.remove();

    assert_eq!(editor.text(), "adbc佐佗".as_bytes());
    assert_eq!(editor.cursor(), 6);

    editor.move_left();
    editor.move_left();
    editor.remove();

    assert_eq!(editor.text(), "adbc佗".as_bytes());
    assert_eq!(editor.cursor(), 4);

    editor.move_left();
    editor.move_left();
    editor.move_left();
    editor.remove();

    assert_eq!(editor.text(), "abc佗".as_bytes());
    assert_eq!(editor.cursor(), 1);

    editor.move_left();
    editor.remove();

    assert_eq!(editor.text(), "bc佗".as_bytes());
    assert_eq!(editor.cursor(), 0);

    editor.remove();
    assert_eq!(editor.text(), "c佗".as_bytes());

    editor.remove();
    assert_eq!(editor.text(), "佗".as_bytes());

    editor.remove();
    assert_eq!(editor.text(), "".as_bytes());
}

#[test]
fn move_left_insert() {
    for (initial, count, inserted, expected) in [
        ("abc", 1, "Ж", "abЖc"),
        ("abc", 2, "Ж", "aЖbc"),
        ("abc", 3, "Ж ", "Ж abc"),
        ("abc", 4, "Ж ", "Ж abc"),
        ("adbc佐佗𑿌", 2, "Ж", "adbc佐Ж佗𑿌"),
    ] {
        let mut editor = Editor::new(128);
        editor.insert(initial.as_bytes());
        for _ in 0..count {
            editor.move_left();
        }
        editor.insert(inserted.as_bytes());
        assert_eq!(editor.text(), expected.as_bytes());
    }
}

#[test]
fn insert_rejected_when_full() {
    let mut editor = Editor::new(4);
    assert!(editor.insert(b"abcd"));
    assert!(!editor.insert(b"e"));
    assert_eq!(editor.text(), b"abcd");
    assert_eq!(editor.cursor(), 4);
}

#[test]
fn text_range_by_chars() {
    let mut editor = Editor::new(128);
    editor.insert("adbc佐佗𑿌".as_bytes());

    assert_eq!(editor.text_range(0, 7), "adbc佐佗𑿌".as_bytes());
    assert_eq!(editor.text_range(0, 2), "ad".as_bytes());
    assert_eq!(editor.text_range(2, 7), "bc佐佗𑿌".as_bytes());
    assert_eq!(editor.text_range(5, 7), "佗𑿌".as_bytes());
    assert_eq!(editor.text_range(0, 6), "adbc佐佗".as_bytes());
    assert_eq!(editor.text_range(3, 5), "c佐".as_bytes());
    assert_eq!(editor.text_range(3, 6), "c佐佗".as_bytes());
    assert_eq!(editor.text_range(3, 3), "".as_bytes());
    assert_eq!(editor.text_range(0, 0), "".as_bytes());
    assert_eq!(editor.text_range(5, 6), "佗".as_bytes());
    assert_eq!(editor.text_range(0, 99), "adbc佐佗𑿌".as_bytes());
    assert_eq!(editor.text_range(9, 12), "".as_bytes());
}
