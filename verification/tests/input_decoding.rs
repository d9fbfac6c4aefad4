use embedded_cli::input::ControlInput;
use embedded_cli::input::Input;
use embedded_cli::input::InputGenerator;
use embedded_cli::utf8::Utf8Accum;

#[test]
fn utf8_support() {
    let mut accum = Utf8Accum::new();

    let expected_str = "abcdабвг佐佗佟𑿁𑿆𑿌";

    let mut text: Vec<u8> = Vec::new();

    for &b in expected_str.as_bytes() {
        if let Some(t) = accum.push_byte(b) {
            text.extend_from_slice(&t);
        }
    }

    assert_eq!(text, expected_str.as_bytes());
}

#[test]
fn reject_overlong_encoding() {
    let mut accum = Utf8Accum::new();
    assert_eq!(accum.push_byte(0xC0), None);
    assert_eq!(accum.push_byte(0x80), None);
    assert_eq!(accum.push_byte(b'a'), Some(b"a".to_vec()));
}

#[test]
fn reject_invalid_lead() {
    let mut accum = Utf8Accum::new();
    assert_eq!(accum.push_byte(0xF9), None);
    assert_eq!(accum.push_byte(b'z'), Some(b"z".to_vec()));
}

#[test]
fn malformed_lead_resets_expectation() {
    let mut accum = Utf8Accum::new();
    // a 3-byte lead starts an expectation of two continuation bytes
    assert_eq!(accum.push_byte(0xE4), None);
    // the malformed lead is rejected and resets that expectation,
    // so the continuation bytes that follow complete nothing
    assert_eq!(accum.push_byte(0xF9), None);
    assert_eq!(accum.push_byte(0x80), None);
    assert_eq!(accum.push_byte(0x80), None);
    assert_eq!(accum.push_byte(b'a'), Some(b"a".to_vec()));
}

#[test]
fn process_crlf() {
    let mut accum = InputGenerator::new();
    accum.accept(b'\r');

    assert_eq!(accum.accept(b'\n'), None);
    assert_eq!(accum.accept(b'a'), Some(Input::Char(b"a".to_vec())));
}

#[test]
fn process_lfcr() {
    let mut accum = InputGenerator::new();
    accum.accept(b'\n');

    assert_eq!(accum.accept(b'\r'), None);
    assert_eq!(accum.accept(b'a'), Some(Input::Char(b"a".to_vec())));
}

#[test]
fn process_input() {
    let mut accum = InputGenerator::new();

    assert_eq!(accum.accept(b'a'), Some(Input::Char(b"a".to_vec())));
    assert_eq!(accum.accept(b'b'), Some(Input::Char(b"b".to_vec())));
    assert_eq!(accum.accept("б".as_bytes()[0]), None);
    assert_eq!(
        accum.accept("б".as_bytes()[1]),
        Some(Input::Char("б".as_bytes().to_vec()))
    );
    assert_eq!(
        accum.accept(b'\n'),
        Some(Input::Control(ControlInput::Enter))
    );
    assert_eq!(accum.accept(b'a'), Some(Input::Char(b"a".to_vec())));
    assert_eq!(accum.accept(b'b'), Some(Input::Char(b"b".to_vec())));
    assert_eq!(accum.accept(b'\t'), Some(Input::Control(ControlInput::Tab)));
    assert_eq!(accum.accept(0x1B), None);
    assert_eq!(accum.accept(b'['), None);
    assert_eq!(accum.accept(b'A'), Some(Input::Control(ControlInput::Up)));
    assert_eq!(accum.accept(0x1B), None);
    assert_eq!(accum.accept(b'['), None);
    assert_eq!(accum.accept(b'B'), Some(Input::Control(ControlInput::Down)));
    assert_eq!(accum.accept(b'a'), Some(Input::Char(b"a".to_vec())));
    assert_eq!(accum.accept(b'b'), Some(Input::Char(b"b".to_vec())));
    assert_eq!(accum.accept(0x1B), None);
    assert_eq!(accum.accept(b'['), None);
    assert_eq!(accum.accept(b'B'), Some(Input::Control(ControlInput::Down)));
}

#[test]
fn process_csi_with_parameters() {
    let mut accum = InputGenerator::new();
    assert_eq!(accum.accept(0x1B), None);
    assert_eq!(accum.accept(b'['), None);
    assert_eq!(accum.accept(b'2'), None);
    assert_eq!(accum.accept(b'4'), None);
    assert_eq!(accum.accept(b'B'), Some(Input::Control(ControlInput::Down)));
}

#[test]
fn process_c0_controls() {
    assert_eq!(
        InputGenerator::new().accept(0x08),
        Some(Input::Control(ControlInput::Backspace))
    );
    assert_eq!(
        InputGenerator::new().accept(b'\t'),
        Some(Input::Control(ControlInput::Tab))
    );
    assert_eq!(
        InputGenerator::new().accept(b'\r'),
        Some(Input::Control(ControlInput::Enter))
    );
    assert_eq!(
        InputGenerator::new().accept(b'\n'),
        Some(Input::Control(ControlInput::Enter))
    );
    assert_eq!(
        InputGenerator::new()
            .accept(0x1B)
            .or(InputGenerator::new().accept(0x07)),
        None
    );
}
