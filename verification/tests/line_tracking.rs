use embedded_cli::writer::EmptyWriter;
use embedded_cli::writer::Writer;

#[test]
fn detect_dirty() {
    let mut writer = Writer::new(EmptyWriter);

    assert!(!writer.is_dirty());

    writer.write_str(b"abc").unwrap();
    assert!(writer.is_dirty());

    writer.write_str(b"\r").unwrap();
    assert!(writer.is_dirty());

    writer.write_str(b"\n").unwrap();
    assert!(!writer.is_dirty());

    writer.write_str(b"abc\r\n").unwrap();
    assert!(!writer.is_dirty());
}

#[test]
fn writeln_leaves_clean_line() {
    let mut writer = Writer::new(EmptyWriter);
    writer.writeln_str(b"abc").unwrap();
    assert!(!writer.is_dirty());
}

use std::cell::RefCell;
use std::rc::Rc;

use embedded_cli::writer::Sink;
use embedded_cli::writer::SinkError;

#[derive(Clone)]
struct Recorder(Rc<RefCell<Vec<u8>>>);

impl Sink for Recorder {
    fn write_bytes(&mut self, bytes: &[u8]) -> Result<(), SinkError> {
        self.0.borrow_mut().extend_from_slice(bytes);
        Ok(())
    }

    fn flush(&mut self) -> Result<(), SinkError> {
        Ok(())
    }
}

#[test]
fn line_feed_becomes_crlf() {
    let out = Rc::new(RefCell::new(Vec::new()));
    let mut writer = Writer::new(Recorder(out.clone()));
    writer.write_str(b"ab\ncd").unwrap();
    assert_eq!(out.borrow().as_slice(), b"ab\r\ncd");
}

#[test]
fn list_element_is_aligned() {
    let out = Rc::new(RefCell::new(Vec::new()));
    let mut writer = Writer::new(Recorder(out.clone()));
    writer.write_list_element(b"get", b"reads a value", 7).unwrap();
    writer.write_title(b"COMMANDS").unwrap();
    assert_eq!(out.borrow().as_slice(), b"  get      reads a value\r\nCOMMANDS");
    assert!(writer.is_dirty());
}
