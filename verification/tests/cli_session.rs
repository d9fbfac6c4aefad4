use std::cell::RefCell;
use std::rc::Rc;

use embedded_cli::arguments::Arg;
use embedded_cli::autocomplete::Autocompletion;
use embedded_cli::autocomplete::Request;
use embedded_cli::cli::Cli;
use embedded_cli::cli::CliHandle;
use embedded_cli::command::RawCommand;
use embedded_cli::service::Autocomplete;
use embedded_cli::service::FromRaw;
use embedded_cli::service::Help;
use embedded_cli::service::HelpError;
use embedded_cli::service::ParseError;
use embedded_cli::writer::Sink;
use embedded_cli::writer::SinkError;

/// A sink that records everything written, shared with the test.
#[derive(Clone)]
struct RecSink(Rc<RefCell<Vec<u8>>>);

impl Sink for RecSink {
    fn write_bytes(&mut self, bytes: &[u8]) -> Result<(), SinkError> {
        self.0.borrow_mut().extend_from_slice(bytes);
        Ok(())
    }

    fn flush(&mut self) -> Result<(), SinkError> {
        Ok(())
    }
}

fn char_pos(s: &str, pos: usize) -> usize {
    s.char_indices().nth(pos).map(|(i, _)| i).unwrap_or(s.len())
}

/// Replays recorded bytes as a small terminal: returns the screen lines
/// (right-trimmed) and the cursor column.
fn terminal_view(received: &[u8]) -> (Vec<String>, usize) {
    let mut output: Vec<String> = vec![String::new()];
    let mut cursor: usize = 0;
    let chars: Vec<char> = std::str::from_utf8(received).unwrap().chars().collect();
    let mut i = 0;
    while i < chars.len() {
        let c = chars[i];
        if c == '\u{1b}' {
            assert!(chars[i + 1] == '[');
            let mut j = i + 2;
            let mut params = String::new();
            while (0x30..=0x3f).contains(&(chars[j] as u32)) {
                params.push(chars[j]);
                j += 1;
            }
            while (0x20..=0x2f).contains(&(chars[j] as u32)) {
                j += 1;
            }
            let current = output.last_mut().unwrap();
            match chars[j] {
                'C' => cursor += 1,
                'D' => {
                    if cursor > 0 {
                        cursor -= 1;
                    }
                }
                'P' => {
                    if current.chars().count() > cursor {
                        let at = char_pos(current, cursor);
                        current.remove(at);
                    }
                }
                '@' => {
                    if current.chars().count() > cursor {
                        let at = char_pos(current, cursor);
                        current.insert(at, ' ');
                    }
                }
                'K' => {
                    assert_eq!(params, "2");
                    current.clear();
                }
                other => panic!("unexpected control sequence final byte {other:?}"),
            }
            i = j + 1;
        } else {
            match c {
                '\r' => cursor = 0,
                '\n' => output.push(String::new()),
                c if c >= ' ' => {
                    let current = output.last_mut().unwrap();
                    if current.chars().count() > cursor {
                        let at = char_pos(current, cursor);
                        current.remove(at);
                    } else {
                        while current.chars().count() < cursor {
                            current.push(' ');
                        }
                    }
                    let at = char_pos(current, cursor);
                    current.insert(at, c);
                    cursor += 1;
                }
                other => panic!("unexpected control byte {other:?}"),
            }
            i += 1;
        }
    }
    let output = output.into_iter().map(|l| l.trim_end().to_string()).collect();
    (output, cursor)
}

/// A schema of three fixed commands, with prefix autocompletion.
#[derive(Debug, Clone, PartialEq)]
enum TestCommand {
    GetLed,
    GetAdc,
    Exit,
}

impl Autocomplete for TestCommand {
    fn autocomplete(request: &Request, completion: &mut Autocompletion) {
        #[allow(unreachable_patterns)]
        match request {
            Request::CommandName(prefix) => {
                for name in [&b"get-led"[..], &b"get-adc"[..], &b"exit"[..]] {
                    if name.starts_with(prefix.as_slice()) {
                        completion.merge_autocompletion(&name[prefix.len()..]);
                    }
                }
            }
            _ => {}
        }
    }
}

impl Help for TestCommand {
    fn command_count() -> usize {
        3
    }

    fn list_commands(_out: &mut Vec<u8>) {}

    fn command_help(_command: &RawCommand, _out: &mut Vec<u8>) -> Result<(), HelpError> {
        Err(HelpError::UnknownCommand)
    }
}

impl FromRaw for TestCommand {
    fn parse(raw: RawCommand) -> Result<Self, ParseError> {
        match raw.name().as_slice() {
            b"get-led" => Ok(TestCommand::GetLed),
            b"get-adc" => Ok(TestCommand::GetAdc),
            b"exit" => Ok(TestCommand::Exit),
            _ => Err(ParseError::UnknownCommand),
        }
    }
}

/// A pass-through schema: no completion, no help, every command kept as
/// its name and classified arguments.
#[derive(Debug, Clone, PartialEq)]
struct OwnedCommand {
    name: String,
    args: Vec<OwnedArg>,
}

#[derive(Debug, Clone, PartialEq)]
enum OwnedArg {
    DoubleDash,
    LongOption(String),
    ShortOption(char),
    Value(String),
}

impl Autocomplete for OwnedCommand {
    fn autocomplete(_request: &Request, _completion: &mut Autocompletion) {}
}

impl Help for OwnedCommand {
    fn command_count() -> usize {
        0
    }

    fn list_commands(_out: &mut Vec<u8>) {}

    fn command_help(_command: &RawCommand, _out: &mut Vec<u8>) -> Result<(), HelpError> {
        Err(HelpError::UnknownCommand)
    }
}

impl FromRaw for OwnedCommand {
    fn parse(raw: RawCommand) -> Result<Self, ParseError> {
        let (name, args) = raw.into_parts();
        let mut it = args.iter();
        let mut argv = Vec::new();
        while let Some(arg) = it.next() {
            argv.push(match arg {
                Arg::DoubleDash => OwnedArg::DoubleDash,
                Arg::LongOption(n) => OwnedArg::LongOption(String::from_utf8(n).unwrap()),
                Arg::ShortOption(c) => OwnedArg::ShortOption(c),
                Arg::Value(v) => OwnedArg::Value(String::from_utf8(v).unwrap()),
            });
        }
        Ok(OwnedCommand { name: String::from_utf8(name).unwrap(), args: argv })
    }
}

struct Session<C> {
    cli: Cli<RecSink>,
    out: Rc<RefCell<Vec<u8>>>,
    received: Vec<C>,
}

impl<C: Autocomplete + Help + FromRaw> Session<C> {
    fn with_history(history_size: usize) -> Session<C> {
        let out = Rc::new(RefCell::new(Vec::new()));
        let cli = Cli::new(RecSink(out.clone()), 80, history_size, b"$ ").unwrap();
        Session { cli, out, received: Vec::new() }
    }

    fn new() -> Session<C> {
        Session::with_history(500)
    }

    fn process_str(&mut self, text: &str) {
        for b in text.bytes() {
            if let Some(cmd) = self.cli.process_byte::<C>(b).unwrap() {
                self.received.push(cmd);
                self.cli.end_command().unwrap();
            }
        }
    }

    fn send_tab(&mut self) {
        self.process_str("\t")
    }

    fn send_enter(&mut self) {
        self.process_str("\n")
    }

    fn send_backspace(&mut self) {
        self.process_str("\x08")
    }

    fn send_up(&mut self) {
        self.process_str("\x1B[A")
    }

    fn send_down(&mut self) {
        self.process_str("\x1B[B")
    }

    fn send_left(&mut self) {
        self.process_str("\x1B[D")
    }

    fn send_right(&mut self) {
        self.process_str("\x1B[C")
    }

    fn write_str(&mut self, text: &str) {
        self.cli.write_begin().unwrap();
        self.cli.write_str(text.as_bytes()).unwrap();
        self.cli.write_end().unwrap();
    }

    fn view(&self) -> (Vec<String>, usize) {
        terminal_view(&self.out.borrow())
    }

    fn assert_terminal(&self, cursor: usize, lines: Vec<&str>) {
        let (actual_lines, actual_cursor) = self.view();
        let expected: Vec<String> = lines.into_iter().map(|l| l.to_string()).collect();
        assert_eq!(actual_lines, expected);
        assert_eq!(actual_cursor, cursor);
    }
}

#[test]
fn complete_when_single_variant() {
    let mut cli = Session::<TestCommand>::new();

    cli.process_str("e");
    cli.send_tab();

    cli.assert_terminal(7, vec!["$ exit"]);

    cli.send_enter();

    assert_eq!(cli.received, vec![TestCommand::Exit]);

    cli.assert_terminal(2, vec!["$ exit", "$"]);
}

#[test]
fn complete_when_multiple_variants() {
    let mut cli = Session::<TestCommand>::new();

    cli.process_str("g");
    cli.send_tab();

    cli.assert_terminal(6, vec!["$ get-"]);

    cli.process_str("a");
    cli.send_tab();

    cli.assert_terminal(10, vec!["$ get-adc"]);

    cli.send_enter();
    cli.assert_terminal(2, vec!["$ get-adc", "$"]);
    assert_eq!(cli.received, vec![TestCommand::GetAdc]);
}

#[test]
fn complete_when_name_finished() {
    let mut cli = Session::<TestCommand>::new();

    cli.process_str("exit");
    cli.send_tab();

    cli.assert_terminal(7, vec!["$ exit"]);

    cli.send_enter();

    assert_eq!(cli.received, vec![TestCommand::Exit]);
}

#[test]
fn complete_with_leading_spaces() {
    let mut cli = Session::<TestCommand>::new();

    cli.process_str("  ex");
    cli.send_tab();

    cli.assert_terminal(9, vec!["$   exit"]);

    cli.send_enter();

    assert_eq!(cli.received, vec![TestCommand::Exit]);
}

#[test]
fn complete_with_trailing_spaces() {
    let mut cli = Session::<TestCommand>::new();

    cli.process_str("ex ");
    cli.send_tab();

    cli.assert_terminal(5, vec!["$ ex"]);
}

#[test]
fn complete_when_inside() {
    let mut cli = Session::<TestCommand>::new();

    cli.process_str("ex");
    cli.send_left();
    cli.assert_terminal(3, vec!["$ ex"]);

    cli.send_tab();
    cli.assert_terminal(7, vec!["$ exit"]);

    cli.send_enter();
    assert_eq!(cli.received, vec![TestCommand::Exit]);
}

#[test]
fn complete_when_inside_with_trailing_spaces() {
    let mut cli = Session::<TestCommand>::new();

    cli.process_str("ex ");
    cli.send_left();
    cli.send_left();
    cli.assert_terminal(3, vec!["$ ex"]);

    cli.send_tab();
    cli.assert_terminal(7, vec!["$ exit"]);

    cli.send_enter();
    assert_eq!(cli.received, vec![TestCommand::Exit]);
}

#[test]
fn complete_when_inside_after_complete() {
    let mut cli = Session::<TestCommand>::new();

    cli.process_str("e");
    cli.send_tab();
    cli.assert_terminal(7, vec!["$ exit"]);

    cli.send_left();
    cli.send_left();
    cli.send_left();
    cli.assert_terminal(4, vec!["$ exit"]);

    cli.send_tab();
    cli.assert_terminal(7, vec!["$ exit"]);

    cli.send_enter();
    assert_eq!(cli.received, vec![TestCommand::Exit]);
}

#[test]
fn complete_when_inside_without_variants() {
    let mut cli = Session::<TestCommand>::new();

    cli.process_str("do");
    cli.send_left();
    cli.assert_terminal(3, vec!["$ do"]);

    cli.send_tab();
    cli.assert_terminal(3, vec!["$ do"]);
}

#[test]
fn complete_when_inside_and_empty_completion() {
    let mut cli = Session::<TestCommand>::new();

    cli.process_str("g");
    cli.send_tab();
    cli.assert_terminal(6, vec!["$ get-"]);

    cli.send_left();
    cli.send_left();
    cli.assert_terminal(4, vec!["$ get-"]);

    cli.send_tab();
    cli.assert_terminal(6, vec!["$ get-"]);
}

#[test]
fn get_adc_completes_with_trailing_space() {
    let mut cli = Session::<TestCommand>::new();

    cli.process_str("get-adc");
    cli.send_tab();

    // unambiguous: completed to "get-adc " with one trailing space
    cli.assert_terminal(10, vec!["$ get-adc"]);

    cli.process_str("1");
    cli.assert_terminal(11, vec!["$ get-adc 1"]);
}

#[test]
fn autocomplete_disabled() {
    let mut cli = Session::<OwnedCommand>::new();

    cli.process_str("e");

    cli.send_tab();

    cli.assert_terminal(3, vec!["$ e"]);
}

#[test]
fn history_navigation() {
    let mut cli = Session::<OwnedCommand>::new();

    cli.process_str("abc");
    cli.send_enter();
    cli.process_str("test1");
    cli.send_enter();
    cli.process_str("def");
    cli.send_enter();

    cli.send_up();
    cli.assert_terminal(5, vec!["$ abc", "$ test1", "$ def", "$ def"]);

    cli.send_up();
    cli.assert_terminal(7, vec!["$ abc", "$ test1", "$ def", "$ test1"]);

    cli.send_up();
    cli.assert_terminal(5, vec!["$ abc", "$ test1", "$ def", "$ abc"]);

    cli.send_up();
    cli.assert_terminal(5, vec!["$ abc", "$ test1", "$ def", "$ abc"]);

    cli.send_down();
    cli.assert_terminal(7, vec!["$ abc", "$ test1", "$ def", "$ test1"]);

    cli.send_down();
    cli.assert_terminal(5, vec!["$ abc", "$ test1", "$ def", "$ def"]);

    cli.send_down();
    cli.assert_terminal(2, vec!["$ abc", "$ test1", "$ def", "$"]);

    cli.send_up();
    cli.send_up();
    cli.assert_terminal(7, vec!["$ abc", "$ test1", "$ def", "$ test1"]);

    cli.send_enter();
    cli.assert_terminal(2, vec!["$ abc", "$ test1", "$ def", "$ test1", "$"]);
    assert_eq!(
        cli.received.last().unwrap(),
        &OwnedCommand { name: "test1".to_string(), args: vec![] }
    );
}

#[test]
fn modify_when_in_history() {
    let mut cli = Session::<OwnedCommand>::new();

    cli.process_str("abc");
    cli.send_enter();
    cli.process_str("test1");
    cli.send_enter();
    cli.process_str("def");
    cli.send_enter();

    cli.send_up();
    cli.send_up();
    cli.assert_terminal(7, vec!["$ abc", "$ test1", "$ def", "$ test1"]);

    cli.send_backspace();
    cli.send_backspace();
    cli.process_str("a");

    cli.assert_terminal(6, vec!["$ abc", "$ test1", "$ def", "$ tesa"]);

    cli.send_up();
    cli.assert_terminal(5, vec!["$ abc", "$ test1", "$ def", "$ abc"]);

    cli.send_down();
    cli.assert_terminal(7, vec!["$ abc", "$ test1", "$ def", "$ test1"]);
}

#[test]
fn history_disabled() {
    let mut cli = Session::<OwnedCommand>::with_history(0);

    cli.process_str("abc");
    cli.send_enter();
    cli.process_str("test1");
    cli.send_enter();
    cli.process_str("def");
    cli.send_enter();

    cli.send_up();
    cli.assert_terminal(2, vec!["$ abc", "$ test1", "$ def", "$"]);

    cli.send_down();
    cli.assert_terminal(2, vec!["$ abc", "$ test1", "$ def", "$"]);
}

#[test]
fn simple_input() {
    let mut cli = Session::<OwnedCommand>::new();

    cli.assert_terminal(2, vec!["$"]);

    cli.process_str("set");

    cli.assert_terminal(5, vec!["$ set"]);

    cli.process_str(" led");

    cli.assert_terminal(9, vec!["$ set led"]);

    assert!(cli.received.is_empty());

    cli.send_enter();
    cli.assert_terminal(2, vec!["$ set led", "$"]);
    assert_eq!(
        cli.received,
        vec![OwnedCommand {
            name: "set".to_string(),
            args: vec![OwnedArg::Value("led".to_string())],
        }]
    );
}

#[test]
fn empty_input() {
    let mut cli = Session::<OwnedCommand>::new();

    cli.assert_terminal(2, vec!["$"]);

    cli.send_enter();
    cli.send_enter();

    cli.assert_terminal(2, vec!["$", "$", "$"]);

    cli.process_str("set led");

    cli.assert_terminal(9, vec!["$", "$", "$ set led"]);

    assert!(cli.received.is_empty());

    cli.send_enter();
    cli.assert_terminal(2, vec!["$", "$", "$ set led", "$"]);
    assert_eq!(
        cli.received,
        vec![OwnedCommand {
            name: "set".to_string(),
            args: vec![OwnedArg::Value("led".to_string())],
        }]
    );
}

#[test]
fn delete_with_backspace() {
    let mut cli = Session::<OwnedCommand>::new();

    cli.process_str("set");

    cli.assert_terminal(5, vec!["$ set"]);

    cli.send_backspace();

    cli.assert_terminal(4, vec!["$ se"]);

    cli.send_backspace();

    cli.assert_terminal(3, vec!["$ s"]);

    cli.send_backspace();
    cli.send_backspace();
    cli.send_backspace();

    cli.assert_terminal(2, vec!["$"]);
}

#[test]
fn move_insert() {
    let mut cli = Session::<OwnedCommand>::new();

    cli.process_str("set");
    cli.assert_terminal(5, vec!["$ set"]);

    cli.send_left();
    cli.assert_terminal(4, vec!["$ set"]);

    cli.send_left();
    cli.assert_terminal(3, vec!["$ set"]);

    cli.process_str("up-d");
    cli.assert_terminal(7, vec!["$ sup-det"]);

    cli.send_backspace();
    cli.assert_terminal(6, vec!["$ sup-et"]);

    cli.send_right();
    cli.assert_terminal(7, vec!["$ sup-et"]);

    cli.process_str("d");
    cli.assert_terminal(8, vec!["$ sup-edt"]);

    cli.send_enter();
    cli.assert_terminal(2, vec!["$ sup-edt", "$"]);
    assert_eq!(
        cli.received,
        vec![OwnedCommand { name: "sup-edt".to_string(), args: vec![] }]
    );
}

#[test]
fn try_move_outside() {
    let mut cli = Session::<OwnedCommand>::new();

    cli.process_str("set");
    cli.assert_terminal(5, vec!["$ set"]);

    cli.send_right();
    cli.assert_terminal(5, vec!["$ set"]);

    cli.send_left();
    cli.send_left();
    cli.send_left();
    cli.assert_terminal(2, vec!["$ set"]);

    cli.send_left();
    cli.assert_terminal(2, vec!["$ set"]);

    cli.process_str("d-");
    cli.assert_terminal(4, vec!["$ d-set"]);

    cli.send_enter();
    cli.assert_terminal(2, vec!["$ d-set", "$"]);
    assert_eq!(
        cli.received,
        vec![OwnedCommand { name: "d-set".to_string(), args: vec![] }]
    );
}

#[test]
fn write_external() {
    let mut cli = Session::<OwnedCommand>::new();

    cli.assert_terminal(2, vec!["$"]);

    cli.write_str("test");

    cli.assert_terminal(2, vec!["test", "$"]);

    cli.process_str("set");

    cli.assert_terminal(5, vec!["test", "$ set"]);

    cli.write_str("abc");

    cli.assert_terminal(5, vec!["test", "abc", "$ set"]);

    cli.write_str("def\r\n");

    cli.assert_terminal(5, vec!["test", "abc", "def", "$ set"]);

    cli.write_str("gh\r\n\r\n");

    cli.assert_terminal(5, vec!["test", "abc", "def", "gh", "", "$ set"]);
}

#[test]
fn write_from_service() {
    let mut cli = Session::<OwnedCommand>::new();

    cli.assert_terminal(2, vec!["$"]);

    for b in "set 123\n".bytes() {
        if let Some(cmd) = cli.cli.process_byte::<OwnedCommand>(b).unwrap() {
            let mut handle = CliHandle::wrap(&mut cli.cli);
            handle.write_str(b"from command \"").unwrap();
            handle.write_str(cmd.name.as_bytes()).unwrap();
            handle.writeln_str(b"\"").unwrap();
            handle.write_str(b"another line").unwrap();
            cli.cli.end_command().unwrap();
            cli.received.push(cmd);
        }
    }

    cli.assert_terminal(
        2,
        vec!["$ set 123", "from command \"set\"", "another line", "$"],
    );
}

#[test]
fn help_for_unknown_command() {
    let mut cli = Session::<OwnedCommand>::new();

    cli.process_str("help nosuch\n");
    cli.assert_terminal(2, vec!["$ help nosuch", "error: unknown command", "$"]);

    cli.process_str("nosuch --help\n");
    cli.assert_terminal(
        2,
        vec![
            "$ help nosuch",
            "error: unknown command",
            "$ nosuch --help",
            "error: unknown command",
            "$",
        ],
    );
}

#[test]
fn unknown_command_diagnostic() {
    let mut cli = Session::<TestCommand>::new();

    cli.process_str("blink\n");
    cli.assert_terminal(2, vec!["$ blink", "error: unknown command", "$"]);
}

/// A schema that rejects every command with a diagnostic chosen by the
/// command name.
#[derive(Debug, Clone, PartialEq)]
enum NeverCommand {}

impl Autocomplete for NeverCommand {
    fn autocomplete(_request: &Request, _completion: &mut Autocompletion) {}
}

impl Help for NeverCommand {
    fn command_count() -> usize {
        0
    }

    fn list_commands(out: &mut Vec<u8>) {
        out.extend_from_slice(b"one known command\n");
    }

    fn command_help(_command: &RawCommand, _out: &mut Vec<u8>) -> Result<(), HelpError> {
        Err(HelpError::WriteError)
    }
}

impl FromRaw for NeverCommand {
    fn parse(raw: RawCommand) -> Result<Self, ParseError> {
        Err(match raw.name().as_slice() {
            b"missing" => ParseError::MissingRequiredArgument { name: b"<FILE>".to_vec() },
            b"value" => ParseError::ParseValueError {
                value: b"led".to_vec(),
                expected: b"u32".to_vec(),
            },
            b"extra" => ParseError::UnexpectedArgument { value: b"led".to_vec() },
            b"long" => ParseError::UnexpectedLongOption { name: b"config".to_vec() },
            b"short" => ParseError::UnexpectedShortOption { name: 'ф' },
            _ => ParseError::UnknownCommand,
        })
    }
}

#[test]
fn parse_error_diagnostics() {
    let mut cli = Session::<NeverCommand>::new();

    cli.process_str("missing\n");
    cli.process_str("value\n");
    cli.process_str("extra\n");
    cli.process_str("long\n");
    cli.process_str("short\n");
    cli.process_str("other\n");

    cli.assert_terminal(
        2,
        vec![
            "$ missing",
            "error: missing required argument: <FILE>",
            "$ value",
            "error: failed to parse 'led', expected u32",
            "$ extra",
            "error: unexpected argument: led",
            "$ long",
            "error: unexpected option: --config",
            "$ short",
            "error: unexpected option: -ф",
            "$ other",
            "error: unknown command",
            "$",
        ],
    );
    assert!(cli.received.is_empty());
}

#[test]
fn help_listing_and_write_error() {
    let mut cli = Session::<NeverCommand>::new();

    cli.process_str("help\n");
    cli.assert_terminal(2, vec!["$ help", "one known command", "$"]);

    // a schema whose help printing fails propagates a hard error
    let mut failed = false;
    for b in "x --help\n".bytes() {
        if cli.cli.process_byte::<NeverCommand>(b).is_err() {
            failed = true;
        }
    }
    assert!(failed);
}

/// A sink that always fails.
struct BrokenSink;

impl Sink for BrokenSink {
    fn write_bytes(&mut self, _bytes: &[u8]) -> Result<(), SinkError> {
        Err(SinkError)
    }

    fn flush(&mut self) -> Result<(), SinkError> {
        Err(SinkError)
    }
}

#[test]
fn sink_failure_is_propagated() {
    assert!(Cli::new(BrokenSink, 80, 100, b"$ ").is_err());
}

#[test]
fn exact_bytes_sent_to_sink() {
    let mut cli = Session::<OwnedCommand>::new();
    assert_eq!(cli.out.borrow().as_slice(), b"$ ");

    cli.process_str("ab");
    assert_eq!(cli.out.borrow().as_slice(), b"$ ab");

    cli.send_backspace();
    assert_eq!(cli.out.borrow().as_slice(), b"$ ab\x1B[D\x1B[P");

    cli.send_left();
    assert_eq!(cli.out.borrow().as_slice(), b"$ ab\x1B[D\x1B[P\x1B[D");

    cli.process_str("c");
    assert_eq!(cli.out.borrow().as_slice(), b"$ ab\x1B[D\x1B[P\x1B[D\x1B[@c");

    // a dispatched command writes only CR LF; the prompt follows from
    // ending the command
    let before = cli.out.borrow().len();
    cli.send_enter();
    let after = cli.out.borrow().clone();
    assert_eq!(&after[before..], b"\r\n$ ".as_slice());
}

#[test]
fn handler_rejection_is_reported() {
    let mut cli = Session::<OwnedCommand>::new();

    for b in "set\n".bytes() {
        if let Some(cmd) = cli.cli.process_byte::<OwnedCommand>(b).unwrap() {
            // the handler rejects the command; the session prints the
            // same diagnostic it uses for its own parse failures
            let mut handle = CliHandle::wrap(&mut cli.cli);
            handle
                .report_error(ParseError::UnexpectedArgument { value: b"set".to_vec() })
                .unwrap();
            cli.cli.end_command().unwrap();
            cli.received.push(cmd);
        }
    }

    cli.assert_terminal(2, vec!["$ set", "error: unexpected argument: set", "$"]);
}

#[test]
fn exact_diagnostic_bytes() {
    let mut cli = Session::<TestCommand>::new();
    cli.process_str("nope");
    let before = cli.out.borrow().len();
    cli.send_enter();
    let after = cli.out.borrow().clone();
    assert_eq!(&after[before..], b"\r\nerror: unknown command\r\n$ ".as_slice());
}
