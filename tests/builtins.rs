use sks::command::{exit_code, parse_command, parse_i32, process_command, Dispatch};
use sks::signal::{translate, to_ascii_upper, EditSignal, KeyCode, Modifiers, RawKey};

#[test]
fn exit_codes() {
    assert_eq!(exit_code(&parse_command("exit 7")), Ok(7));
    assert_eq!(exit_code(&parse_command("exit")), Ok(0));
    assert_eq!(exit_code(&parse_command("exit abc")), Err("abc".to_string()));
    assert_eq!(exit_code(&parse_command("exit -3")), Ok(-3));
}

#[test]
fn dispatch_decisions() {
    assert!(matches!(process_command(&parse_command("exit 7")), Dispatch::Exit(7)));
    assert!(matches!(process_command(&parse_command("exit")), Dispatch::Exit(0)));
    match process_command(&parse_command("exit abc")) {
        Dispatch::InvalidExitCode(a) => assert_eq!(a, "abc"),
        _ => panic!("expected an invalid exit code"),
    }
    assert!(matches!(process_command(&parse_command("")), Dispatch::Nothing));
    assert!(matches!(process_command(&parse_command("ls -l")), Dispatch::External));
    match process_command(&parse_command("cd /tmp")) {
        Dispatch::ChangeDir(Some(p)) => assert_eq!(p, "/tmp"),
        _ => panic!("expected cd"),
    }
    assert!(matches!(process_command(&parse_command("cd")), Dispatch::ChangeDir(None)));
}

#[test]
fn integer_parsing() {
    assert_eq!(parse_i32("0"), Some(0));
    assert_eq!(parse_i32("+5"), Some(5));
    assert_eq!(parse_i32("-2147483648"), Some(i32::MIN));
    assert_eq!(parse_i32("2147483647"), Some(i32::MAX));
    assert_eq!(parse_i32("2147483648"), None);
    assert_eq!(parse_i32("99999999999"), None);
    assert_eq!(parse_i32(""), None);
    assert_eq!(parse_i32("-"), None);
    assert_eq!(parse_i32("1a"), None);
}

#[test]
fn key_translation() {
    let k = |code, modifiers| translate(RawKey { code, modifiers });
    assert_eq!(k(KeyCode::Char('c'), Modifiers::Control), EditSignal::Interrupt);
    assert_eq!(k(KeyCode::Char('d'), Modifiers::Control), EditSignal::Terminate);
    assert_eq!(k(KeyCode::Char('x'), Modifiers::Control), EditSignal::Unrecognized);
    assert_eq!(k(KeyCode::Char('a'), Modifiers::NoModifier), EditSignal::InsertChar('a'));
    assert_eq!(k(KeyCode::Char('a'), Modifiers::Shift), EditSignal::InsertChar('A'));
    assert_eq!(k(KeyCode::Char('1'), Modifiers::Shift), EditSignal::InsertChar('1'));
    assert_eq!(k(KeyCode::Char('a'), Modifiers::Alt), EditSignal::Unrecognized);
    assert_eq!(k(KeyCode::Enter, Modifiers::NoModifier), EditSignal::Submit);
    assert_eq!(k(KeyCode::Tab, Modifiers::NoModifier), EditSignal::CompleteNext);
    assert_eq!(k(KeyCode::Backspace, Modifiers::Control), EditSignal::Backspace);
    assert_eq!(k(KeyCode::Delete, Modifiers::NoModifier), EditSignal::Delete);
    assert_eq!(k(KeyCode::Up, Modifiers::NoModifier), EditSignal::HistoryPrev);
    assert_eq!(k(KeyCode::Down, Modifiers::NoModifier), EditSignal::HistoryNext);
    assert_eq!(k(KeyCode::Left, Modifiers::NoModifier), EditSignal::CursorLeft);
    assert_eq!(k(KeyCode::Right, Modifiers::NoModifier), EditSignal::CursorRight);
    assert_eq!(k(KeyCode::Home, Modifiers::NoModifier), EditSignal::CursorHome);
    assert_eq!(k(KeyCode::End, Modifiers::NoModifier), EditSignal::CursorEnd);
    assert_eq!(k(KeyCode::F(3), Modifiers::NoModifier), EditSignal::FunctionKey(3));
    assert_eq!(k(KeyCode::Other, Modifiers::NoModifier), EditSignal::Unrecognized);
}

#[test]
fn ascii_upper() {
    assert_eq!(to_ascii_upper('z'), 'Z');
    assert_eq!(to_ascii_upper('Q'), 'Q');
    assert_eq!(to_ascii_upper('é'), 'é');
}
