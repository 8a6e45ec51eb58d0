use sks::editor::{EditorState, Outcome};
use sks::signal::EditSignal;

fn names(v: &[&str]) -> Vec<String> {
    v.iter().map(|s| s.to_string()).collect()
}

fn type_line(e: &mut EditorState, text: &str, index: &Vec<String>) {
    for c in text.chars() {
        let _ = e.apply(EditSignal::InsertChar(c), index);
    }
}

fn submit(e: &mut EditorState, text: &str, index: &Vec<String>) -> Outcome {
    type_line(e, text, index);
    e.apply(EditSignal::Submit, index)
}

#[test]
fn cursor_stays_in_bounds() {
    let idx = names(&[]);
    let mut e = EditorState::new();
    let signals = [
        EditSignal::Backspace,
        EditSignal::Delete,
        EditSignal::InsertChar('a'),
        EditSignal::InsertChar('b'),
        EditSignal::CursorLeft,
        EditSignal::CursorLeft,
        EditSignal::CursorLeft,
        EditSignal::Backspace,
        EditSignal::Delete,
        EditSignal::Delete,
        EditSignal::Delete,
        EditSignal::CursorRight,
        EditSignal::InsertChar('c'),
        EditSignal::CursorEnd,
        EditSignal::Backspace,
    ];
    for s in signals.iter() {
        let _ = e.apply(*s, &idx);
        assert!(e.cursor() <= e.buffer().chars().count());
    }
    assert_eq!(e.buffer(), "");
    assert_eq!(e.cursor(), 0);
}

#[test]
fn insert_in_middle() {
    let idx = names(&[]);
    let mut e = EditorState::new();
    type_line(&mut e, "ac", &idx);
    let _ = e.apply(EditSignal::CursorLeft, &idx);
    let _ = e.apply(EditSignal::InsertChar('b'), &idx);
    assert_eq!(e.buffer(), "abc");
    assert_eq!(e.cursor(), 2);
    let _ = e.apply(EditSignal::CursorHome, &idx);
    let _ = e.apply(EditSignal::Delete, &idx);
    assert_eq!(e.buffer(), "bc");
    assert_eq!(e.cursor(), 0);
}

#[test]
fn history_dedup() {
    let idx = names(&[]);
    let mut e = EditorState::new();
    let _ = submit(&mut e, "ls", &idx);
    let _ = submit(&mut e, "ls", &idx);
    assert_eq!(e.history(), names(&["ls"]));
    let _ = submit(&mut e, "", &idx);
    assert_eq!(e.history(), names(&["ls"]));
    let _ = submit(&mut e, "pwd", &idx);
    let _ = submit(&mut e, "ls", &idx);
    assert_eq!(e.history(), names(&["ls", "pwd", "ls"]));
}

#[test]
fn submit_returns_command_and_clears() {
    let idx = names(&[]);
    let mut e = EditorState::new();
    match submit(&mut e, "echo hi", &idx) {
        Outcome::Submitted(c) => {
            assert_eq!(c.name, "echo");
            assert_eq!(c.args, names(&["hi"]));
        }
        _ => panic!("expected a submitted command"),
    }
    assert_eq!(e.buffer(), "");
    assert_eq!(e.cursor(), 0);
}

#[test]
fn completion_cycles() {
    let idx = names(&["ls", "lsof", "ln"]);
    let mut e = EditorState::new();
    type_line(&mut e, "l", &idx);
    let mut seen = vec![];
    for _ in 0..4 {
        let _ = e.apply(EditSignal::CompleteNext, &idx);
        seen.push(e.buffer());
        assert_eq!(e.cursor(), e.buffer().chars().count());
    }
    assert_eq!(seen, names(&["ln", "ls", "lsof", "ln"]));
}

#[test]
fn completion_without_candidates_is_noop() {
    let idx = names(&["ls"]);
    let mut e = EditorState::new();
    type_line(&mut e, "x", &idx);
    let _ = e.apply(EditSignal::CompleteNext, &idx);
    assert_eq!(e.buffer(), "x");
    assert!(!e.is_completing());
}

#[test]
fn insert_ends_completion() {
    let idx = names(&["ls", "lsof"]);
    let mut e = EditorState::new();
    type_line(&mut e, "ls", &idx);
    let _ = e.apply(EditSignal::CompleteNext, &idx);
    assert!(e.is_completing());
    let _ = e.apply(EditSignal::InsertChar('o'), &idx);
    assert!(!e.is_completing());
    let _ = e.apply(EditSignal::CompleteNext, &idx);
    assert_eq!(e.buffer(), "lsof");
}

#[test]
fn interrupt_drops_line() {
    let idx = names(&[]);
    let mut e = EditorState::new();
    let _ = submit(&mut e, "pwd", &idx);
    type_line(&mut e, "rm -rf", &idx);
    match e.apply(EditSignal::Interrupt, &idx) {
        Outcome::Interrupted(c) => {
            assert_eq!(c.name, "");
            assert!(c.args.is_empty());
            assert!(c.options.is_empty());
            assert!(c.long_options.is_empty());
        }
        _ => panic!("expected an interrupt"),
    }
    assert_eq!(e.buffer(), "");
    assert_eq!(e.cursor(), 0);
    assert_eq!(e.history(), names(&["pwd"]));
}

#[test]
fn history_recall_and_restore() {
    let idx = names(&[]);
    let mut e = EditorState::new();
    let _ = submit(&mut e, "one", &idx);
    let _ = submit(&mut e, "two", &idx);
    type_line(&mut e, "liv", &idx);
    let _ = e.apply(EditSignal::HistoryPrev, &idx);
    assert_eq!(e.buffer(), "two");
    assert_eq!(e.cursor(), 3);
    let _ = e.apply(EditSignal::HistoryPrev, &idx);
    assert_eq!(e.buffer(), "one");
    let _ = e.apply(EditSignal::HistoryPrev, &idx);
    assert_eq!(e.buffer(), "one");
    let _ = e.apply(EditSignal::HistoryNext, &idx);
    assert_eq!(e.buffer(), "two");
    let _ = e.apply(EditSignal::HistoryNext, &idx);
    assert_eq!(e.buffer(), "liv");
    assert!(!e.is_recalling());
    let _ = e.apply(EditSignal::HistoryNext, &idx);
    assert_eq!(e.buffer(), "liv");
}

#[test]
fn edit_after_recall_keeps_history() {
    let idx = names(&[]);
    let mut e = EditorState::new();
    let _ = submit(&mut e, "abc", &idx);
    let _ = e.apply(EditSignal::HistoryPrev, &idx);
    let _ = e.apply(EditSignal::InsertChar('d'), &idx);
    assert!(!e.is_recalling());
    assert_eq!(e.buffer(), "abcd");
    assert_eq!(e.history(), names(&["abc"]));
}

#[test]
fn terminate_and_function_keys() {
    let idx = names(&[]);
    let mut e = EditorState::new();
    type_line(&mut e, "a", &idx);
    assert!(matches!(e.apply(EditSignal::FunctionKey(5), &idx), Outcome::Continue));
    assert!(matches!(e.apply(EditSignal::Unrecognized, &idx), Outcome::Continue));
    assert!(matches!(e.apply(EditSignal::Terminate, &idx), Outcome::Terminate));
    assert_eq!(e.buffer(), "a");
}
