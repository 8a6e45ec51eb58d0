//! Edit signals and the translation of raw key events into them.

use vstd::prelude::*;

verus! {

/// One normalized editing signal.
#[derive(Clone, Copy, Debug, PartialEq, Eq)]
pub enum EditSignal {
    InsertChar(char),
    Backspace,
    Delete,
    CursorHome,
    CursorEnd,
    CursorLeft,
    CursorRight,
    HistoryPrev,
    HistoryNext,
    CompleteNext,
    Submit,
    Interrupt,
    Terminate,
    FunctionKey(u8),
    Unrecognized,
}

/// The key of a raw key event.
#[derive(Clone, Copy, Debug, PartialEq, Eq)]
pub enum KeyCode {
    Char(char),
    Backspace,
    Delete,
    Enter,
    Tab,
    Up,
    Down,
    Left,
    Right,
    Home,
    End,
    F(u8),
    Other,
}

/// The modifier state of a raw key event; `Other` is any combination of several.
#[derive(Clone, Copy, Debug, PartialEq, Eq)]
pub enum Modifiers {
    Control,
    Shift,
    Alt,
    NoModifier,
    Other,
}

/// A raw key event: a key and its modifiers.
#[derive(Clone, Copy, Debug, PartialEq, Eq)]
pub struct RawKey {
    pub code: KeyCode,
    pub modifiers: Modifiers,
}

/// `c` in upper case if it is an ASCII lower-case letter, else `c` itself.
pub open spec fn ascii_upper(c: char) -> char {
    if 'a' <= c <= 'z' { ((c as u8) - 32) as u8 as char } else { c }
}

/// Executable form of `ascii_upper`.
pub fn to_ascii_upper(c: char) -> (r: char)
    ensures
        r == ascii_upper(c),
{
    if 'a' <= c && c <= 'z' {
        ((c as u8) - 32) as char
    } else {
        c
    }
}

/// The edit signal of a raw key event.
pub open spec fn signal_of(key: RawKey) -> EditSignal {
    match key.code {
        KeyCode::Backspace => EditSignal::Backspace,
        KeyCode::Delete => EditSignal::Delete,
        KeyCode::Enter => EditSignal::Submit,
        KeyCode::Tab => EditSignal::CompleteNext,
        KeyCode::Char(c) => match key.modifiers {
            Modifiers::Control => if c == 'c' {
                EditSignal::Interrupt
            } else if c == 'd' {
                EditSignal::Terminate
            } else {
                EditSignal::Unrecognized
            },
            Modifiers::NoModifier => EditSignal::InsertChar(c),
            Modifiers::Shift => EditSignal::InsertChar(ascii_upper(c)),
            _ => EditSignal::Unrecognized,
        },
        KeyCode::Up => EditSignal::HistoryPrev,
        KeyCode::Down => EditSignal::HistoryNext,
        KeyCode::Left => EditSignal::CursorLeft,
        KeyCode::Right => EditSignal::CursorRight,
        KeyCode::Home => EditSignal::CursorHome,
        KeyCode::End => EditSignal::CursorEnd,
        KeyCode::F(n) => EditSignal::FunctionKey(n),
        KeyCode::Other => EditSignal::Unrecognized,
    }
}

/// Translates a raw key event into an edit signal.
pub fn translate(key: RawKey) -> (r: EditSignal)
    ensures
        r == signal_of(key),
{
    match key.code {
        KeyCode::Backspace => EditSignal::Backspace,
        KeyCode::Delete => EditSignal::Delete,
        KeyCode::Enter => EditSignal::Submit,
        KeyCode::Tab => EditSignal::CompleteNext,
        KeyCode::Char(c) => match key.modifiers {
            Modifiers::Control => if c == 'c' {
                EditSignal::Interrupt
            } else if c == 'd' {
                EditSignal::Terminate
            } else {
                EditSignal::Unrecognized
            },
            Modifiers::NoModifier => EditSignal::InsertChar(c),
            Modifiers::Shift => EditSignal::InsertChar(to_ascii_upper(c)),
            _ => EditSignal::Unrecognized,
        },
        KeyCode::Up => EditSignal::HistoryPrev,
        KeyCode::Down => EditSignal::HistoryNext,
        KeyCode::Left => EditSignal::CursorLeft,
        KeyCode::Right => EditSignal::CursorRight,
        KeyCode::Home => EditSignal::CursorHome,
        KeyCode::End => EditSignal::CursorEnd,
        KeyCode::F(n) => EditSignal::FunctionKey(n),
        KeyCode::Other => EditSignal::Unrecognized,
    }
}

} // verus!
