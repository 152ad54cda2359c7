//! Decoded terminal input in words.
use vstd::prelude::*;

use crate::lsp_ui::is_control;
use crate::text::{byte_len, chars_of, copy_text, decimal, push_decimal, utf8_len};

verus! {

/// How many events are shown at most.
pub const MAX_INPUT_DIAGNOSTIC_EVENTS: usize = 512;

/// How much of a pasted text is shown.
pub const MAX_DIAGNOSTIC_CHARS: usize = 80;

/// A key. The names of media and modifier keys are those of the terminal
/// library.
#[derive(Clone, Debug, PartialEq, Eq)]
pub enum KeyName {
    Backspace,
    Enter,
    Left,
    Right,
    Up,
    Down,
    Home,
    End,
    PageUp,
    PageDown,
    Tab,
    BackTab,
    Delete,
    Insert,
    F(u8),
    Char(char),
    Null,
    Esc,
    CapsLock,
    ScrollLock,
    NumLock,
    PrintScreen,
    Pause,
    Menu,
    KeypadBegin,
    Media(String),
    Modifier(String),
}

/// Which modifier keys are held.
#[derive(Clone, Copy, Debug, PartialEq, Eq, Structural)]
pub struct Modifiers {
    pub shift: bool,
    pub control: bool,
    pub alt: bool,
    pub super_key: bool,
    pub hyper: bool,
    pub meta: bool,
}

/// An input event. Kinds and states are named as the terminal library does.
#[derive(Clone, Debug, PartialEq, Eq)]
pub enum InputEvent {
    Key { code: KeyName, modifiers: Modifiers, kind: String, state: String },
    Paste(String),
    Resize(u16, u16),
    Mouse { kind: String, column: u16, row: u16, modifiers: Modifiers },
    FocusGained,
    FocusLost,
}

/// The digits of uppercase hexadecimal numbers.
pub open spec fn upper_hex_digits() -> Seq<char> {
    seq!['0', '1', '2', '3', '4', '5', '6', '7', '8', '9', 'A', 'B', 'C', 'D', 'E', 'F']
}

/// A scalar value in words: white space and control characters are escaped.
pub open spec fn shown_char(c: char) -> Seq<char> {
    if c == '\n' {
        "\\n"@
    } else if c == '\r' {
        "\\r"@
    } else if c == '\t' {
        "\\t"@
    } else if c == '\\' {
        "\\\\"@
    } else if is_control(c) {
        "\\u{00"@.push(upper_hex_digits()[(c as u32 / 16) as int]).push(
            upper_hex_digits()[(c as u32 % 16) as int],
        ).push('}')
    } else {
        seq![c]
    }
}

fn hex_char(n: u32) -> (c: char)
    requires
        n < 16,
    ensures
        c == upper_hex_digits()[n as int],
{
    if n == 0 {
        '0'
    } else if n == 1 {
        '1'
    } else if n == 2 {
        '2'
    } else if n == 3 {
        '3'
    } else if n == 4 {
        '4'
    } else if n == 5 {
        '5'
    } else if n == 6 {
        '6'
    } else if n == 7 {
        '7'
    } else if n == 8 {
        '8'
    } else if n == 9 {
        '9'
    } else if n == 10 {
        'A'
    } else if n == 11 {
        'B'
    } else if n == 12 {
        'C'
    } else if n == 13 {
        'D'
    } else if n == 14 {
        'E'
    } else {
        'F'
    }
}

fn push_shown(words: &mut String, c: char)
    ensures
        final(words)@ == old(words)@ + shown_char(c),
{
    let ghost start = words@;
    if c == '\n' {
        words.push_str("\\n");
    } else if c == '\r' {
        words.push_str("\\r");
    } else if c == '\t' {
        words.push_str("\\t");
    } else if c == '\\' {
        words.push_str("\\\\");
    } else if c <= '\u{1f}' || ('\u{7f}' <= c && c <= '\u{9f}') {
        let n = c as u32;
        assert(n <= 0x9f);
        words.push_str("\\u{00");
        words.push(hex_char(n / 16));
        words.push(hex_char(n % 16));
        words.push('}');
    } else {
        words.push(c);
    }
    assert(words@ =~= start + shown_char(c));
}

/// A scalar value in words.
pub fn diagnostic_char(character: char) -> (words: String)
    ensures
        words@ == shown_char(character),
{
    let mut words = String::new();
    push_shown(&mut words, character);
    assert(words@ =~= shown_char(character));
    words
}

/// Scalar values in words.
pub open spec fn shown_chars(text: Seq<char>) -> Seq<char>
    decreases text.len(),
{
    if text.len() == 0 {
        Seq::empty()
    } else {
        shown_chars(text.drop_last()) + shown_char(text.last())
    }
}

/// A text in words, cut where it is long.
pub open spec fn shown_text(text: Seq<char>) -> Seq<char> {
    if text.len() > MAX_DIAGNOSTIC_CHARS {
        shown_chars(text.take(MAX_DIAGNOSTIC_CHARS as int)) + "..."@
    } else {
        shown_chars(text)
    }
}

/// A text in words, cut where it is long.
pub fn diagnostic_string(input: &str) -> (words: String)
    ensures
        words@ == shown_text(input@),
{
    let chars = chars_of(input);
    let mut words = String::new();
    let mut i: usize = 0;
    assert(chars@.take(0) =~= Seq::<char>::empty());
    while i < chars.len() && i < MAX_DIAGNOSTIC_CHARS
        invariant
            i <= chars@.len(),
            i <= MAX_DIAGNOSTIC_CHARS,
            words@ == shown_chars(chars@.take(i as int)),
        decreases chars@.len() - i,
    {
        assert(chars@.take(i + 1).drop_last() =~= chars@.take(i as int));
        assert(chars@.take(i + 1).last() == chars@[i as int]);
        push_shown(&mut words, chars[i]);
        i += 1;
    }
    if chars.len() > MAX_DIAGNOSTIC_CHARS {
        words.push_str("...");
    } else {
        assert(chars@.take(i as int) =~= chars@);
    }
    words
}

/// A key in words.
pub open spec fn key_words(key: KeyName) -> Seq<char> {
    match key {
        KeyName::Backspace => "Backspace"@,
        KeyName::Enter => "Enter"@,
        KeyName::Left => "Left"@,
        KeyName::Right => "Right"@,
        KeyName::Up => "Up"@,
        KeyName::Down => "Down"@,
        KeyName::Home => "Home"@,
        KeyName::End => "End"@,
        KeyName::PageUp => "PageUp"@,
        KeyName::PageDown => "PageDown"@,
        KeyName::Tab => "Tab"@,
        KeyName::BackTab => "BackTab"@,
        KeyName::Delete => "Delete"@,
        KeyName::Insert => "Insert"@,
        KeyName::F(number) => "F"@ + decimal(number as nat),
        KeyName::Char(character) => "Char("@ + shown_char(character) + ")"@,
        KeyName::Null => "Null"@,
        KeyName::Esc => "Esc"@,
        KeyName::CapsLock => "CapsLock"@,
        KeyName::ScrollLock => "ScrollLock"@,
        KeyName::NumLock => "NumLock"@,
        KeyName::PrintScreen => "PrintScreen"@,
        KeyName::Pause => "Pause"@,
        KeyName::Menu => "Menu"@,
        KeyName::KeypadBegin => "KeypadBegin"@,
        KeyName::Media(name) => "Media("@ + name@ + ")"@,
        KeyName::Modifier(name) => "Modifier("@ + name@ + ")"@,
    }
}

/// A key in words.
pub fn describe_key_code(code: &KeyName) -> (words: String)
    ensures
        words@ == key_words(*code),
{
    match code {
        KeyName::Backspace => copy_text("Backspace"),
        KeyName::Enter => copy_text("Enter"),
        KeyName::Left => copy_text("Left"),
        KeyName::Right => copy_text("Right"),
        KeyName::Up => copy_text("Up"),
        KeyName::Down => copy_text("Down"),
        KeyName::Home => copy_text("Home"),
        KeyName::End => copy_text("End"),
        KeyName::PageUp => copy_text("PageUp"),
        KeyName::PageDown => copy_text("PageDown"),
        KeyName::Tab => copy_text("Tab"),
        KeyName::BackTab => copy_text("BackTab"),
        KeyName::Delete => copy_text("Delete"),
        KeyName::Insert => copy_text("Insert"),
        KeyName::F(number) => {
            let mut words = copy_text("F");
            push_decimal(&mut words, *number as u64);
            words
        },
        KeyName::Char(character) => {
            let mut words = copy_text("Char(");
            push_shown(&mut words, *character);
            words.push_str(")");
            words
        },
        KeyName::Null => copy_text("Null"),
        KeyName::Esc => copy_text("Esc"),
        KeyName::CapsLock => copy_text("CapsLock"),
        KeyName::ScrollLock => copy_text("ScrollLock"),
        KeyName::NumLock => copy_text("NumLock"),
        KeyName::PrintScreen => copy_text("PrintScreen"),
        KeyName::Pause => copy_text("Pause"),
        KeyName::Menu => copy_text("Menu"),
        KeyName::KeypadBegin => copy_text("KeypadBegin"),
        KeyName::Media(name) => {
            let mut words = copy_text("Media(");
            words.push_str(name.as_str());
            words.push_str(")");
            words
        },
        KeyName::Modifier(name) => {
            let mut words = copy_text("Modifier(");
            words.push_str(name.as_str());
            words.push_str(")");
            words
        },
    }
}

/// A list of words with one more, where it applies.
pub open spec fn with_label(words: Seq<char>, applies: bool, label: Seq<char>) -> Seq<char> {
    if !applies {
        words
    } else if words.len() == 0 {
        label
    } else {
        words + "|"@ + label
    }
}

/// Held modifier keys in words.
pub open spec fn modifier_words(modifiers: Modifiers) -> Seq<char> {
    let words = with_label(
        with_label(
            with_label(
                with_label(
                    with_label(
                        with_label(Seq::empty(), modifiers.shift, "SHIFT"@),
                        modifiers.control,
                        "CONTROL"@,
                    ),
                    modifiers.alt,
                    "ALT"@,
                ),
                modifiers.super_key,
                "SUPER"@,
            ),
            modifiers.hyper,
            "HYPER"@,
        ),
        modifiers.meta,
        "META"@,
    );
    if words.len() == 0 {
        "none"@
    } else {
        words
    }
}

fn push_label(words: &mut String, applies: bool, label: &str)
    ensures
        final(words)@ == with_label(old(words)@, applies, label@),
{
    if applies {
        if !words.as_str().is_empty() {
            words.push_str("|");
        }
        words.push_str(label);
        assert(words@ =~= with_label(old(words)@, applies, label@));
    }
}

/// Held modifier keys in words.
pub fn describe_modifiers(modifiers: Modifiers) -> (words: String)
    ensures
        words@ == modifier_words(modifiers),
{
    let mut words = String::new();
    assert(words@ =~= Seq::<char>::empty());
    push_label(&mut words, modifiers.shift, "SHIFT");
    push_label(&mut words, modifiers.control, "CONTROL");
    push_label(&mut words, modifiers.alt, "ALT");
    push_label(&mut words, modifiers.super_key, "SUPER");
    push_label(&mut words, modifiers.hyper, "HYPER");
    push_label(&mut words, modifiers.meta, "META");
    if words.as_str().is_empty() {
        copy_text("none")
    } else {
        words
    }
}

/// An event in words.
pub open spec fn event_words(event: InputEvent) -> Seq<char> {
    match event {
        InputEvent::Key { code, modifiers, kind, state } => "key code="@ + key_words(code)
            + " modifiers="@ + modifier_words(modifiers) + " kind="@ + kind@ + " state="@ + state@,
        InputEvent::Paste(text) => "paste bytes="@ + decimal(utf8_len(text@)) + " chars="@ + decimal(
            text@.len(),
        ) + " text="@ + shown_text(text@),
        InputEvent::Resize(width, height) => "resize cols="@ + decimal(width as nat) + " rows="@
            + decimal(height as nat),
        InputEvent::Mouse { kind, column, row, modifiers } => "mouse kind="@ + kind@ + " column="@
            + decimal(column as nat) + " row="@ + decimal(row as nat) + " modifiers="@
            + modifier_words(modifiers),
        InputEvent::FocusGained => "focus gained"@,
        InputEvent::FocusLost => "focus lost"@,
    }
}

/// An event in words.
pub fn describe_event(event: &InputEvent) -> (words: String)
    ensures
        words@ == event_words(*event),
{
    let mut words = String::new();
    match event {
        InputEvent::Key { code, modifiers, kind, state } => {
            words.push_str("key code=");
            words.push_str(describe_key_code(code).as_str());
            words.push_str(" modifiers=");
            words.push_str(describe_modifiers(*modifiers).as_str());
            words.push_str(" kind=");
            words.push_str(kind.as_str());
            words.push_str(" state=");
            words.push_str(state.as_str());
        },
        InputEvent::Paste(text) => {
            let chars = chars_of(text.as_str());
            words.push_str("paste bytes=");
            push_decimal(&mut words, byte_len(text.as_str()) as u64);
            words.push_str(" chars=");
            push_decimal(&mut words, chars.len() as u64);
            words.push_str(" text=");
            words.push_str(diagnostic_string(text.as_str()).as_str());
        },
        InputEvent::Resize(width, height) => {
            words.push_str("resize cols=");
            push_decimal(&mut words, *width as u64);
            words.push_str(" rows=");
            push_decimal(&mut words, *height as u64);
        },
        InputEvent::Mouse { kind, column, row, modifiers } => {
            words.push_str("mouse kind=");
            words.push_str(kind.as_str());
            words.push_str(" column=");
            push_decimal(&mut words, *column as u64);
            words.push_str(" row=");
            push_decimal(&mut words, *row as u64);
            words.push_str(" modifiers=");
            words.push_str(describe_modifiers(*modifiers).as_str());
        },
        InputEvent::FocusGained => {
            words.push_str("focus gained");
        },
        InputEvent::FocusLost => {
            words.push_str("focus lost");
        },
    }
    assert(words@ =~= event_words(*event));
    words
}

/// Whether an event ends the diagnostics: Ctrl-G or Ctrl-C.
pub fn is_input_diagnostic_exit(event: &InputEvent) -> (yes: bool)
    ensures
        yes == (match *event {
            InputEvent::Key { code, modifiers, .. } => modifiers.control && (code == KeyName::Char(
                'g',
            ) || code == KeyName::Char('c')),
            _ => false,
        }),
{
    match event {
        InputEvent::Key { code, modifiers, .. } => modifiers.control && match code {
            KeyName::Char(character) => *character == 'g' || *character == 'c',
            _ => false,
        },
        _ => false,
    }
}

/// The number of an event, with at least three digits.
pub open spec fn event_number(n: nat) -> Seq<char> {
    if n < 10 {
        "00"@ + decimal(n)
    } else if n < 100 {
        "0"@ + decimal(n)
    } else {
        decimal(n)
    }
}

/// The line that is printed for an event.
pub fn event_line(number: usize, event: &InputEvent) -> (line: String)
    ensures
        line@ == event_number(number as nat) + " "@ + event_words(*event),
{
    let mut line = String::new();
    if number < 10 {
        line.push_str("00");
    } else if number < 100 {
        line.push_str("0");
    }
    push_decimal(&mut line, number as u64);
    line.push_str(" ");
    line.push_str(describe_event(event).as_str());
    assert(line@ =~= event_number(number as nat) + " "@ + event_words(*event));
    line
}

} // verus!
