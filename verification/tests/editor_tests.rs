use wash::editor::{parse_position, Editor, Effect};
use wash::types::{InputValue, Position};

fn keys(ed: &mut Editor, s: &str) -> Vec<Effect> {
    let mut all = vec![];
    for ch in s.chars() {
        all.extend(ed.key(ch));
    }
    all
}

fn has_bell(effects: &[Effect]) -> bool {
    effects.iter().any(|e| matches!(e, Effect::Bell))
}

#[test]
fn typing_echoes_characters() {
    let mut ed = Editor::new();
    let effects = ed.key('a');
    assert!(matches!(effects[0], Effect::Out('a')));
    assert!(matches!(effects[1], Effect::DrawPart));
    assert_eq!(ed.line.fpart, "a".to_string());
}

#[test]
fn newline_finishes_a_complete_line() {
    let mut ed = Editor::new();
    keys(&mut ed, "f(x)");
    let effects = ed.key('\n');
    assert!(effects.is_empty());
    assert!(ed.finished);
    let v = ed.finish_line();
    assert_eq!(
        v,
        Some(Some(InputValue::Long(vec![InputValue::Function(
            "f".to_string(),
            vec![InputValue::Short("x".to_string())]
        )])))
    );
}

#[test]
fn newline_inside_a_word_is_typed() {
    let mut ed = Editor::new();
    keys(&mut ed, "ls");
    let effects = ed.key('\n');
    assert!(matches!(effects[0], Effect::Out('\n')));
    assert!(!ed.finished);
    assert_eq!(ed.line.fpart, "ls\n".to_string());
}

#[test]
fn end_of_input_on_empty_line() {
    let mut ed = Editor::new();
    ed.key('\u{4}');
    assert!(ed.eof && ed.finished);
    assert_eq!(ed.finish_line(), None);
}

#[test]
fn delete_removes_last_character() {
    let mut ed = Editor::new();
    keys(&mut ed, "ab");
    let effects = ed.key('\u{7f}');
    assert!(matches!(effects[0], Effect::Erase));
    assert_eq!(ed.line.fpart, "a".to_string());
    let mut empty = Editor::new();
    assert!(has_bell(&empty.key('\u{7f}')));
}

#[test]
fn arrows_move_the_cursor() {
    let mut ed = Editor::new();
    keys(&mut ed, "ab");
    let left = keys(&mut ed, "\u{1b}[D");
    assert!(matches!(left.last(), Some(Effect::CursorLeft)));
    assert_eq!(ed.line.part, "b".to_string());
    let right = keys(&mut ed, "\u{1b}[C");
    assert!(matches!(right.last(), Some(Effect::CursorRight)));
    assert_eq!(ed.line.part, String::new());
    assert!(has_bell(&keys(&mut ed, "\u{1b}[C")));
}

#[test]
fn history_goes_back_and_forth() {
    let mut ed = Editor::new();
    keys(&mut ed, "first");
    ed.finish_line();
    ed.clear();
    keys(&mut ed, "se");
    let up = keys(&mut ed, "\u{1b}[A");
    assert!(up.iter().any(|e| matches!(e, Effect::OutText(t) if t == "first")));
    assert_eq!(ed.line.fpart, "first".to_string());
    let down = keys(&mut ed, "\u{1b}[B");
    assert!(down.iter().any(|e| matches!(e, Effect::OutText(t) if t == "se")));
    assert_eq!(ed.line.fpart, "se".to_string());
}

#[test]
fn control_a_moves_to_start() {
    let mut ed = Editor::new();
    keys(&mut ed, "abc");
    let effects = ed.key('\u{1}');
    assert!(matches!(effects[0], Effect::CursorsLeft(3)));
    assert_eq!(ed.line.fpart, String::new());
    assert_eq!(ed.line.part, "cba".to_string());
    let effects = ed.key('\u{5}');
    assert!(matches!(effects[0], Effect::CursorsRight(3)));
    assert_eq!(ed.line.fpart, "abc".to_string());
    ed.key('\u{1}');
    let effects = ed.key('\u{b}');
    assert!(matches!(effects[0], Effect::ClearLineTo(3)));
    assert_eq!(ed.line.part, String::new());
}

#[test]
fn cursor_report() {
    assert_eq!(parse_position("[12;40"), Some(Position { row: 12, col: 40 }));
    assert_eq!(parse_position("[12;"), None);
    assert_eq!(parse_position("12;40"), None);
    assert_eq!(parse_position("[1a;4"), None);
    assert_eq!(parse_position("[99999999999999999999999;1"), None);
    let mut ed = Editor::new();
    let effects = keys(&mut ed, "\u{1b}[3;7R");
    assert!(matches!(effects.last(), Some(Effect::UpdateCursor(Position { row: 3, col: 7 }))));
    assert!(!ed.escape);
}

#[test]
fn long_escape_is_given_up() {
    let mut ed = Editor::new();
    let effects = keys(&mut ed, "\u{1b}[0123456789012345678");
    assert!(has_bell(&effects));
    assert!(!ed.escape);
}

#[test]
fn interrupt_drops_the_line() {
    let mut ed = Editor::new();
    keys(&mut ed, "echo hi");
    let effects = ed.interrupt();
    assert_eq!(effects.len(), 1);
    assert!(matches!(&effects[0], Effect::OutText(t) if t == "\nInterrupt"));
    assert!(ed.finished);
    assert!(!ed.eof);
    assert!(ed.line.is_empty());
    assert_eq!(ed.line.fpart, "".to_string());
}

#[test]
fn history_keeps_at_most_the_limit() {
    let mut ed = Editor::new();
    for i in 0..105 {
        keys(&mut ed, &format!("l{}", i));
        ed.finish_line();
        ed.clear();
    }
    for _ in 0..100 {
        let up = keys(&mut ed, "\u{1b}[A");
        assert!(!has_bell(&up));
    }
    assert_eq!(ed.line.fpart, "l5".to_string());
    let up = keys(&mut ed, "\u{1b}[A");
    assert!(has_bell(&up));
}
