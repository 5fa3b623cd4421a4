use wash::screen::{Controls, WinSize};
use wash::types::Position;

fn screen(rows: u16, cols: u16) -> Controls {
    let mut c = Controls::new();
    c.update_size(WinSize { row: rows, col: cols });
    c
}

fn type_text(c: &mut Controls, s: &str) -> String {
    let mut out = String::new();
    for ch in s.chars() {
        out.push_str(&c.outc(ch).expect("fits"));
    }
    out
}

#[test]
fn new_controls_start_in_the_corner() {
    let c = Controls::new();
    assert_eq!(c.cursor, Position { row: 0, col: 0 });
    assert_eq!(c.tsize, WinSize { row: 0, col: 0 });
    assert_eq!(c.roff, 0);
}

#[test]
fn written_characters_move_the_cursor() {
    let mut c = screen(24, 80);
    assert_eq!(type_text(&mut c, "hello"), "hello");
    assert_eq!(c.cursor, Position { row: 0, col: 5 });
}

#[test]
fn writing_past_the_width_wraps() {
    let mut c = screen(24, 10);
    c.update_cursor(Position { row: 0, col: 8 });
    type_text(&mut c, "abc");
    assert_eq!(c.cursor, Position { row: 1, col: 1 });
}

#[test]
fn line_break_on_last_row_scrolls() {
    let mut c = screen(2, 80);
    c.update_cursor(Position { row: 2, col: 7 });
    assert_eq!(c.outc('\n'), Some("\n".to_string()));
    assert_eq!(c.cursor, Position { row: 2, col: 0 });
    assert_eq!(c.roff, 1);
    assert_eq!(c.outc('\n'), Some("\n".to_string()));
    assert_eq!(c.roff, 2);
}

#[test]
fn outs_starts_a_new_row_after_each_line() {
    let mut c = screen(24, 80);
    assert_eq!(c.outs("ab\ncd"), Some("ab\ncd".to_string()));
    assert_eq!(c.cursor, Position { row: 2, col: 0 });
    assert_eq!(c.err("x"), Some("x".to_string()));
    assert_eq!(c.cursor, Position { row: 3, col: 0 });
}

#[test]
fn cursors_left_few_and_many() {
    let mut c = screen(24, 80);
    type_text(&mut c, "abcdefgh");
    assert_eq!(c.cursors_left(2), Some("\u{7f}\u{7f}".to_string()));
    assert_eq!(c.cursor, Position { row: 0, col: 6 });
    assert_eq!(c.cursors_left(5), Some("\u{1b}[5D".to_string()));
    assert_eq!(c.cursor, Position { row: 0, col: 1 });
    assert_eq!(c.cursors_left(0), Some(String::new()));
}

#[test]
fn cursors_right_within_the_row() {
    let mut c = screen(24, 80);
    type_text(&mut c, "hello");
    c.cursors_left(3);
    assert_eq!(c.cursors_right(3), Some("\u{1b}[3C".to_string()));
    assert_eq!(c.cursor, Position { row: 0, col: 5 });
}

#[test]
fn cursors_right_past_the_row_follows_row_lengths() {
    let mut c = screen(24, 80);
    type_text(&mut c, "hello");
    assert_eq!(c.cursors_right(2), Some("\u{1b}[2C".to_string()));
    assert_eq!(c.cursor, Position { row: 2, col: 1 });
}

#[test]
fn cursor_left_at_row_start_puts_the_cursor() {
    let mut c = screen(24, 80);
    type_text(&mut c, "ab");
    assert_eq!(c.cursor_left(), Some("\u{7f}".to_string()));
    assert_eq!(c.cursor_left(), Some("\u{1b}[0;0f".to_string()));
    assert_eq!(c.cursor, Position { row: 0, col: 0 });
}

#[test]
fn cursor_right_within_the_width() {
    let mut c = screen(24, 80);
    type_text(&mut c, "ab");
    c.cursor_left();
    assert_eq!(c.cursor_right(), Some("\u{1b}[C".to_string()));
    assert_eq!(c.cursor, Position { row: 0, col: 2 });
}

#[test]
fn del_shrinks_the_row() {
    let mut c = screen(24, 80);
    type_text(&mut c, "abc");
    assert_eq!(c.del(), Some("\u{7f}".to_string()));
    assert_eq!(c.cursor, Position { row: 0, col: 2 });
}

#[test]
fn clear_line_to_clears_rows_run_into() {
    let mut c = screen(24, 10);
    assert_eq!(
        c.clear_line_to(25),
        Some("\u{1b}[K\u{1b}[1;1f\u{1b}[K\u{1b}[2;1f\u{1b}[K\u{1b}[0;0f".to_string())
    );
    assert_eq!(c.cursor, Position { row: 0, col: 0 });
    assert_eq!(c.clear_line_to(3), Some("\u{1b}[K".to_string()));
}

#[test]
fn fixed_sequences() {
    let mut c = screen(24, 80);
    assert_eq!(c.move_to(Position { row: 3, col: 12 }), "\u{1b}[3;12f");
    assert_eq!(c.cursor, Position { row: 3, col: 12 });
    assert_eq!(c.query_cursor(), "\u{1b}[6n");
    assert_eq!(c.bell(), "\u{7}");
    assert_eq!(c.clear_line(), "\u{1b}[K");
}

#[test]
fn no_width_refuses_to_wrap() {
    let mut c = Controls::new();
    assert_eq!(c.outc('a'), None);
    assert_eq!(c.cursor, Position { row: 0, col: 0 });
}
