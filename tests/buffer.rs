use text_editor::buffer::{text_size, Buffer, Line};
use text_editor::text::split_lines;

fn buffer_of(lines: &[&str]) -> Buffer {
    Buffer::new("notes.txt", lines.iter().map(|l| l.to_string()).collect())
}

fn lines_of(buffer: &Buffer) -> Vec<String> {
    split_lines(&buffer.serialize())
}

#[test]
fn buffer_writes_saves_and_deletes() {
    let mut buffer = Buffer::new("write_test_file.txt", vec![", World".to_string()]);
    buffer.write('H', 80);
    buffer.write('e', 80);
    buffer.write('l', 80);
    buffer.write('l', 80);
    buffer.write('o', 80);

    assert_eq!(lines_of(&buffer)[0], "Hello, World");

    buffer.write('\n', 80);
    assert_eq!(buffer.serialize(), "Hello\r\n, World\r\n");

    buffer.delete(80);
    buffer.delete(80);
    buffer.delete(80);
    buffer.delete(80);
    buffer.delete(80);

    assert_eq!(lines_of(&buffer)[0], "H, World");
}

#[test]
fn new_line_then_delete_restores_lines_and_cursor() {
    let mut buffer = buffer_of(&["Hello", "World"]);
    for _ in 0..5 {
        buffer.right();
    }
    assert_eq!((buffer.cursor().row(), buffer.cursor().col()), (0, 5));
    buffer.write('\n', 80);
    assert_eq!(lines_of(&buffer), vec!["Hello", "", "World"]);
    assert_eq!((buffer.cursor().row(), buffer.cursor().col()), (1, 0));
    buffer.delete(80);
    assert_eq!(lines_of(&buffer), vec!["Hello", "World"]);
    assert_eq!((buffer.cursor().row(), buffer.cursor().col()), (0, 5));
}

#[test]
fn wrapped_line_maps_screen_position_to_offset() {
    let line = Line::from("abcdefgh".to_string());
    assert_eq!(line.display_rows(true, 3), 3);
    assert_eq!(line.render(3), vec!["abc", "def", "gh"]);

    let mut buffer = buffer_of(&["abcdefgh"]);
    buffer.toggle_wrapping();
    buffer.down(3, 24);
    buffer.down(3, 24);
    buffer.right();
    assert_eq!((buffer.cursor().row(), buffer.cursor().col()), (2, 1));
    assert_eq!(buffer.buffer_row(3), 0);
    assert_eq!(buffer.buffer_col(3), 7);
}

#[test]
fn down_scrolls_at_the_bottom_of_the_window() {
    let lines: Vec<String> = (0..10).map(|i| format!("line {}", i)).collect();
    let mut buffer = Buffer::new("ten.txt", lines);
    for _ in 0..3 {
        buffer.down(80, 5);
    }
    assert_eq!(buffer.cursor().row(), 3);
    assert_eq!(buffer.top_offset(), 0);
    buffer.down(80, 5);
    assert_eq!(buffer.cursor().row(), 3);
    assert_eq!(buffer.top_offset(), 1);
    assert_eq!(buffer.render(80, 5), vec!["line 1", "line 2", "line 3", "line 4"]);
}

#[test]
fn down_stops_at_the_last_line() {
    let mut buffer = buffer_of(&["a", "b"]);
    buffer.down(80, 24);
    buffer.down(80, 24);
    buffer.down(80, 24);
    assert_eq!(buffer.cursor().row(), 1);
    assert_eq!(buffer.top_offset(), 0);
}

#[test]
fn up_scrolls_back_at_the_first_row() {
    let lines: Vec<String> = (0..10).map(|i| format!("{}", i)).collect();
    let mut buffer = Buffer::new("ten.txt", lines);
    for _ in 0..5 {
        buffer.down(80, 5);
    }
    assert_eq!(buffer.top_offset(), 2);
    for _ in 0..3 {
        buffer.up();
    }
    assert_eq!(buffer.cursor().row(), 0);
    assert_eq!(buffer.top_offset(), 2);
    buffer.up();
    assert_eq!(buffer.top_offset(), 1);
    buffer.up();
    buffer.up();
    assert_eq!(buffer.top_offset(), 0);
    assert_eq!(buffer.cursor().row(), 0);
}

#[test]
fn serialize_then_split_gives_the_lines_back() {
    let lines = vec!["first".to_string(), String::new(), "ends in cr\r".to_string(), "ünïcödé".to_string()];
    let buffer = Buffer::new("round.txt", lines.clone());
    assert_eq!(split_lines(&buffer.serialize()), lines);
}

#[test]
fn empty_file_is_one_empty_line() {
    let buffer = Buffer::new("empty.txt", vec![]);
    assert_eq!(buffer.serialize(), "\r\n");
    assert_eq!(buffer.last_cursor_row(80), 1);
    assert_eq!(buffer.filename(), "empty.txt");
}

#[test]
fn typing_then_erasing_restores_the_line() {
    let mut buffer = buffer_of(&["abc"]);
    buffer.right();
    buffer.write('x', 80);
    assert_eq!(lines_of(&buffer), vec!["axbc"]);
    assert_eq!(buffer.cursor().col(), 2);
    buffer.delete(80);
    assert_eq!(lines_of(&buffer), vec!["abc"]);
    assert_eq!(buffer.cursor().col(), 1);
}

#[test]
fn delete_at_start_of_first_line_does_nothing() {
    let mut buffer = buffer_of(&["abc", "def"]);
    buffer.delete(80);
    assert_eq!(lines_of(&buffer), vec!["abc", "def"]);
    assert_eq!((buffer.cursor().row(), buffer.cursor().col()), (0, 0));
}

#[test]
fn joining_the_first_line_shown_scrolls_back() {
    let mut buffer = buffer_of(&["ab", "cd", "ef", "gh"]);
    for _ in 0..3 {
        buffer.down(80, 4);
    }
    assert_eq!(buffer.top_offset(), 1);
    assert_eq!(buffer.cursor().row(), 2);
    buffer.up();
    buffer.up();
    assert_eq!(buffer.cursor().row(), 0);
    buffer.delete(80);
    assert_eq!(lines_of(&buffer), vec!["abcd", "ef", "gh"]);
    assert_eq!(buffer.top_offset(), 0);
    assert_eq!((buffer.cursor().row(), buffer.cursor().col()), (0, 2));
    assert_eq!(buffer.buffer_row(80), 0);
    assert_eq!(buffer.buffer_col(80), 2);
}

#[test]
fn row_start_maps_back_to_its_line() {
    let mut buffer = buffer_of(&["abcdefgh", "xy", "z"]);
    buffer.toggle_wrapping();
    assert_eq!(buffer.buffer_row_start(0, 3), 0);
    assert_eq!(buffer.buffer_row_start(1, 3), 3);
    assert_eq!(buffer.buffer_row_start(2, 3), 4);
    assert_eq!(buffer.last_cursor_row(3), 5);
    for _ in 0..3 {
        buffer.down(3, 24);
    }
    assert_eq!(buffer.buffer_row(3), 1);
    buffer.down(3, 24);
    assert_eq!(buffer.buffer_row(3), 2);
}

#[test]
fn clamp_brings_the_cursor_back_onto_text() {
    let mut buffer = buffer_of(&["abc", "de"]);
    for _ in 0..10 {
        buffer.right();
    }
    buffer.adjust_cursor_boundary_before_edit(80);
    assert_eq!((buffer.cursor().row(), buffer.cursor().col()), (0, 3));
    assert_eq!(buffer.buffer_col(80), 3);

    let mut wrapped = buffer_of(&["abcdefg"]);
    wrapped.toggle_wrapping();
    for _ in 0..9 {
        wrapped.right();
    }
    wrapped.adjust_cursor_boundary_before_edit(3);
    assert_eq!((wrapped.cursor().row(), wrapped.cursor().col()), (0, 1));
    assert_eq!(wrapped.buffer_col(3), 1);
    assert!(wrapped.buffer_col(3) <= 7);
}

#[test]
fn clamp_after_the_text_shrinks() {
    let mut buffer = buffer_of(&["abcdef", "gh"]);
    buffer.toggle_wrapping();
    for _ in 0..3 {
        buffer.down(2, 24);
    }
    assert_eq!(buffer.cursor().row(), 3);
    buffer.toggle_wrapping();
    buffer.adjust_cursor_boundary_before_edit(2);
    assert_eq!((buffer.cursor().row(), buffer.cursor().col()), (1, 2));
    assert_eq!(buffer.buffer_row(2), 1);
    assert_eq!(buffer.buffer_col(2), 2);
}

#[test]
fn last_cursor_col_follows_wrapping() {
    let mut buffer = buffer_of(&["abcdefg"]);
    assert_eq!(buffer.last_cursor_col(0, 3), 7);
    buffer.toggle_wrapping();
    assert_eq!(buffer.last_cursor_col(0, 3), 1);
}

#[test]
fn write_in_the_middle_of_a_wrapped_line() {
    let mut buffer = buffer_of(&["abcdef"]);
    buffer.toggle_wrapping();
    buffer.down(3, 24);
    buffer.write('X', 3);
    assert_eq!(lines_of(&buffer), vec!["abcXdef"]);
    assert_eq!((buffer.cursor().row(), buffer.cursor().col()), (1, 1));
}

#[test]
fn split_in_the_middle_of_a_line() {
    let mut buffer = buffer_of(&["abcdef"]);
    buffer.right();
    buffer.right();
    buffer.write('\n', 80);
    assert_eq!(lines_of(&buffer), vec!["ab", "cdef"]);
    assert_eq!((buffer.cursor().row(), buffer.cursor().col()), (1, 0));
}

#[test]
fn render_without_wrap_follows_the_cursor() {
    let mut buffer = buffer_of(&["0123456789", "ab"]);
    assert_eq!(buffer.render(4, 10), vec!["0123", "ab"]);
    for _ in 0..6 {
        buffer.right();
    }
    assert_eq!(buffer.render(4, 10), vec!["3456", ""]);
    buffer.toggle_wrapping();
    assert_eq!(buffer.render(4, 10), vec!["0123", "4567", "89", "ab"]);
    assert_eq!(buffer.render(4, 4), vec!["0123", "4567", "89"]);
    assert_eq!(buffer.render(4, 3), Vec::<String>::new());
}

#[test]
fn visible_range_counts_wrapped_rows() {
    let mut buffer = buffer_of(&["abcdef", "g", "h"]);
    assert_eq!(buffer.visible_range(3, 3), (0, 2));
    assert_eq!(buffer.visible_range(3, 10), (0, 3));
    assert_eq!(buffer.visible_range(3, 1), (0, 0));
    buffer.toggle_wrapping();
    assert_eq!(buffer.visible_range(3, 3), (0, 1));
    assert_eq!(buffer.visible_range(3, 4), (0, 2));
    assert_eq!(buffer.visible_range(3, 2), (0, 0));
}

#[test]
fn line_rows_and_windows() {
    let line = Line::from("abcdef".to_string());
    assert_eq!(line.display_rows(false, 3), 1);
    assert_eq!(line.display_rows(true, 3), 2);
    assert_eq!(line.display_rows(true, 4), 2);
    assert_eq!(line.display_rows(true, 6), 1);
    assert_eq!(Line::from(String::new()).display_rows(true, 3), 1);
    assert_eq!(Line::from(String::new()).render(3), vec![""]);
    assert_eq!(line.render(4), vec!["abcd", "ef"]);
    assert_eq!(line.render(4).concat(), "abcdef");
    assert_eq!(line.render_no_wrap(1, 4), "abcd");
    assert_eq!(line.render_no_wrap(6, 4), "cdef");
    assert_eq!(line.render_no_wrap(20, 4), "");
    assert_eq!(line.render_no_wrap(9, 4), "f");
}

#[test]
fn text_size_counts_characters_and_terminators() {
    assert_eq!(text_size(&vec![]), Some(0));
    assert_eq!(text_size(&vec!["ab".to_string(), String::new(), "é".to_string()]), Some(6));
    let buffer = buffer_of(&["ab", "", "é"]);
    assert_eq!(buffer.size(), 6);
}
