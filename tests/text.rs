use text_editor::cursor::Cursor;
use text_editor::terminal::Terminal;
use text_editor::text::{chars_of, split_lines, string_of_range};

#[test]
fn split_lines_follows_line_feeds() {
    assert_eq!(split_lines(""), Vec::<String>::new());
    assert_eq!(split_lines("a"), vec!["a"]);
    assert_eq!(split_lines("a\n"), vec!["a"]);
    assert_eq!(split_lines("a\r\nb\r\n"), vec!["a", "b"]);
    assert_eq!(split_lines("\n\n"), vec!["", ""]);
    assert_eq!(split_lines("a\r"), vec!["a\r"]);
    assert_eq!(split_lines("a\r\r\nb"), vec!["a\r", "b"]);
}

#[test]
fn chars_and_strings_convert() {
    assert_eq!(chars_of("héllo"), vec!['h', 'é', 'l', 'l', 'o']);
    let v = vec!['a', 'b', 'ç', 'd'];
    assert_eq!(string_of_range(&v, 1, 3), "bç");
    assert_eq!(string_of_range(&v, 2, 2), "");
}

#[test]
fn cursor_moves() {
    let mut cursor = Cursor::new();
    assert_eq!((cursor.row(), cursor.col()), (0, 0));
    cursor.left();
    cursor.up();
    assert_eq!((cursor.row(), cursor.col()), (0, 0));
    cursor.right();
    cursor.right();
    cursor.down();
    assert_eq!((cursor.row(), cursor.col()), (1, 2));
    cursor.left();
    assert_eq!(cursor.col(), 1);
    cursor.new_line();
    assert_eq!((cursor.row(), cursor.col()), (2, 0));
    cursor.delete_line(7);
    assert_eq!((cursor.row(), cursor.col()), (1, 7));
    cursor.up();
    assert_eq!((cursor.row(), cursor.col()), (0, 7));
    cursor.delete_line(3);
    assert_eq!((cursor.row(), cursor.col()), (0, 7));
    cursor.goto(4, 9);
    assert_eq!((cursor.row(), cursor.col()), (4, 9));
}

#[test]
fn terminal_keeps_its_size() {
    let term = Terminal::new(80, 24);
    assert_eq!(term.cols(), 80);
    assert_eq!(term.rows(), 24);
}
