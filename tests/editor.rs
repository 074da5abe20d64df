use text_editor::editor::{Action, Editor, EditorState, Key};
use text_editor::terminal::Terminal;

fn typed_name(editor: &mut Editor, name: &str, term: &Terminal) {
    for c in name.chars() {
        assert_eq!(editor.process_input_event(Key::Char(c), term), Action::Nothing);
    }
}

#[test]
fn start_screen_keys() {
    let term = Terminal::new(80, 24);
    let mut editor = Editor::new();
    assert_eq!(editor.mode(), EditorState::Init);
    assert_eq!(editor.process_input_event(Key::Char('x'), &term), Action::Nothing);
    assert_eq!(editor.mode(), EditorState::Init);
    assert_eq!(editor.process_input_event(Key::Ctrl('n'), &term), Action::Nothing);
    assert_eq!(editor.mode(), EditorState::TakingFileInput);
    assert_eq!(editor.process_input_event(Key::Esc, &term), Action::Nothing);
    assert_eq!(editor.mode(), EditorState::Init);
    assert!(!editor.exit());
    editor.process_input_event(Key::Esc, &term);
    assert!(editor.exit());
}

#[test]
fn file_name_is_typed_and_opened() {
    let term = Terminal::new(80, 24);
    let mut editor = Editor::new();
    editor.process_input_event(Key::Ctrl('n'), &term);
    typed_name(&mut editor, "notes.txx", &term);
    editor.process_input_event(Key::Backspace, &term);
    typed_name(&mut editor, "t", &term);
    assert_eq!(editor.filename(), "notes.txt");
    assert_eq!(editor.process_input_event(Key::Char('\n'), &term), Action::Open);
    editor.open_buffer(Some("one\r\ntwo\r\n".to_string()));
    assert_eq!(editor.mode(), EditorState::Buffer);
    assert_eq!(editor.filename(), "");
    assert_eq!(editor.error_message(), "");
    let buffer = editor.active_buffer().unwrap();
    assert_eq!(buffer.filename(), "notes.txt");
    assert_eq!(buffer.serialize(), "one\r\ntwo\r\n");
}

#[test]
fn missing_file_leaves_a_message() {
    let term = Terminal::new(80, 24);
    let mut editor = Editor::new();
    editor.process_input_event(Key::Ctrl('n'), &term);
    typed_name(&mut editor, "nope", &term);
    editor.open_buffer(None);
    assert_eq!(editor.error_message(), "file nope not found, enter correct path");
    assert_eq!(editor.filename(), "");
    assert_eq!(editor.mode(), EditorState::TakingFileInput);
    assert!(editor.active_buffer().is_none());
}

#[test]
fn keys_edit_the_active_buffer() {
    let term = Terminal::new(80, 24);
    let mut editor = Editor::new();
    editor.process_input_event(Key::Ctrl('n'), &term);
    typed_name(&mut editor, "a.txt", &term);
    editor.open_buffer(Some(String::new()));
    for c in "hi".chars() {
        editor.process_input_event(Key::Char(c), &term);
    }
    editor.process_input_event(Key::Char('\n'), &term);
    editor.process_input_event(Key::Char('x'), &term);
    editor.process_input_event(Key::Backspace, &term);
    editor.process_input_event(Key::Up, &term);
    editor.process_input_event(Key::Right, &term);
    editor.process_input_event(Key::Left, &term);
    editor.process_input_event(Key::Down, &term);
    editor.process_input_event(Key::Other, &term);
    assert_eq!(editor.process_input_event(Key::Ctrl('s'), &term), Action::Save);
    let buffer = editor.active_buffer().unwrap();
    assert_eq!(buffer.serialize(), "hi\r\n\r\n");
    assert_eq!((buffer.cursor().row(), buffer.cursor().col()), (1, 0));
    editor.process_input_event(Key::Ctrl('w'), &term);
    assert_eq!(editor.active_buffer().unwrap().render(80, 24), vec!["hi", ""]);
}

#[test]
fn buffers_cycle_and_close() {
    let term = Terminal::new(80, 24);
    let mut editor = Editor::new();
    for name in ["a", "b", "c"] {
        editor.process_input_event(Key::Ctrl('n'), &term);
        typed_name(&mut editor, name, &term);
        editor.open_buffer(Some(format!("{}\n", name)));
    }
    assert_eq!(editor.active_buffer().unwrap().filename(), "c");
    editor.process_input_event(Key::Ctrl('r'), &term);
    assert_eq!(editor.active_buffer().unwrap().filename(), "a");
    editor.cycle_buffer();
    assert_eq!(editor.active_buffer().unwrap().filename(), "b");
    editor.process_input_event(Key::Esc, &term);
    assert_eq!(editor.active_buffer().unwrap().filename(), "a");
    assert_eq!(editor.mode(), EditorState::Buffer);
    editor.drop_buffer();
    assert_eq!(editor.active_buffer().unwrap().filename(), "c");
    editor.process_input_event(Key::Esc, &term);
    assert!(editor.active_buffer().is_none());
    assert_eq!(editor.mode(), EditorState::Init);
}
