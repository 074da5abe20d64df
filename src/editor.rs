use vstd::prelude::*;

use crate::buffer::{text_size, text_size_of, Buffer};
use crate::terminal::Terminal;
use crate::text::{lines_in, split_lines, string_of_range, views_of};

verus! {

/// What the editor is doing: showing its start screen, editing a buffer, or
/// taking the name of a file to open.
#[derive(Clone, Copy, Debug, PartialEq, Eq, Structural)]
pub enum EditorState {
    Init,
    Buffer,
    TakingFileInput,
}

/// A key the user pressed.
#[derive(Clone, Copy, Debug, PartialEq, Eq, Structural)]
pub enum Key {
    Char(char),
    Ctrl(char),
    Backspace,
    Up,
    Down,
    Left,
    Right,
    Esc,
    Other,
}

/// What the caller has to do after a key was handled.
#[derive(Clone, Copy, Debug, PartialEq, Eq, Structural)]
pub enum Action {
    /// Nothing more.
    Nothing,
    /// Write the active buffer to its file.
    Save,
    /// Read the file named by `filename` and hand its text to `open_buffer`.
    Open,
}

/// The open buffers, the one being edited, and the state of the session.
pub struct Editor {
    buffer_index: usize,
    buffers: Vec<Buffer>,
    filename: Vec<char>,
    exit: bool,
    mode: EditorState,
    error_message: String,
}

/// The message shown when no file of the given name can be read.
pub open spec fn not_found_message(name: Seq<char>) -> Seq<char> {
    "file "@ + name + " not found, enter correct path"@
}

/// The message shown when a file holds more than a buffer can count.
pub open spec fn too_large_message(name: Seq<char>) -> Seq<char> {
    "file "@ + name + " is too large"@
}

/// The index that follows `i` among `n` buffers, back to the first after the
/// last.
pub open spec fn next_index(i: int, n: int) -> int {
    if i + 1 >= n {
        0
    } else {
        i + 1
    }
}

impl Editor {
    pub closed spec fn buffers_v(&self) -> Seq<Buffer> {
        self.buffers@
    }

    pub closed spec fn index(&self) -> int {
        self.buffer_index as int
    }

    pub closed spec fn mode_v(&self) -> EditorState {
        self.mode
    }

    pub closed spec fn exiting(&self) -> bool {
        self.exit
    }

    /// The name of the file to open, as typed so far.
    pub closed spec fn pending(&self) -> Seq<char> {
        self.filename@
    }

    pub closed spec fn message(&self) -> Seq<char> {
        self.error_message@
    }

    /// Every buffer is well formed; the index points at one of them, or is 0
    /// when there are none; a buffer is being edited only when one is open.
    pub open spec fn wf(&self) -> bool {
        &&& forall|i: int| 0 <= i < self.buffers_v().len() ==> #[trigger] self.buffers_v()[i].wf()
        &&& (self.index() < self.buffers_v().len() || (self.buffers_v().len() == 0 && self.index() == 0))
        &&& 0 <= self.index()
        &&& self.mode_v() == EditorState::Buffer ==> self.buffers_v().len() > 0
    }

    /// `after` is this editor with `f` in place of the active buffer.
    pub open spec fn with_active(&self, after: Editor, f: Buffer) -> bool {
        &&& after.buffers_v() == self.buffers_v().update(self.index(), f)
        &&& after.index() == self.index()
        &&& after.mode_v() == self.mode_v()
        &&& after.exiting() == self.exiting()
        &&& after.pending() == self.pending()
        &&& after.message() == self.message()
    }

    /// `after` is this editor, the state of the session but `mode` unchanged.
    pub open spec fn same_session(&self, after: Editor) -> bool {
        &&& after.buffers_v() == self.buffers_v()
        &&& after.index() == self.index()
        &&& after.exiting() == self.exiting()
        &&& after.pending() == self.pending()
        &&& after.message() == self.message()
    }

    /// What a key does on the start screen: Esc ends the session, Ctrl-N asks
    /// for the name of a file to open, any other key nothing.
    pub open spec fn init_step(&self, after: Editor, key: Key, action: Action) -> bool {
        &&& action == Action::Nothing
        &&& after.buffers_v() == self.buffers_v()
        &&& after.index() == self.index()
        &&& after.pending() == self.pending()
        &&& after.message() == self.message()
        &&& if key == Key::Esc {
            after.exiting() && after.mode_v() == self.mode_v()
        } else if key == Key::Ctrl('n') {
            after.exiting() == self.exiting() && after.mode_v() == EditorState::TakingFileInput
        } else {
            after.exiting() == self.exiting() && after.mode_v() == self.mode_v()
        }
    }

    /// What a key does while a file name is typed: Esc goes back to the active
    /// buffer, or to the start screen when none is open; Enter asks the caller
    /// to open the file; Backspace erases the last character of the name; any
    /// other character is added to it.
    pub open spec fn input_step(&self, after: Editor, key: Key, action: Action) -> bool {
        &&& after.buffers_v() == self.buffers_v()
        &&& after.index() == self.index()
        &&& after.exiting() == self.exiting()
        &&& after.message() == self.message()
        &&& match key {
            Key::Esc => {
                &&& action == Action::Nothing
                &&& after.pending() == self.pending()
                &&& after.mode_v() == if self.buffers_v().len() > 0 {
                    EditorState::Buffer
                } else {
                    EditorState::Init
                }
            },
            Key::Char(c) => {
                &&& after.mode_v() == self.mode_v()
                &&& c == '\n' ==> action == Action::Open && after.pending() == self.pending()
                &&& c != '\n' ==> action == Action::Nothing && after.pending() == self.pending().push(c)
            },
            Key::Backspace => {
                &&& action == Action::Nothing
                &&& after.mode_v() == self.mode_v()
                &&& after.pending() == if self.pending().len() > 0 {
                    self.pending().drop_last()
                } else {
                    self.pending()
                }
            },
            _ => action == Action::Nothing && after.mode_v() == self.mode_v() && after.pending()
                == self.pending(),
        }
    }

    /// What a key does to the active buffer in a window of `width` columns
    /// and `height` rows: Esc closes it; a character is typed; Backspace
    /// erases; the arrows move; Ctrl-S asks the caller to save, Ctrl-N asks
    /// for a file name, Ctrl-R moves to the next buffer, Ctrl-W switches
    /// wrapping. A character is left out when the text's size is at its
    /// limit, and a move right when the cursor's column is.
    pub open spec fn buffer_step(&self, after: Editor, key: Key, width: nat, height: int, action: Action) -> bool {
        let b = self.buffers_v()[self.index()];
        let f = after.buffers_v()[self.index()];
        let edited = self.with_active(after, f);
        match key {
            Key::Esc => {
                &&& action == Action::Nothing
                &&& after.buffers_v() == self.buffers_v().remove(self.index())
                &&& after.index() == next_index(self.index(), self.buffers_v().len() - 1)
                &&& after.mode_v() == if self.buffers_v().len() == 1 {
                    EditorState::Init
                } else {
                    self.mode_v()
                }
                &&& after.exiting() == self.exiting()
                &&& after.pending() == self.pending()
                &&& after.message() == self.message()
            },
            Key::Char(c) => {
                &&& action == Action::Nothing
                &&& edited
                &&& text_size_of(b.text()) < usize::MAX ==> b.wrote(f, c, width)
                &&& text_size_of(b.text()) >= usize::MAX ==> f == b
            },
            Key::Ctrl(c) => {
                if c == 's' {
                    action == Action::Save && after == *self
                } else if c == 'n' {
                    &&& action == Action::Nothing
                    &&& self.same_session(after)
                    &&& after.mode_v() == EditorState::TakingFileInput
                } else if c == 'r' {
                    &&& action == Action::Nothing
                    &&& after.buffers_v() == self.buffers_v()
                    &&& after.index() == next_index(self.index(), self.buffers_v().len() as int)
                    &&& after.mode_v() == self.mode_v()
                    &&& after.exiting() == self.exiting()
                    &&& after.pending() == self.pending()
                    &&& after.message() == self.message()
                } else if c == 'w' {
                    action == Action::Nothing && edited && b.toggled(f)
                } else {
                    action == Action::Nothing && after == *self
                }
            },
            Key::Backspace => action == Action::Nothing && edited && b.deleted(f, width),
            Key::Up => action == Action::Nothing && edited && b.moved_up(f),
            Key::Down => action == Action::Nothing && edited && b.moved_down(f, width, height),
            Key::Left => action == Action::Nothing && edited && b.moved_left(f),
            Key::Right => {
                &&& action == Action::Nothing
                &&& edited
                &&& b.cur().col() < usize::MAX ==> b.moved_right(f)
                &&& b.cur().col() == usize::MAX ==> f == b
            },
            Key::Other => action == Action::Nothing && after == *self,
        }
    }

    /// An editor on its start screen with no buffer open.
    pub fn new() -> (r: Editor)
        ensures
            r.wf(),
            r.buffers_v().len() == 0,
            r.mode_v() == EditorState::Init,
            !r.exiting(),
            r.pending().len() == 0,
            r.message().len() == 0,
    {
        Editor {
            buffer_index: 0,
            buffers: Vec::new(),
            filename: Vec::new(),
            exit: false,
            mode: EditorState::Init,
            error_message: String::new(),
        }
    }

    /// What the editor is doing.
    pub fn mode(&self) -> (r: EditorState)
        ensures
            r == self.mode_v(),
    {
        self.mode
    }

    /// Whether the session is over.
    pub fn exit(&self) -> (r: bool)
        ensures
            r == self.exiting(),
    {
        self.exit
    }

    /// The name of the file to open, as typed so far.
    pub fn filename(&self) -> (r: String)
        ensures
            r@ == self.pending(),
    {
        string_of_range(&self.filename, 0, self.filename.len())
    }

    /// Why the last file could not be opened; empty when it could.
    pub fn error_message(&self) -> (r: &String)
        ensures
            r@ == self.message(),
    {
        &self.error_message
    }

    /// The buffer being edited, when one is open.
    pub fn active_buffer(&self) -> (r: Option<&Buffer>)
        requires
            self.wf(),
        ensures
            self.buffers_v().len() == 0 ==> r is None,
            self.buffers_v().len() > 0 ==> r == Some(&self.buffers_v()[self.index()]),
    {
        if self.buffers.len() == 0 {
            None
        } else {
            Some(&self.buffers[self.buffer_index])
        }
    }

    /// Makes the next buffer the active one, the first after the last.
    pub fn cycle_buffer(&mut self)
        requires
            forall|i: int|
                0 <= i < old(self).buffers_v().len() ==> #[trigger] old(self).buffers_v()[i].wf(),
            0 <= old(self).index() <= old(self).buffers_v().len(),
        ensures
            old(self).mode_v() == EditorState::Buffer ==> old(self).buffers_v().len() > 0 ==> final(self).wf(),
            old(self).mode_v() != EditorState::Buffer ==> final(self).wf(),
            final(self).index() == next_index(old(self).index(), old(self).buffers_v().len() as int),
            final(self).buffers_v() == old(self).buffers_v(),
            final(self).mode_v() == old(self).mode_v(),
            final(self).exiting() == old(self).exiting(),
            final(self).pending() == old(self).pending(),
            final(self).message() == old(self).message(),
    {
        if self.buffer_index < self.buffers.len() && self.buffer_index + 1 < self.buffers.len() {
            self.buffer_index += 1;
        } else {
            self.buffer_index = 0;
        }
    }

    /// Closes the active buffer and makes the one after it active; back to the
    /// start screen when none is left.
    pub fn drop_buffer(&mut self)
        requires
            old(self).wf(),
            old(self).buffers_v().len() > 0,
        ensures
            final(self).wf(),
            final(self).buffers_v() == old(self).buffers_v().remove(old(self).index()),
            final(self).index() == next_index(old(self).index(), old(self).buffers_v().len() - 1),
            final(self).mode_v() == if old(self).buffers_v().len() == 1 {
                EditorState::Init
            } else {
                old(self).mode_v()
            },
            final(self).exiting() == old(self).exiting(),
            final(self).pending() == old(self).pending(),
            final(self).message() == old(self).message(),
    {
        self.buffers.remove(self.buffer_index);
        assert(forall|i: int|
            0 <= i < self.buffers_v().len() ==> #[trigger] self.buffers_v()[i] == old(self).buffers_v()[if i
                < old(self).index() { i } else { i + 1 }]);
        self.cycle_buffer();
        if self.buffers.len() == 0 {
            self.mode = EditorState::Init;
        }
    }

    /// Opens a buffer on the text of the file named by `filename`, or, when
    /// the file could not be read (`None`), keeps the editor as it is with a
    /// message that says so. The typed name is cleared either way.
    pub fn open_buffer(&mut self, content: Option<String>)
        requires
            old(self).wf(),
        ensures
            final(self).wf(),
            final(self).pending().len() == 0,
            final(self).exiting() == old(self).exiting(),
            content is None ==> {
                &&& final(self).buffers_v() == old(self).buffers_v()
                &&& final(self).index() == old(self).index()
                &&& final(self).mode_v() == old(self).mode_v()
                &&& final(self).message() == not_found_message(old(self).pending())
            },
            content is Some && text_size_of(lines_in(content->0@)) > usize::MAX ==> {
                &&& final(self).buffers_v() == old(self).buffers_v()
                &&& final(self).index() == old(self).index()
                &&& final(self).mode_v() == old(self).mode_v()
                &&& final(self).message() == too_large_message(old(self).pending())
            },
            content is Some && text_size_of(lines_in(content->0@)) <= usize::MAX ==> {
                let ls = lines_in(content->0@);
                let b = final(self).buffers_v().last();
                &&& final(self).buffers_v().len() == old(self).buffers_v().len() + 1
                &&& final(self).buffers_v().drop_last() == old(self).buffers_v()
                &&& b.text() == (if ls.len() == 0 { seq![Seq::<char>::empty()] } else { ls })
                &&& b.name() == old(self).pending()
                &&& b.cur().row() == 0 && b.cur().col() == 0
                &&& b.top() == 0
                &&& !b.wrap()
                &&& final(self).index() == old(self).buffers_v().len()
                &&& final(self).mode_v() == EditorState::Buffer
                &&& final(self).message().len() == 0
            },
    {
        let name = string_of_range(&self.filename, 0, self.filename.len());
        match content {
            Some(text) => {
                let lines = split_lines(text.as_str());
                match text_size(&lines) {
                    Some(_) => {
                        assert(lines@.map_values(|s: String| s@) == views_of(lines@));
                        let buffer = Buffer::new(name.as_str(), lines);
                        let ghost before = self.buffers@;
                        self.buffers.push(buffer);
                        assert(self.buffers@.drop_last() =~= before);
                        self.buffer_index = self.buffers.len() - 1;
                        self.mode = EditorState::Buffer;
                        self.filename = Vec::new();
                        self.error_message = String::new();
                    },
                    None => {
                        assert(lines@.map_values(|s: String| s@) == views_of(lines@));
                        let mut m = String::from_str("file ");
                        m.append(name.as_str());
                        m.append(" is too large");
                        self.error_message = m;
                        self.filename = Vec::new();
                    },
                }
            },
            None => {
                let mut m = String::from_str("file ");
                m.append(name.as_str());
                m.append(" not found, enter correct path");
                self.error_message = m;
                self.filename = Vec::new();
            },
        }
    }

    /// Handles one key in a window of the given size, as `init_step`,
    /// `buffer_step` and `input_step` say for each mode, and tells the caller
    /// what is left for it to do.
    pub fn process_input_event(&mut self, event: Key, term: &Terminal) -> (r: Action)
        requires
            old(self).wf(),
            term.cols() > 0,
        ensures
            final(self).wf(),
            old(self).mode_v() == EditorState::Init ==> old(self).init_step(*final(self), event, r),
            old(self).mode_v() == EditorState::Buffer ==> old(self).buffer_step(
                *final(self),
                event,
                term.cols() as nat,
                term.rows() as int,
                r,
            ),
            old(self).mode_v() == EditorState::TakingFileInput ==> old(self).input_step(
                *final(self),
                event,
                r,
            ),
    {
        let width = term.cols();
        let height = term.rows();
        match self.mode {
            EditorState::Init => {
                match event {
                    Key::Esc => {
                        self.exit = true;
                    },
                    Key::Ctrl(c) => {
                        if c == 'n' {
                            self.mode = EditorState::TakingFileInput;
                        }
                    },
                    _ => {},
                }
                Action::Nothing
            },
            EditorState::Buffer => {
                let i = self.buffer_index;
                assert(self.buffers_v()[i as int].wf());
                match event {
                    Key::Esc => {
                        self.drop_buffer();
                        Action::Nothing
                    },
                    Key::Char(c) => {
                        if self.buffers[i].size() < usize::MAX {
                            self.buffers[i].write(c, width);
                        }
                        assert(self.buffers@ =~= old(self).buffers@.update(i as int, self.buffers@[i as int]));
                        proof { self.lemma_update_keeps_wf(*old(self), i as int); }
                        Action::Nothing
                    },
                    Key::Ctrl(c) => {
                        if c == 's' {
                            Action::Save
                        } else if c == 'n' {
                            self.mode = EditorState::TakingFileInput;
                            Action::Nothing
                        } else if c == 'r' {
                            self.cycle_buffer();
                            Action::Nothing
                        } else if c == 'w' {
                            self.buffers[i].toggle_wrapping();
                            proof { self.lemma_update_keeps_wf(*old(self), i as int); }
                            Action::Nothing
                        } else {
                            Action::Nothing
                        }
                    },
                    Key::Backspace => {
                        self.buffers[i].delete(width);
                        proof { self.lemma_update_keeps_wf(*old(self), i as int); }
                        Action::Nothing
                    },
                    Key::Up => {
                        self.buffers[i].up();
                        proof { self.lemma_update_keeps_wf(*old(self), i as int); }
                        Action::Nothing
                    },
                    Key::Down => {
                        self.buffers[i].down(width, height);
                        proof { self.lemma_update_keeps_wf(*old(self), i as int); }
                        Action::Nothing
                    },
                    Key::Left => {
                        self.buffers[i].left();
                        proof { self.lemma_update_keeps_wf(*old(self), i as int); }
                        Action::Nothing
                    },
                    Key::Right => {
                        if self.buffers[i].cursor().col() < usize::MAX {
                            self.buffers[i].right();
                        }
                        assert(self.buffers@ =~= old(self).buffers@.update(i as int, self.buffers@[i as int]));
                        proof { self.lemma_update_keeps_wf(*old(self), i as int); }
                        Action::Nothing
                    },
                    Key::Other => Action::Nothing,
                }
            },
            EditorState::TakingFileInput => {
                match event {
                    Key::Esc => {
                        if self.buffers.len() > 0 {
                            self.mode = EditorState::Buffer;
                        } else {
                            self.mode = EditorState::Init;
                        }
                        Action::Nothing
                    },
                    Key::Char(c) => {
                        if c == '\n' {
                            Action::Open
                        } else {
                            self.filename.push(c);
                            Action::Nothing
                        }
                    },
                    Key::Backspace => {
                        self.filename.pop();
                        Action::Nothing
                    },
                    _ => Action::Nothing,
                }
            },
        }
    }

    /// Changing the active buffer into another well-formed one keeps the
    /// editor well formed.
    proof fn lemma_update_keeps_wf(&self, before: Editor, i: int)
        requires
            before.wf(),
            0 <= i < before.buffers_v().len(),
            i == before.index(),
            self.buffers_v().len() == before.buffers_v().len(),
            forall|j: int| 0 <= j < self.buffers_v().len() && j != i ==> #[trigger] self.buffers_v()[j]
                == before.buffers_v()[j],
            self.buffers_v()[i].wf(),
            self.index() == before.index(),
            self.mode_v() == before.mode_v(),
        ensures
            self.wf(),
    {
    }
}

} // verus!
