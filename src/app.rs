use crate::buffer::{lossy_text, Buffer};
use vstd::prelude::*;
use vstd::utf8::{decode_utf8, valid_utf8};

verus! {

/// What a command line is for.
#[derive(Copy, Clone, PartialEq, Eq, Structural, Debug)]
pub enum CommandMode {
    Read,
    Write,
}

/// Editing the document, or typing a command (a file name to open or to
/// save to).
#[derive(Copy, Clone, PartialEq, Eq, Structural, Debug)]
pub enum AppMode {
    Edit,
    Command(CommandMode),
}

/// The editor's state: the document, the command line, the mode and the
/// file the document belongs to.
#[derive(Debug)]
pub struct App {
    pub buffer: Buffer,
    pub command_buffer: Buffer,
    pub mode: AppMode,
    pub file_path: Option<String>,
}

impl App {
    pub open spec fn wf(&self) -> bool {
        &&& self.buffer.wf()
        &&& self.command_buffer.wf()
    }

    /// The buffer that keys go to in the current mode.
    pub open spec fn active(&self) -> Buffer {
        match self.mode {
            AppMode::Edit => self.buffer,
            AppMode::Command(_) => self.command_buffer,
        }
    }

    /// An editor in edit mode with empty buffers; the second argument, when
    /// given, names the document's file.
    pub fn new(args: &Vec<String>) -> (r: App)
        ensures
            r.wf(),
            r.mode == AppMode::Edit,
            r.buffer.text().len() == 0,
            r.command_buffer.text().len() == 0,
            r.buffer.original_str@.len() == 0,
            r.buffer.added_str@.len() == 0,
            r.command_buffer.original_str@.len() == 0,
            r.command_buffer.added_str@.len() == 0,
            r.buffer.cursor.original_line_offset == 0,
            r.command_buffer.cursor.original_line_offset == 0,
            args@.len() > 1 ==> r.file_path.is_some() && r.file_path.unwrap()@ == args@[1]@,
            args@.len() <= 1 ==> r.file_path.is_none(),
    {
        let file_path = if args.len() > 1 {
            Some(args[1].clone())
        } else {
            None
        };
        App { buffer: Buffer::new(), command_buffer: Buffer::new(), mode: AppMode::Edit, file_path }
    }

    /// Replaces the document with `contents`.
    pub fn load(&mut self, contents: String)
        ensures
            final(self).buffer.wf(),
            final(self).buffer.text() == vstd::utf8::encode_utf8(contents@),
            final(self).buffer.pos() == 0,
            final(self).command_buffer == old(self).command_buffer,
            final(self).mode == old(self).mode,
            final(self).file_path == old(self).file_path,
    {
        self.buffer = Buffer::with_contents(contents);
    }

    pub fn buffer(&self) -> (r: &Buffer)
        ensures
            *r == self.buffer,
    {
        &self.buffer
    }

    pub fn mode(&self) -> (r: AppMode)
        ensures
            r == self.mode,
    {
        self.mode
    }

    pub fn app_mode(&self) -> (r: AppMode)
        ensures
            r == self.mode,
    {
        self.mode
    }

    pub fn set_mode(&mut self, mode: AppMode)
        ensures
            final(self).mode == mode,
            final(self).buffer == old(self).buffer,
            final(self).command_buffer == old(self).command_buffer,
            final(self).file_path == old(self).file_path,
    {
        self.mode = mode;
    }

    /// The document's text, as one entry.
    pub fn get_text_as_iter(&self) -> (r: Vec<String>)
        requires
            self.wf(),
        ensures
            r@.len() == 1,
            r@[0]@ == lossy_text(self.buffer.text()),
            valid_utf8(self.buffer.text()) ==> r@[0]@ == decode_utf8(self.buffer.text()),
    {
        let mut v: Vec<String> = Vec::new();
        v.push(self.buffer.as_str());
        v
    }

    /// The text to show: the document in edit mode, the command line
    /// otherwise.
    pub fn get_text_based_on_mode(&self) -> (r: Vec<String>)
        requires
            self.wf(),
        ensures
            r@.len() == 1,
            r@[0]@ == lossy_text(self.active().text()),
            valid_utf8(self.active().text()) ==> r@[0]@ == decode_utf8(self.active().text()),
    {
        let mut v: Vec<String> = Vec::new();
        match self.mode {
            AppMode::Edit => v.push(self.buffer.as_str()),
            AppMode::Command(_) => v.push(self.command_buffer.as_str()),
        }
        v
    }

    pub fn get_buffer_text(&self) -> (r: String)
        requires
            self.wf(),
        ensures
            r@ == lossy_text(self.buffer.text()),
            valid_utf8(self.buffer.text()) ==> r@ == decode_utf8(self.buffer.text()),
    {
        self.buffer.as_str()
    }

    pub fn get_command_buffer_text(&self) -> (r: String)
        requires
            self.wf(),
        ensures
            r@ == lossy_text(self.command_buffer.text()),
            valid_utf8(self.command_buffer.text()) ==> r@ == decode_utf8(self.command_buffer.text()),
    {
        self.command_buffer.as_str()
    }

    /// Types `c` into the active buffer (nothing happens when it has no room
    /// left).
    pub fn add_char(&mut self, c: char)
        requires
            old(self).wf(),
        ensures
            final(self).wf(),
            final(self).mode == old(self).mode,
            final(self).file_path == old(self).file_path,
            old(self).mode == AppMode::Edit ==> final(self).command_buffer == old(self).command_buffer,
            old(self).mode != AppMode::Edit ==> final(self).buffer == old(self).buffer,
            old(self).active().has_room_spec(4) ==> final(self).active().text() == old(self).active().text().take(old(self).active().pos()) + vstd::utf8::encode_utf8(seq![c])
                + old(self).active().text().skip(old(self).active().pos()),
            old(self).active().has_room_spec(4) ==> final(self).active().pos() == old(self).active().pos()
                + vstd::utf8::encode_utf8(seq![c]).len(),
            !old(self).active().has_room_spec(4) ==> final(self).active() == old(self).active(),
            old(self).active().has_room_spec(4) ==> final(self).active().added_str@ == old(self).active().added_str@
                + vstd::utf8::encode_utf8(seq![c]),
            final(self).active().original_str@ == old(self).active().original_str@,
            old(self).active().has_room_spec(4) ==> final(self).active().cursor.original_line_offset
                == final(self).active().cursor.line_offset,
    {
        match self.mode {
            AppMode::Edit => {
                if self.buffer.has_room(4) {
                    self.buffer.insert(c);
                }
            },
            AppMode::Command(_) => {
                if self.command_buffer.has_room(4) {
                    self.command_buffer.insert(c);
                }
            },
        }
    }

    /// Deletes the byte before the caret of the active buffer.
    pub fn remove_char(&mut self)
        requires
            old(self).wf(),
        ensures
            final(self).wf(),
            final(self).mode == old(self).mode,
            final(self).file_path == old(self).file_path,
            old(self).active().pos() > 0 ==> final(self).active().text() == old(self).active().text().take(old(self).active().pos() - 1) + old(self).active().text().skip(old(self).active().pos()),
            old(self).active().pos() == 0 ==> final(self).active() == old(self).active(),
            old(self).mode == AppMode::Edit ==> final(self).command_buffer == old(self).command_buffer,
            old(self).mode != AppMode::Edit ==> final(self).buffer == old(self).buffer,
            final(self).active().original_str@ == old(self).active().original_str@,
            final(self).active().added_str@ == old(self).active().added_str@,
            old(self).active().pos() > 0 ==> final(self).active().pos() == old(self).active().pos() - 1,
            old(self).active().pos() > 0 ==> final(self).active().cursor.original_line_offset
                == final(self).active().cursor.line_offset,
    {
        match self.mode {
            AppMode::Edit => self.buffer.remove(),
            AppMode::Command(_) => self.command_buffer.remove(),
        }
    }

    /// Moves the caret of the active buffer one byte left.
    pub fn move_cursor_left(&mut self)
        requires
            old(self).wf(),
        ensures
            final(self).wf(),
            final(self).mode == old(self).mode,
            final(self).active().text() == old(self).active().text(),
            old(self).active().pos() > 0 ==> final(self).active().pos() == old(self).active().pos() - 1,
            old(self).active().pos() == 0 ==> final(self).active() == old(self).active(),
            old(self).mode == AppMode::Edit ==> final(self).command_buffer == old(self).command_buffer,
            old(self).mode != AppMode::Edit ==> final(self).buffer == old(self).buffer,
            final(self).active().original_str == old(self).active().original_str,
            final(self).active().added_str == old(self).active().added_str,
            final(self).active().nodes() == old(self).active().nodes(),
    {
        match self.mode {
            AppMode::Edit => self.buffer.move_cursor_left(),
            AppMode::Command(_) => self.command_buffer.move_cursor_left(),
        }
    }

    /// Moves the caret of the active buffer one byte right.
    pub fn move_cursor_right(&mut self)
        requires
            old(self).wf(),
        ensures
            final(self).wf(),
            final(self).mode == old(self).mode,
            final(self).active().text() == old(self).active().text(),
            old(self).active().pos() < old(self).active().text().len() ==> final(self).active().pos() == old(self).active().pos() + 1,
            old(self).active().pos() == old(self).active().text().len() ==> final(self).active()
                == old(self).active(),
            old(self).mode == AppMode::Edit ==> final(self).command_buffer == old(self).command_buffer,
            old(self).mode != AppMode::Edit ==> final(self).buffer == old(self).buffer,
            final(self).active().original_str == old(self).active().original_str,
            final(self).active().added_str == old(self).active().added_str,
            final(self).active().nodes() == old(self).active().nodes(),
    {
        match self.mode {
            AppMode::Edit => self.buffer.move_cursor_right(),
            AppMode::Command(_) => self.command_buffer.move_cursor_right(),
        }
    }

    /// Moves the caret of the document one line up.
    pub fn move_cursor_up(&mut self)
        requires
            old(self).wf(),
        ensures
            final(self).wf(),
            final(self).mode == old(self).mode,
            final(self).buffer.text() == old(self).buffer.text(),
            old(self).buffer.current_line > 0 ==> final(self).buffer.pos()
                == crate::text::line_above(
                old(self).buffer.text(),
                old(self).buffer.pos(),
                old(self).buffer.cursor.original_line_offset as int,
            ),
            old(self).buffer.current_line == 0 ==> final(self).buffer == old(self).buffer,
            final(self).command_buffer == old(self).command_buffer,
            final(self).file_path == old(self).file_path,
            final(self).buffer.original_str == old(self).buffer.original_str,
            final(self).buffer.added_str == old(self).buffer.added_str,
            final(self).buffer.nodes() == old(self).buffer.nodes(),
    {
        self.buffer.move_cursor_up();
    }

    /// Moves the caret of the document one line down.
    pub fn move_cursor_down(&mut self)
        requires
            old(self).wf(),
        ensures
            final(self).wf(),
            final(self).mode == old(self).mode,
            final(self).buffer.text() == old(self).buffer.text(),
            old(self).buffer.current_line < old(self).buffer.line_count ==> final(self).buffer.pos() == crate::text::line_below(
                old(self).buffer.text(),
                old(self).buffer.pos(),
                old(self).buffer.cursor.original_line_offset as int,
            ),
            old(self).buffer.current_line == old(self).buffer.line_count ==> final(self).buffer
                == old(self).buffer,
            final(self).command_buffer == old(self).command_buffer,
            final(self).file_path == old(self).file_path,
            final(self).buffer.original_str == old(self).buffer.original_str,
            final(self).buffer.added_str == old(self).buffer.added_str,
            final(self).buffer.nodes() == old(self).buffer.nodes(),
    {
        self.buffer.move_cursor_down();
    }

    /// Ctrl-S: with a file, the path to write the document to; without one,
    /// switches to asking for a file name.
    pub fn handle_regular_save(&mut self) -> (r: Option<String>)
        ensures
            final(self).buffer == old(self).buffer,
            final(self).file_path == old(self).file_path,
            old(self).file_path.is_none() ==> r.is_none() && final(self).mode == AppMode::Command(
                CommandMode::Write,
            ),
            old(self).file_path.is_some() ==> r.is_some() && r.unwrap()@ == old(self).file_path.unwrap()@ && final(self).mode == AppMode::Edit,
    {
        match &self.file_path {
            Some(path) => {
                let p = path.clone();
                self.mode = AppMode::Edit;
                Some(p)
            },
            None => {
                self.mode = AppMode::Command(CommandMode::Write);
                None
            },
        }
    }

    /// Switches to asking for a file name to save to.
    pub fn handle_save_as_new_file(&mut self)
        ensures
            final(self).mode == AppMode::Command(CommandMode::Write),
            final(self).buffer == old(self).buffer,
            final(self).file_path == old(self).file_path,
    {
        self.mode = AppMode::Command(CommandMode::Write);
    }

    /// Takes the command line as the document's file name, clears it and
    /// goes back to editing; returns that name.
    pub fn take_file_name(&mut self) -> (r: String)
        requires
            old(self).wf(),
        ensures
            final(self).wf(),
            r@ == lossy_text(old(self).command_buffer.text()),
            valid_utf8(old(self).command_buffer.text()) ==> r@ == decode_utf8(
                old(self).command_buffer.text(),
            ),
            final(self).file_path == Some(r),
            final(self).mode == AppMode::Edit,
            final(self).buffer == old(self).buffer,
            final(self).command_buffer.text().len() == 0,
    {
        let name = self.command_buffer.as_str();
        self.command_buffer = Buffer::new();
        self.file_path = Some(name.clone());
        self.mode = AppMode::Edit;
        name
    }
}

} // verus!
