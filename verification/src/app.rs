//! The state of the interactive front end and how keys change it.
//!
//! Nothing here draws or reads: `App::handle_key` takes one key and says what
//! became of the state and what the caller has to do next.

use crate::engines::{applied, apply_pattern, EngineChoice};
use crate::text::push_char;
use vstd::prelude::*;
use vstd::string::{StrSliceExecFns, StringExecFns};

verus! {

/// One search that was run: the pattern, the text and the report.
#[derive(Debug, PartialEq, Eq)]
pub struct ExpressionEntry {
    pub pattern: String,
    pub text: String,
    pub matches: String,
}

/// What the keys currently edit.
#[derive(Debug, Clone, Copy, PartialEq, Eq)]
pub enum InputMode {
    Normal,
    EditingPattern,
    EditingText,
}

/// A key of the keyboard, as far as the front end tells keys apart.
#[derive(Debug, Clone, Copy, PartialEq, Eq)]
pub enum Key {
    Char(char),
    Enter,
    Backspace,
    Left,
    Right,
    Esc,
    Other,
}

/// One keyboard event.
#[derive(Debug, Clone, Copy, PartialEq, Eq)]
pub struct KeyPress {
    pub key: Key,
    /// Whether Control was held.
    pub control: bool,
    /// Whether the key went down (and was not released or repeated).
    pub pressed: bool,
}

/// What a key asks for.
#[derive(Debug, Clone, Copy, PartialEq, Eq)]
pub enum Command {
    Quit,
    /// Go on editing the text as it stands.
    EditText,
    /// Edit the pattern, starting from the current one.
    EditPattern,
    /// Edit a new text, starting from nothing.
    NewText,
    SubmitPattern,
    SubmitText,
    Insert(char),
    Delete,
    Left,
    Right,
    /// Leave the editing mode and drop what was typed.
    Cancel,
    Nothing,
}

/// What the caller has to do after a key was handled.
#[derive(Debug, PartialEq, Eq)]
pub enum Action {
    /// Draw the state and wait for the next key.
    Continue,
    /// Leave the loop.
    Quit,
    /// Read the named file and, if that succeeds, hand its contents to
    /// `App::add_expression`; then go on as for `Continue`.
    ReadFile(String),
}

/// The state of the front end.
pub struct App {
    /// The line being edited.
    pub input: String,
    pub pattern: String,
    pub input_mode: InputMode,
    pub expressions: Vec<ExpressionEntry>,
    /// The position of the cursor in `input`, counted in characters.
    pub character_index: usize,
    /// The file whose contents are searched when a pattern is submitted.
    pub file: Option<String>,
    pub engine_choice: EngineChoice,
}

/// `pos`, but no more than `len`.
pub open spec fn clamp(pos: int, len: int) -> int {
    if pos < len {
        pos
    } else {
        len
    }
}

/// What the key `press` asks for in the mode `mode`.
///
/// Control-C quits in every mode. In normal mode `e`, `p` and `t` start
/// editing and `q` or Escape quits. In the editing modes only keys that went
/// down count.
pub open spec fn spec_command(mode: InputMode, press: KeyPress) -> Command {
    if press.key == Key::Char('c') && press.control {
        Command::Quit
    } else {
        match mode {
            InputMode::Normal => match press.key {
                Key::Char(c) => if c == 'e' {
                    Command::EditText
                } else if c == 'p' {
                    Command::EditPattern
                } else if c == 't' {
                    Command::NewText
                } else if c == 'q' {
                    Command::Quit
                } else {
                    Command::Nothing
                },
                Key::Esc => Command::Quit,
                _ => Command::Nothing,
            },
            _ => if press.pressed {
                match press.key {
                    Key::Enter => if mode == InputMode::EditingPattern {
                        Command::SubmitPattern
                    } else {
                        Command::SubmitText
                    },
                    Key::Char(c) => Command::Insert(c),
                    Key::Backspace => Command::Delete,
                    Key::Left => Command::Left,
                    Key::Right => Command::Right,
                    Key::Esc => Command::Cancel,
                    Key::Other => Command::Nothing,
                }
            } else {
                Command::Nothing
            },
        }
    }
}

/// What the key `press` asks for in the mode `mode`.
pub fn command_for(mode: InputMode, press: &KeyPress) -> (command: Command)
    ensures
        command == spec_command(mode, *press),
{
    let control_c = match press.key {
        Key::Char(c) => c == 'c' && press.control,
        _ => false,
    };
    if control_c {
        return Command::Quit;
    }
    match mode {
        InputMode::Normal => match press.key {
            Key::Char(c) => {
                if c == 'e' {
                    Command::EditText
                } else if c == 'p' {
                    Command::EditPattern
                } else if c == 't' {
                    Command::NewText
                } else if c == 'q' {
                    Command::Quit
                } else {
                    Command::Nothing
                }
            },
            Key::Esc => Command::Quit,
            _ => Command::Nothing,
        },
        InputMode::EditingPattern => if press.pressed {
            match press.key {
                Key::Enter => Command::SubmitPattern,
                Key::Char(c) => Command::Insert(c),
                Key::Backspace => Command::Delete,
                Key::Left => Command::Left,
                Key::Right => Command::Right,
                Key::Esc => Command::Cancel,
                Key::Other => Command::Nothing,
            }
        } else {
            Command::Nothing
        },
        InputMode::EditingText => if press.pressed {
            match press.key {
                Key::Enter => Command::SubmitText,
                Key::Char(c) => Command::Insert(c),
                Key::Backspace => Command::Delete,
                Key::Left => Command::Left,
                Key::Right => Command::Right,
                Key::Esc => Command::Cancel,
                Key::Other => Command::Nothing,
            }
        } else {
            Command::Nothing
        },
    }
}

impl App {
    /// Everything but the edited line and the cursor is as before.
    pub open spec fn rest_kept(pre: App, post: App) -> bool {
        &&& post.pattern == pre.pattern
        &&& post.input_mode == pre.input_mode
        &&& post.expressions == pre.expressions
        &&& post.file == pre.file
        &&& post.engine_choice == pre.engine_choice
    }

    /// The cursor went one character to the left, if it could.
    pub open spec fn moved_left(pre: App, post: App) -> bool {
        &&& App::rest_kept(pre, post)
        &&& post.input == pre.input
        &&& post.character_index == clamp(
            if pre.character_index == 0 {
                0
            } else {
                pre.character_index - 1
            },
            pre.input@.len() as int,
        )
    }

    /// The cursor went one character to the right, if it could.
    pub open spec fn moved_right(pre: App, post: App) -> bool {
        &&& App::rest_kept(pre, post)
        &&& post.input == pre.input
        &&& post.character_index == clamp(
            if pre.character_index == usize::MAX {
                usize::MAX as int
            } else {
                pre.character_index + 1
            },
            pre.input@.len() as int,
        )
    }

    /// `c` was typed at the cursor, which went past it.
    pub open spec fn entered(pre: App, c: char, post: App) -> bool {
        &&& App::rest_kept(pre, post)
        &&& post.input@ == pre.input@.insert(
            clamp(pre.character_index as int, pre.input@.len() as int),
            c,
        )
        &&& post.character_index == clamp(
            if pre.character_index == usize::MAX {
                usize::MAX as int
            } else {
                pre.character_index + 1
            },
            (pre.input@.len() + 1) as int,
        )
    }

    /// The character before the cursor was removed and the cursor went back
    /// by one; at the start of the line nothing happens.
    pub open spec fn deleted(pre: App, post: App) -> bool {
        if pre.character_index == 0 {
            post == pre
        } else {
            let len = pre.input@.len() as int;
            &&& App::rest_kept(pre, post)
            &&& post.input@ == pre.input@.take(clamp(pre.character_index - 1, len))
                + pre.input@.skip(clamp(pre.character_index as int, len))
            &&& post.character_index == clamp(
                pre.character_index - 1,
                post.input@.len() as int,
            )
        }
    }

    /// The line was dropped and the mode became `mode`.
    pub open spec fn cleared(pre: App, mode: InputMode, post: App) -> bool {
        &&& post.input@ == Seq::<char>::empty()
        &&& post.character_index == 0
        &&& post.input_mode == mode
        &&& post.pattern == pre.pattern
        &&& post.expressions == pre.expressions
        &&& post.file == pre.file
        &&& post.engine_choice == pre.engine_choice
    }

    /// The pattern was loaded into the line, with the cursor at its end.
    pub open spec fn pattern_loaded(pre: App, post: App) -> bool {
        &&& post.input@ == pre.pattern@
        &&& post.character_index == pre.pattern@.len()
        &&& post.input_mode == InputMode::EditingPattern
        &&& post.pattern == pre.pattern
        &&& post.expressions == pre.expressions
        &&& post.file == pre.file
        &&& post.engine_choice == pre.engine_choice
    }

    /// The line became the pattern; the file to search was taken out.
    pub open spec fn pattern_submitted(pre: App, post: App) -> bool {
        &&& post.pattern@ == pre.input@
        &&& post.input@ == Seq::<char>::empty()
        &&& post.character_index == 0
        &&& post.input_mode == InputMode::Normal
        &&& post.expressions == pre.expressions
        &&& post.file matches Some(name) && name@ == Seq::<char>::empty()
        &&& post.engine_choice == pre.engine_choice
    }

    /// The pattern was applied to `text` and the outcome was recorded behind
    /// the earlier ones.
    pub open spec fn expression_added(pre: App, text: Seq<char>, post: App) -> bool {
        &&& post.expressions@.len() == pre.expressions@.len() + 1
        &&& post.expressions@.drop_last() == pre.expressions@
        &&& post.expressions@.last().pattern@ == pre.pattern@
        &&& post.expressions@.last().text@ == text
        &&& applied(pre.pattern@, text, pre.engine_choice, post.expressions@.last().matches@)
        &&& post.pattern == pre.pattern
        &&& post.engine_choice == pre.engine_choice
        &&& post.file == pre.file
    }

    /// The line was searched with the pattern and dropped.
    pub open spec fn text_submitted(pre: App, post: App) -> bool {
        &&& App::expression_added(pre, pre.input@, post)
        &&& post.input@ == Seq::<char>::empty()
        &&& post.character_index == 0
        &&& post.input_mode == InputMode::Normal
    }

    /// What `command` makes of the state `pre`, and what the caller is left
    /// to do.
    pub open spec fn handled(pre: App, command: Command, post: App, action: Action) -> bool {
        match command {
            Command::Quit => post == pre && action is Quit,
            Command::EditText => post == (App { input_mode: InputMode::EditingText, ..pre })
                && action is Continue,
            Command::EditPattern => App::pattern_loaded(pre, post) && action is Continue,
            Command::NewText => App::cleared(pre, InputMode::EditingText, post)
                && action is Continue,
            Command::SubmitPattern => App::pattern_submitted(pre, post) && match pre.file {
                Some(name) => action matches Action::ReadFile(wanted) && wanted@ == name@,
                None => action is Continue,
            },
            Command::SubmitText => App::text_submitted(pre, post) && action is Continue,
            Command::Insert(c) => App::entered(pre, c, post) && action is Continue,
            Command::Delete => App::deleted(pre, post) && action is Continue,
            Command::Left => App::moved_left(pre, post) && action is Continue,
            Command::Right => App::moved_right(pre, post) && action is Continue,
            Command::Cancel => App::cleared(pre, InputMode::Normal, post) && action is Continue,
            Command::Nothing => post == pre && action is Continue,
        }
    }

    /// A fresh state: nothing typed, no pattern, no file, normal mode.
    pub fn new(engine_choice: EngineChoice) -> (app: App)
        ensures
            app.input@ == Seq::<char>::empty(),
            app.pattern@ == Seq::<char>::empty(),
            app.input_mode == InputMode::Normal,
            app.expressions@ == Seq::<ExpressionEntry>::empty(),
            app.character_index == 0,
            app.file is None,
            app.engine_choice == engine_choice,
    {
        App {
            input: String::new(),
            pattern: String::new(),
            input_mode: InputMode::Normal,
            expressions: Vec::new(),
            character_index: 0,
            file: None,
            engine_choice,
        }
    }

    /// Sets the pattern.
    pub fn set_pattern(&mut self, p: &str)
        ensures
            final(self).pattern@ == p@,
            *final(self) == (App { pattern: final(self).pattern, ..*old(self) }),
    {
        self.pattern = String::from_str(p);
    }

    /// Sets the edited line and puts the cursor at its end.
    pub fn set_text(&mut self, t: &str)
        ensures
            final(self).input@ == t@,
            final(self).character_index == t@.len(),
            App::rest_kept(*old(self), *final(self)),
    {
        self.input = String::from_str(t);
        self.character_index = t.unicode_len();
    }

    /// Sets the file to search.
    pub fn set_file(&mut self, f: Option<String>)
        ensures
            *final(self) == (App { file: f, ..*old(self) }),
    {
        self.file = f;
    }

    /// Whether no pattern is set.
    pub fn pattern_is_empty(&self) -> (empty: bool)
        ensures
            empty == (self.pattern@.len() == 0),
    {
        self.pattern.as_str().is_empty()
    }

    /// Whether a file to search is set.
    pub fn has_file(&self) -> (has: bool)
        ensures
            has == self.file is Some,
    {
        self.file.is_some()
    }

    /// Makes the keys edit the pattern.
    pub fn enter_pattern_mode(&mut self)
        ensures
            *final(self) == (App { input_mode: InputMode::EditingPattern, ..*old(self) }),
    {
        self.input_mode = InputMode::EditingPattern;
    }

    /// Moves the cursor one character to the left.
    pub fn move_cursor_left(&mut self)
        ensures
            App::moved_left(*old(self), *final(self)),
    {
        let cursor_moved_left = self.character_index.saturating_sub(1);
        self.character_index = self.clamp_cursor(cursor_moved_left);
    }

    /// Moves the cursor one character to the right.
    pub fn move_cursor_right(&mut self)
        ensures
            App::moved_right(*old(self), *final(self)),
    {
        let cursor_moved_right = self.character_index.saturating_add(1);
        self.character_index = self.clamp_cursor(cursor_moved_right);
    }

    /// Types `new_char` at the cursor.
    pub fn enter_char(&mut self, new_char: char)
        ensures
            App::entered(*old(self), new_char, *final(self)),
    {
        let len = self.input.as_str().unicode_len();
        let at = self.clamp_cursor(self.character_index);
        let mut line = String::from_str(self.input.as_str().substring_char(0, at));
        push_char(&mut line, new_char);
        line.append(self.input.as_str().substring_char(at, len));
        self.input = line;
        self.move_cursor_right();
    }

    /// The position of the cursor in `input`, counted in bytes.
    pub fn byte_index(&self) -> (index: usize)
        ensures
            index == vstd::utf8::encode_utf8(
                self.input@.take(clamp(self.character_index as int, self.input@.len() as int)),
            ).len() as usize,
    {
        let at = self.clamp_cursor(self.character_index);
        self.input.as_str().substring_char(0, at).len()
    }

    /// Removes the character before the cursor.
    pub fn delete_char(&mut self)
        ensures
            App::deleted(*old(self), *final(self)),
    {
        if self.character_index != 0 {
            let len = self.input.as_str().unicode_len();
            let from = self.clamp_cursor(self.character_index - 1);
            let to = self.clamp_cursor(self.character_index);
            let mut line = String::from_str(self.input.as_str().substring_char(0, from));
            line.append(self.input.as_str().substring_char(to, len));
            self.input = line;
            self.move_cursor_left();
        }
    }

    /// `new_cursor_pos`, but no further than the end of the line.
    pub fn clamp_cursor(&self, new_cursor_pos: usize) -> (pos: usize)
        ensures
            pos == clamp(new_cursor_pos as int, self.input@.len() as int),
    {
        let len = self.input.as_str().unicode_len();
        if new_cursor_pos < len {
            new_cursor_pos
        } else {
            len
        }
    }

    /// Puts the cursor at the start of the line.
    pub fn reset_cursor(&mut self)
        ensures
            *final(self) == (App { character_index: 0, ..*old(self) }),
    {
        self.character_index = 0;
    }

    /// Makes the edited line the pattern and returns to normal mode. Returns
    /// the file that is to be searched with the new pattern, if one is set;
    /// the caller reads it and hands the contents to `add_expression`.
    pub fn submit_pattern(&mut self) -> (wanted: Option<String>)
        ensures
            App::pattern_submitted(*old(self), *final(self)),
            match old(self).file {
                Some(name) => wanted matches Some(file) && file@ == name@,
                None => wanted is None,
            },
    {
        self.pattern = self.input.clone();
        self.input = String::new();
        self.reset_cursor();
        self.input_mode = InputMode::Normal;
        let wanted = match &self.file {
            Some(name) => Some(name.clone()),
            None => None,
        };
        self.file = Some(String::new());
        wanted
    }

    /// Searches the edited line with the pattern, records the outcome and
    /// returns to normal mode.
    pub fn submit_text(&mut self)
        ensures
            App::text_submitted(*old(self), *final(self)),
    {
        let txt = self.input.clone();
        self.input = String::new();
        self.reset_cursor();
        self.input_mode = InputMode::Normal;
        self.add_expression(txt);
    }

    /// Searches `text` with the pattern and records the outcome.
    pub fn add_expression(&mut self, text: String)
        ensures
            App::expression_added(*old(self), text@, *final(self)),
            final(self).input == old(self).input,
            final(self).character_index == old(self).character_index,
            final(self).input_mode == old(self).input_mode,
    {
        let matches = apply_pattern(self.pattern.as_str(), text.as_str(), &self.engine_choice);
        let entry = ExpressionEntry { pattern: self.pattern.clone(), text, matches };
        self.expressions.push(entry);
        assert(self.expressions@.drop_last() =~= old(self).expressions@);
    }

    /// Handles one key: changes the state as the key asks and says what the
    /// caller has to do next.
    pub fn handle_key(&mut self, press: &KeyPress) -> (action: Action)
        ensures
            App::handled(
                *old(self),
                spec_command(old(self).input_mode, *press),
                *final(self),
                action,
            ),
    {
        match command_for(self.input_mode, press) {
            Command::Quit => Action::Quit,
            Command::EditText => {
                self.input_mode = InputMode::EditingText;
                Action::Continue
            },
            Command::EditPattern => {
                self.input_mode = InputMode::EditingPattern;
                self.input = self.pattern.clone();
                self.character_index = self.input.as_str().unicode_len();
                Action::Continue
            },
            Command::NewText => {
                self.input_mode = InputMode::EditingText;
                self.input = String::new();
                self.reset_cursor();
                Action::Continue
            },
            Command::SubmitPattern => match self.submit_pattern() {
                Some(name) => Action::ReadFile(name),
                None => Action::Continue,
            },
            Command::SubmitText => {
                self.submit_text();
                Action::Continue
            },
            Command::Insert(c) => {
                self.enter_char(c);
                Action::Continue
            },
            Command::Delete => {
                self.delete_char();
                Action::Continue
            },
            Command::Left => {
                self.move_cursor_left();
                Action::Continue
            },
            Command::Right => {
                self.move_cursor_right();
                Action::Continue
            },
            Command::Cancel => {
                self.input_mode = InputMode::Normal;
                self.input = String::new();
                self.reset_cursor();
                Action::Continue
            },
            Command::Nothing => Action::Continue,
        }
    }
}

} // verus!
