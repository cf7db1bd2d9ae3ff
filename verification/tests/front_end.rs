use regexer::app::{command_for, Action, App, Command, InputMode, Key, KeyPress};
use regexer::engines::EngineChoice;

fn down(key: Key) -> KeyPress {
    KeyPress {
        key,
        control: false,
        pressed: true,
    }
}

fn type_text(app: &mut App, text: &str) {
    for c in text.chars() {
        assert_eq!(app.handle_key(&down(Key::Char(c))), Action::Continue);
    }
}

#[test]
fn a_new_app_is_empty() {
    let app = App::new(EngineChoice::Custom);
    assert_eq!(app.input, "");
    assert_eq!(app.pattern, "");
    assert_eq!(app.input_mode, InputMode::Normal);
    assert!(app.expressions.is_empty());
    assert_eq!(app.character_index, 0);
    assert_eq!(app.file, None);
    assert_eq!(app.engine_choice, EngineChoice::Custom);
    assert!(app.pattern_is_empty());
    assert!(!app.has_file());
}

#[test]
fn setters_set() {
    let mut app = App::new(EngineChoice::Builtin);
    app.set_pattern("ab");
    assert_eq!(app.pattern, "ab");
    assert!(!app.pattern_is_empty());
    app.set_text("héllo");
    assert_eq!(app.input, "héllo");
    assert_eq!(app.character_index, 5);
    app.set_file(Some(String::from("notes.txt")));
    assert!(app.has_file());
    assert_eq!(app.file, Some(String::from("notes.txt")));
    app.enter_pattern_mode();
    assert_eq!(app.input_mode, InputMode::EditingPattern);
    assert_eq!(app.pattern, "ab");
    assert_eq!(app.input, "héllo");
}

#[test]
fn cursor_stays_inside_the_line() {
    let mut app = App::new(EngineChoice::Builtin);
    app.set_text("ab");
    app.move_cursor_right();
    assert_eq!(app.character_index, 2);
    app.move_cursor_left();
    assert_eq!(app.character_index, 1);
    app.move_cursor_left();
    app.move_cursor_left();
    assert_eq!(app.character_index, 0);
    app.character_index = 9;
    app.move_cursor_left();
    assert_eq!(app.character_index, 2);
    assert_eq!(app.clamp_cursor(1), 1);
    assert_eq!(app.clamp_cursor(7), 2);
    app.reset_cursor();
    assert_eq!(app.character_index, 0);
}

#[test]
fn typing_inserts_at_the_cursor() {
    let mut app = App::new(EngineChoice::Builtin);
    app.set_text("ac");
    app.move_cursor_left();
    app.enter_char('b');
    assert_eq!(app.input, "abc");
    assert_eq!(app.character_index, 2);
    app.reset_cursor();
    app.enter_char('é');
    assert_eq!(app.input, "éabc");
    assert_eq!(app.character_index, 1);
    app.enter_char('x');
    assert_eq!(app.input, "éxabc");
    assert_eq!(app.character_index, 2);
}

#[test]
fn typing_past_the_end_appends() {
    let mut app = App::new(EngineChoice::Builtin);
    app.set_text("ab");
    app.character_index = 10;
    app.enter_char('c');
    assert_eq!(app.input, "abc");
    assert_eq!(app.character_index, 3);
}

#[test]
fn byte_index_counts_bytes_before_the_cursor() {
    let mut app = App::new(EngineChoice::Builtin);
    app.set_text("éab");
    assert_eq!(app.byte_index(), 4);
    app.character_index = 1;
    assert_eq!(app.byte_index(), 2);
    app.character_index = 0;
    assert_eq!(app.byte_index(), 0);
    app.character_index = 12;
    assert_eq!(app.byte_index(), 4);
}

#[test]
fn backspace_removes_the_character_before_the_cursor() {
    let mut app = App::new(EngineChoice::Builtin);
    app.set_text("aéc");
    app.delete_char();
    assert_eq!(app.input, "aé");
    assert_eq!(app.character_index, 2);
    app.move_cursor_left();
    app.delete_char();
    assert_eq!(app.input, "é");
    assert_eq!(app.character_index, 0);
    app.delete_char();
    assert_eq!(app.input, "é");
    assert_eq!(app.character_index, 0);
}

#[test]
fn backspace_beyond_the_end() {
    let mut app = App::new(EngineChoice::Builtin);
    app.set_text("abc");
    app.character_index = 4;
    app.delete_char();
    assert_eq!(app.input, "abc");
    assert_eq!(app.character_index, 3);
    app.character_index = 9;
    app.delete_char();
    assert_eq!(app.input, "abc");
    assert_eq!(app.character_index, 3);
}

#[test]
fn commands_in_normal_mode() {
    let mode = InputMode::Normal;
    assert_eq!(command_for(mode, &down(Key::Char('e'))), Command::EditText);
    assert_eq!(command_for(mode, &down(Key::Char('p'))), Command::EditPattern);
    assert_eq!(command_for(mode, &down(Key::Char('t'))), Command::NewText);
    assert_eq!(command_for(mode, &down(Key::Char('q'))), Command::Quit);
    assert_eq!(command_for(mode, &down(Key::Esc)), Command::Quit);
    assert_eq!(command_for(mode, &down(Key::Char('x'))), Command::Nothing);
    assert_eq!(command_for(mode, &down(Key::Enter)), Command::Nothing);
    assert_eq!(command_for(mode, &down(Key::Other)), Command::Nothing);
    let released = KeyPress {
        key: Key::Char('q'),
        control: false,
        pressed: false,
    };
    assert_eq!(command_for(mode, &released), Command::Quit);
}

#[test]
fn commands_in_editing_modes() {
    for mode in [InputMode::EditingPattern, InputMode::EditingText] {
        assert_eq!(command_for(mode, &down(Key::Char('q'))), Command::Insert('q'));
        assert_eq!(command_for(mode, &down(Key::Backspace)), Command::Delete);
        assert_eq!(command_for(mode, &down(Key::Left)), Command::Left);
        assert_eq!(command_for(mode, &down(Key::Right)), Command::Right);
        assert_eq!(command_for(mode, &down(Key::Esc)), Command::Cancel);
        assert_eq!(command_for(mode, &down(Key::Other)), Command::Nothing);
        let released = KeyPress {
            key: Key::Char('a'),
            control: false,
            pressed: false,
        };
        assert_eq!(command_for(mode, &released), Command::Nothing);
    }
    assert_eq!(
        command_for(InputMode::EditingPattern, &down(Key::Enter)),
        Command::SubmitPattern
    );
    assert_eq!(
        command_for(InputMode::EditingText, &down(Key::Enter)),
        Command::SubmitText
    );
}

#[test]
fn control_c_quits_in_every_mode() {
    for mode in [
        InputMode::Normal,
        InputMode::EditingPattern,
        InputMode::EditingText,
    ] {
        for pressed in [true, false] {
            let press = KeyPress {
                key: Key::Char('c'),
                control: true,
                pressed,
            };
            assert_eq!(command_for(mode, &press), Command::Quit);
        }
    }
    assert_eq!(
        command_for(InputMode::EditingText, &down(Key::Char('c'))),
        Command::Insert('c')
    );
}

#[test]
fn quitting_leaves_the_state_alone() {
    let mut app = App::new(EngineChoice::Custom);
    app.set_pattern("a");
    app.set_text("b");
    assert_eq!(app.handle_key(&down(Key::Char('q'))), Action::Quit);
    assert_eq!(app.pattern, "a");
    assert_eq!(app.input, "b");
    assert_eq!(app.input_mode, InputMode::Normal);
}

#[test]
fn editing_the_pattern_starts_from_the_pattern() {
    let mut app = App::new(EngineChoice::Custom);
    app.set_pattern("ab");
    app.set_text("zzz");
    assert_eq!(app.handle_key(&down(Key::Char('p'))), Action::Continue);
    assert_eq!(app.input_mode, InputMode::EditingPattern);
    assert_eq!(app.input, "ab");
    assert_eq!(app.character_index, 2);
}

#[test]
fn editing_text_keeps_or_drops_the_line() {
    let mut app = App::new(EngineChoice::Custom);
    app.set_text("zzz");
    assert_eq!(app.handle_key(&down(Key::Char('e'))), Action::Continue);
    assert_eq!(app.input_mode, InputMode::EditingText);
    assert_eq!(app.input, "zzz");
    assert_eq!(app.character_index, 3);
    assert_eq!(app.handle_key(&down(Key::Esc)), Action::Continue);
    assert_eq!(app.input_mode, InputMode::Normal);
    assert_eq!(app.input, "");
    assert_eq!(app.character_index, 0);
    app.set_text("zzz");
    assert_eq!(app.handle_key(&down(Key::Char('t'))), Action::Continue);
    assert_eq!(app.input_mode, InputMode::EditingText);
    assert_eq!(app.input, "");
    assert_eq!(app.character_index, 0);
}

#[test]
fn submitting_a_pattern_without_file() {
    let mut app = App::new(EngineChoice::Custom);
    app.handle_key(&down(Key::Char('p')));
    type_text(&mut app, "ab");
    assert_eq!(app.handle_key(&down(Key::Enter)), Action::Continue);
    assert_eq!(app.pattern, "ab");
    assert_eq!(app.input, "");
    assert_eq!(app.character_index, 0);
    assert_eq!(app.input_mode, InputMode::Normal);
    assert_eq!(app.file, Some(String::new()));
    assert!(app.expressions.is_empty());
}

#[test]
fn submitting_a_pattern_asks_for_the_file() {
    let mut app = App::new(EngineChoice::Custom);
    app.set_file(Some(String::from("notes.txt")));
    app.enter_pattern_mode();
    type_text(&mut app, "ab");
    assert_eq!(
        app.handle_key(&down(Key::Enter)),
        Action::ReadFile(String::from("notes.txt"))
    );
    assert_eq!(app.pattern, "ab");
    assert_eq!(app.file, Some(String::new()));
    app.add_expression(String::from("xaby ab"));
    assert_eq!(app.expressions.len(), 1);
    assert_eq!(app.expressions[0].pattern, "ab");
    assert_eq!(app.expressions[0].text, "xaby ab");
    assert_eq!(app.expressions[0].matches, "Matches: [\"ab\", \"ab\"]");
}

#[test]
fn submit_pattern_hands_out_the_file_once() {
    let mut app = App::new(EngineChoice::Custom);
    app.set_file(Some(String::from("notes.txt")));
    app.set_text("a");
    assert_eq!(app.submit_pattern(), Some(String::from("notes.txt")));
    assert_eq!(app.pattern, "a");
    app.set_text("b");
    assert_eq!(app.submit_pattern(), Some(String::new()));
    assert_eq!(app.pattern, "b");
}

#[test]
fn submitting_text_records_the_search() {
    let mut app = App::new(EngineChoice::Custom);
    app.set_pattern("a*");
    app.handle_key(&down(Key::Char('t')));
    type_text(&mut app, "ba");
    assert_eq!(app.handle_key(&down(Key::Enter)), Action::Continue);
    assert_eq!(app.input, "");
    assert_eq!(app.character_index, 0);
    assert_eq!(app.input_mode, InputMode::Normal);
    assert_eq!(app.expressions.len(), 1);
    assert_eq!(app.expressions[0].pattern, "a*");
    assert_eq!(app.expressions[0].text, "ba");
    assert_eq!(
        app.expressions[0].matches,
        "Matches: [\"\", \"\", \"a\", \"\"]"
    );
    app.set_text("zz");
    app.submit_text();
    assert_eq!(app.expressions.len(), 2);
    assert_eq!(app.expressions[1].text, "zz");
    assert_eq!(
        app.expressions[1].matches,
        "Matches: [\"\", \"\", \"\"]"
    );
}

#[test]
fn searches_use_the_chosen_engine() {
    let mut builtin = App::new(EngineChoice::Builtin);
    builtin.set_pattern("a.");
    builtin.add_expression(String::from("ab ac"));
    assert_eq!(builtin.expressions[0].matches, "Matches: [\"ab\", \"ac\"]");
    let mut custom = App::new(EngineChoice::Custom);
    custom.set_pattern("a.");
    custom.add_expression(String::from("ab ac"));
    assert_eq!(
        custom.expressions[0].matches,
        "Invalid pattern: RegexError: Unexpected character '.'"
    );
    let mut placeholder = App::new(EngineChoice::Pikevm);
    placeholder.set_pattern("a");
    placeholder.add_expression(String::from("a"));
    assert_eq!(placeholder.expressions[0].matches, "Pikevm (placeholder)");
}

#[test]
fn editing_keys_edit_the_line() {
    let mut app = App::new(EngineChoice::Custom);
    app.handle_key(&down(Key::Char('t')));
    type_text(&mut app, "abd");
    app.handle_key(&down(Key::Left));
    app.handle_key(&down(Key::Char('c')));
    assert_eq!(app.input, "abcd");
    assert_eq!(app.character_index, 3);
    app.handle_key(&down(Key::Right));
    app.handle_key(&down(Key::Right));
    assert_eq!(app.character_index, 4);
    app.handle_key(&down(Key::Backspace));
    assert_eq!(app.input, "abc");
    assert_eq!(app.character_index, 3);
    let released = KeyPress {
        key: Key::Char('x'),
        control: false,
        pressed: false,
    };
    assert_eq!(app.handle_key(&released), Action::Continue);
    assert_eq!(app.input, "abc");
    assert_eq!(app.handle_key(&down(Key::Other)), Action::Continue);
    assert_eq!(app.input, "abc");
    assert_eq!(app.input_mode, InputMode::EditingText);
}
