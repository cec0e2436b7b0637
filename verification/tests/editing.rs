use ajkshell::editor::{EditAction, KeyInput, LineEditor, SubmitOutcome};

fn ch(c: char) -> KeyInput {
    KeyInput::Char { c, control: false }
}

fn ctrl(c: char) -> KeyInput {
    KeyInput::Char { c, control: true }
}

fn press(e: &mut LineEditor, key: KeyInput) -> EditAction {
    assert!(e.accepts(key));
    e.handle_key(key)
}

fn type_line(e: &mut LineEditor, s: &str) {
    for c in s.chars() {
        assert_eq!(press(e, ch(c)), EditAction::Redraw);
    }
}

#[test]
fn typing_appends_and_moves_cursor() {
    let mut e = LineEditor::new();
    type_line(&mut e, "ls");
    assert_eq!(e.buffer(), "ls");
    assert_eq!(e.cursor(), 2);
}

#[test]
fn typing_appends_at_end_whatever_the_cursor() {
    let mut e = LineEditor::new();
    type_line(&mut e, "ab");
    press(&mut e, KeyInput::Left);
    press(&mut e, KeyInput::Left);
    type_line(&mut e, "c");
    assert_eq!(e.buffer(), "abc");
    assert_eq!(e.cursor(), 1);
}

#[test]
fn backspace_at_end_deletes_last() {
    let mut e = LineEditor::new();
    type_line(&mut e, "abc");
    press(&mut e, KeyInput::Backspace);
    assert_eq!(e.buffer(), "ab");
    assert_eq!(e.cursor(), 2);
}

#[test]
fn backspace_inside_deletes_char_at_cursor() {
    let mut e = LineEditor::new();
    type_line(&mut e, "abc");
    press(&mut e, KeyInput::Left);
    press(&mut e, KeyInput::Left);
    assert_eq!(e.cursor(), 1);
    press(&mut e, KeyInput::Backspace);
    assert_eq!(e.buffer(), "ac");
    assert_eq!(e.cursor(), 0);
}

#[test]
fn backspace_at_start_does_nothing() {
    let mut e = LineEditor::new();
    press(&mut e, KeyInput::Backspace);
    assert_eq!(e.buffer(), "");
    assert_eq!(e.cursor(), 0);
}

#[test]
fn backspace_inside_a_character_is_not_handled() {
    let mut e = LineEditor::new();
    type_line(&mut e, "é");
    assert_eq!(e.cursor(), 1);
    assert!(!e.accepts(KeyInput::Backspace));
}

#[test]
fn arrows_wrap_around() {
    let mut e = LineEditor::new();
    type_line(&mut e, "xy");
    press(&mut e, KeyInput::Right);
    assert_eq!(e.cursor(), 0);
    press(&mut e, KeyInput::Left);
    assert_eq!(e.cursor(), 2);
    press(&mut e, KeyInput::Left);
    press(&mut e, KeyInput::Right);
    assert_eq!(e.cursor(), 2);
}

#[test]
fn control_keys() {
    let mut e = LineEditor::new();
    assert_eq!(press(&mut e, ctrl('d')), EditAction::Quit);
    type_line(&mut e, "ab");
    assert_eq!(press(&mut e, ctrl('x')), EditAction::Redraw);
    assert_eq!(e.buffer(), "ab");
    // Control-d on a non-empty line types a `d`.
    assert_eq!(press(&mut e, ctrl('d')), EditAction::Redraw);
    assert_eq!(e.buffer(), "abd");
    assert_eq!(press(&mut e, ctrl('c')), EditAction::Interrupted);
    assert_eq!(e.buffer(), "");
    assert_eq!(e.cursor(), 0);
}

#[test]
fn enter_escape_and_others() {
    let mut e = LineEditor::new();
    assert_eq!(press(&mut e, KeyInput::Enter), EditAction::Submit);
    assert_eq!(press(&mut e, KeyInput::Esc), EditAction::Quit);
    assert_eq!(press(&mut e, KeyInput::Ignored), EditAction::Redraw);
}

#[test]
fn submit_outcomes_and_history() {
    let mut e = LineEditor::new();
    assert!(matches!(e.submit(), SubmitOutcome::Empty));
    assert_eq!(e.history_len(), 0);
    type_line(&mut e, "ls -l");
    match e.submit() {
        SubmitOutcome::Run(line) => assert_eq!(line, "ls -l"),
        _ => panic!("expected a line to run"),
    }
    assert_eq!(e.history_len(), 1);
    e.begin_line();
    type_line(&mut e, "exit now");
    assert!(matches!(e.submit(), SubmitOutcome::Exit));
    assert_eq!(e.history_len(), 2);
}

#[test]
fn up_recalls_newest_then_older_and_down_returns() {
    let mut e = LineEditor::new();
    for line in ["first", "second", "third"] {
        e.begin_line();
        type_line(&mut e, line);
        e.submit();
    }
    e.begin_line();
    press(&mut e, KeyInput::Up);
    assert_eq!(e.buffer(), "third");
    assert_eq!(e.cursor(), 5);
    press(&mut e, KeyInput::Up);
    assert_eq!(e.buffer(), "second");
    press(&mut e, KeyInput::Up);
    assert_eq!(e.buffer(), "first");
    press(&mut e, KeyInput::Up);
    assert_eq!(e.buffer(), "first");
    press(&mut e, KeyInput::Down);
    assert_eq!(e.buffer(), "second");
    press(&mut e, KeyInput::Down);
    assert_eq!(e.buffer(), "third");
    press(&mut e, KeyInput::Down);
    assert_eq!(e.buffer(), "");
    assert_eq!(e.cursor(), 0);
    press(&mut e, KeyInput::Down);
    assert_eq!(e.buffer(), "");
}

#[test]
fn up_with_no_history_does_nothing() {
    let mut e = LineEditor::new();
    type_line(&mut e, "ab");
    press(&mut e, KeyInput::Up);
    assert_eq!(e.buffer(), "ab");
    assert_eq!(e.cursor(), 2);
}
