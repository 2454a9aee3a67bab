use textcrypt::editor::{
    can_step, cursor_marked_text, cursor_on_boundary, handle_input, input_scroll, step, Effect,
    Form, InputMode, Key,
};

fn form(selection: InputMode) -> Form {
    Form {
        selection,
        input_text: String::new(),
        decider: String::new(),
        mode: String::new(),
        key_text: String::new(),
        recursion: String::new(),
        cursor: 0,
        output: String::from("old output"),
    }
}

#[test]
fn handle_input_inserts_and_removes() {
    let mut t = String::from("ABD");
    handle_input(Key::Char('C'), 2, &mut t);
    assert_eq!(t, "ABCD");
    handle_input(Key::Char('E'), 4, &mut t);
    assert_eq!(t, "ABCDE");
    handle_input(Key::Backspace, 5, &mut t);
    assert_eq!(t, "ABCD");
    handle_input(Key::Backspace, 1, &mut t);
    assert_eq!(t, "BCD");
    handle_input(Key::Backspace, 0, &mut t);
    assert_eq!(t, "BCD");
    handle_input(Key::Left, 1, &mut t);
    assert_eq!(t, "BCD");
}

#[test]
fn handle_input_after_wide_character() {
    let mut t = String::from("éa");
    handle_input(Key::Char('x'), 2, &mut t);
    assert_eq!(t, "éxa");
}

#[test]
fn step_moves_focus_around_the_form() {
    let mut f = form(InputMode::Input);
    let order = [
        InputMode::Decider,
        InputMode::Mode,
        InputMode::Key,
        InputMode::Recursion,
        InputMode::Submit,
        InputMode::Save,
        InputMode::RawText,
        InputMode::Load,
        InputMode::Input,
    ];
    for m in order {
        assert_eq!(step(&mut f, Key::Tab), Effect::Nothing);
        assert_eq!(f.selection, m);
    }
    assert_eq!(step(&mut f, Key::BackTab), Effect::Nothing);
    assert_eq!(f.selection, InputMode::Load);
    assert_eq!(step(&mut f, Key::BackTab), Effect::Nothing);
    assert_eq!(f.selection, InputMode::RawText);
}

#[test]
fn step_enter_asks_for_work() {
    let mut f = form(InputMode::Submit);
    assert_eq!(step(&mut f, Key::Enter), Effect::Submit);
    assert_eq!(f.selection, InputMode::Save);
    assert_eq!(f.output, "");
    f.output = String::from("result");
    assert_eq!(step(&mut f, Key::Enter), Effect::SaveOutput);
    assert_eq!(f.selection, InputMode::Save);
    f.selection = InputMode::RawText;
    assert_eq!(step(&mut f, Key::Enter), Effect::ShowOutput);
    f.selection = InputMode::Load;
    assert_eq!(step(&mut f, Key::Enter), Effect::LoadInput);
    assert_eq!(f.output, "result");
}

#[test]
fn step_edits_the_input_at_the_cursor() {
    let mut f = form(InputMode::Input);
    for c in ['H', 'L', 'O'] {
        step(&mut f, Key::Char(c));
    }
    assert_eq!(f.input_text, "HLO");
    assert_eq!(f.cursor, 3);
    step(&mut f, Key::Left);
    step(&mut f, Key::Left);
    step(&mut f, Key::Char('E'));
    assert_eq!(f.input_text, "HELO");
    assert_eq!(f.cursor, 2);
    step(&mut f, Key::Right);
    step(&mut f, Key::Char('L'));
    assert_eq!(f.input_text, "HELLO");
    step(&mut f, Key::Right);
    step(&mut f, Key::Right);
    assert_eq!(f.cursor, 5);
    step(&mut f, Key::Backspace);
    assert_eq!(f.input_text, "HELL");
    assert_eq!(f.cursor, 4);
    step(&mut f, Key::Left);
    step(&mut f, Key::Left);
    step(&mut f, Key::Left);
    step(&mut f, Key::Left);
    step(&mut f, Key::Left);
    assert_eq!(f.cursor, 0);
    step(&mut f, Key::Backspace);
    assert_eq!(f.input_text, "HELL");
    assert_eq!(f.selection, InputMode::Input);
}

#[test]
fn step_edits_short_fields_at_their_end() {
    let mut f = form(InputMode::Decider);
    f.cursor = 7;
    step(&mut f, Key::Char('e'));
    assert_eq!(f.decider, "e");
    assert_eq!(f.cursor, 0);
    step(&mut f, Key::Char('n'));
    assert_eq!(f.cursor, 1);
    step(&mut f, Key::Backspace);
    assert_eq!(f.decider, "e");
    assert_eq!(f.cursor, 2);
    step(&mut f, Key::Left);
    assert_eq!(f.cursor, 1);
    assert_eq!(f.decider, "e");
    step(&mut f, Key::Enter);
    assert_eq!(f.selection, InputMode::Mode);
    step(&mut f, Key::Char('a'));
    assert_eq!(f.mode, "a");
    assert_eq!(f.decider, "e");
}

#[test]
fn can_step_refuses_what_aborts() {
    let mut f = form(InputMode::Input);
    f.input_text = String::from("é");
    f.cursor = 1;
    assert!(!can_step(&f, Key::Char('x')));
    assert!(can_step(&f, Key::Backspace));
    assert!(can_step(&f, Key::Left));
    f.cursor = 2;
    assert!(can_step(&f, Key::Char('x')));
    assert!(!can_step(&f, Key::Backspace));
    let mut g = form(InputMode::Key);
    g.key_text = String::from("1é");
    assert!(!can_step(&g, Key::Backspace));
    assert!(can_step(&g, Key::Char('2')));
    assert!(can_step(&g, Key::Tab));
    g.key_text = String::from("12");
    assert!(can_step(&g, Key::Backspace));
}

#[test]
fn cursor_bar_marks_the_cursor() {
    let t = String::from("HELLO");
    assert_eq!(cursor_marked_text(&t, 2), "HE|LLO");
    assert_eq!(cursor_marked_text(&t, 5), "HELLO|");
    assert!(cursor_on_boundary(&t, 5));
    assert!(!cursor_on_boundary(&t, 6));
    assert!(!cursor_on_boundary(&String::from("é"), 1));
}

#[test]
fn input_scroll_follows_the_cursor() {
    assert_eq!(input_scroll(100, 12, 10), Some(4));
    assert_eq!(input_scroll(5, 12, 10), Some(0));
    assert_eq!(input_scroll(100, 2, 10), None);
    assert_eq!(input_scroll(100, 1, 10), Some(0));
    assert_eq!(input_scroll(65536 + 100, 12, 10), Some(4));
    assert_eq!(input_scroll(0, 32768, 10), None);
}
