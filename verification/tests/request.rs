use textcrypt::editor::{Form, InputMode};
use textcrypt::request::{finish_submit, interpret, perform, Cipher, Direction, Request};

fn form(input: &str, decider: &str, mode: &str, key: &str, recursion: &str) -> Form {
    Form {
        selection: InputMode::Save,
        input_text: input.to_string(),
        decider: decider.to_string(),
        mode: mode.to_string(),
        key_text: key.to_string(),
        recursion: recursion.to_string(),
        cursor: 0,
        output: String::new(),
    }
}

#[test]
fn interpret_default_upper_cases_trimmed_text() {
    let f = form("  hello, world! ", " Encrypt ", "DEFAULT", " 3", "1 ");
    let q = interpret(&f).unwrap();
    assert_eq!(q.cipher, Cipher::Default);
    assert_eq!(q.direction, Direction::Encrypt);
    assert_eq!(q.text, "HELLO, WORLD!");
    assert_eq!(q.key, 3);
    assert_eq!(q.recursion, 1);
    assert_eq!(perform(&q), Some("BAHBEBEBH, CFBHCABEG!".to_string()));
}

#[test]
fn interpret_ascii_keeps_case() {
    let f = form(" Hi! ", "decrypt", " Ascii", "-2", "x");
    let q = interpret(&f).unwrap();
    assert_eq!(q.cipher, Cipher::Ascii);
    assert_eq!(q.direction, Direction::Decrypt);
    assert_eq!(q.text, "Hi!");
    assert_eq!(q.key, -2);
    assert_eq!(q.recursion, 0);
}

#[test]
fn interpret_rejects_unknown_words() {
    assert!(interpret(&form("A", "encrypt", "rot13", "1", "1")).is_none());
    assert!(interpret(&form("A", "scramble", "default", "1", "1")).is_none());
}

#[test]
fn unreadable_numbers_count_as_zero() {
    let q = interpret(&form("A", "encrypt", "default", "99999999999", "+2")).unwrap();
    assert_eq!(q.key, 0);
    assert_eq!(q.recursion, 2);
}

#[test]
fn perform_runs_each_cipher() {
    let run = |cipher, direction, text: &str, key, recursion| {
        perform(&Request { cipher, direction, text: text.to_string(), key, recursion })
    };
    assert_eq!(run(Cipher::Default, Direction::Decrypt, "BCD", 1, 1), Some("L".to_string()));
    assert_eq!(run(Cipher::Ascii, Direction::Encrypt, "Hi!", 1, 1), Some("496A22".to_string()));
    assert_eq!(run(Cipher::Ascii, Direction::Decrypt, "496A22", 1, 1), Some("Hi!".to_string()));
    assert_eq!(run(Cipher::Ascii, Direction::Encrypt, "Hi!", -1, 1), None);
    assert_eq!(run(Cipher::Default, Direction::Encrypt, "Z", i32::MAX, 1), None);
}

#[test]
fn finish_submit_resets_the_fields() {
    let mut f = form("héllo", "encrypt", "default", "3", "1");
    finish_submit(&mut f, Some("OUT".to_string()));
    assert_eq!(f.output, "OUT");
    assert_eq!(f.input_text, "");
    assert_eq!(f.cursor, 0);
    assert_eq!(f.decider, "");
    let mut g = form("héllo", "encrypt", "nothing", "3", "1");
    g.output = String::new();
    finish_submit(&mut g, None);
    assert_eq!(g.output, "");
    assert_eq!(g.input_text, "héllo");
    assert_eq!(g.cursor, 6);
    assert_eq!(g.mode, "");
    assert_eq!(g.selection, InputMode::Save);
}
