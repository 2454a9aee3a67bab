use textcrypt::encryption::{ascii_decrypt, ascii_decrypt_checked, ascii_encrypt, ascii_encrypt_checked};

fn s(t: &str) -> String {
    t.to_string()
}

#[test]
fn ascii_encrypt_writes_hex() {
    assert_eq!(ascii_encrypt(&s("Hi!"), 1, 1), "496A22");
    assert_eq!(ascii_encrypt(&s("A"), 0, 1), "41");
    assert_eq!(ascii_encrypt(&s(""), 1, 1), "");
}

#[test]
fn ascii_encrypt_no_leading_zero() {
    assert_eq!(ascii_encrypt(&s("\u{5}"), 0, 1), "5");
    assert_eq!(ascii_encrypt(&s("A"), 300, 1), "16D");
}

#[test]
fn ascii_encrypt_takes_low_byte() {
    assert_eq!(ascii_encrypt(&s("é"), 0, 1), "E9");
    assert_eq!(ascii_encrypt(&s("€"), 0, 1), "AC");
}

#[test]
fn ascii_encrypt_rounds() {
    assert_eq!(ascii_encrypt(&s("Hi!"), 1, 2), "353A37423333");
    assert_eq!(ascii_encrypt(&s("z"), 0, 0), "z");
    assert_eq!(ascii_encrypt(&s("ab"), 5, -1), "ab");
}

#[test]
fn ascii_encrypt_overflow_is_refused() {
    assert_eq!(ascii_encrypt_checked(&s("A"), u32::MAX, 1), None);
    assert_eq!(ascii_encrypt_checked(&s(""), u32::MAX, 1), Some(s("")));
}

#[test]
fn ascii_decrypt_reads_hex_pairs() {
    assert_eq!(ascii_decrypt(&s("496A22"), 1, 1), "Hi!");
    assert_eq!(ascii_decrypt(&s("41"), 0, 1), "A");
    assert_eq!(ascii_decrypt(&s("0a"), 0, 1), "\n");
    assert_eq!(ascii_decrypt(&s("41"), 65, 1), "\u{0}");
    assert_eq!(ascii_decrypt(&s(""), 1, 1), "");
}

#[test]
fn ascii_decrypt_trims_and_signs() {
    assert_eq!(ascii_decrypt(&s(" A"), 0, 1), "\n");
    assert_eq!(ascii_decrypt(&s("A "), 0, 1), "\n");
    assert_eq!(ascii_decrypt(&s("+F"), 0, 1), "\u{f}");
    assert_eq!(ascii_decrypt(&s("  "), 0, 1), "");
}

#[test]
fn ascii_decrypt_stops_at_non_hex() {
    assert_eq!(ascii_decrypt(&s("GG41"), 0, 1), "");
    assert_eq!(ascii_decrypt(&s("41GG"), 0, 1), "A");
    assert_eq!(ascii_decrypt(&s("ZZ"), 0, 1), "");
    assert_eq!(ascii_decrypt(&s("é41"), 0, 1), "");
}

#[test]
fn ascii_decrypt_key_wraps_to_i32() {
    assert_eq!(ascii_decrypt(&s("4142"), u32::MAX, 1), "BC");
}

#[test]
fn ascii_decrypt_aborts_are_refused() {
    assert_eq!(ascii_decrypt_checked(&s("5"), 0, 1), None);
    assert_eq!(ascii_decrypt_checked(&s("-1"), 0, 1), None);
    assert_eq!(ascii_decrypt_checked(&s("€"), 0, 1), None);
    assert_eq!(ascii_decrypt_checked(&s("41"), 66, 1), None);
    assert_eq!(ascii_decrypt_checked(&s("3534363634"), 1, 2), None);
}
