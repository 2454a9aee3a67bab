use textcrypt::encryption::{decrypt, decrypt_checked, encrypt, encrypt_checked};

fn s(t: &str) -> String {
    t.to_string()
}

#[test]
fn encrypt_spells_shifted_positions() {
    assert_eq!(encrypt(&s("HELLO, WORLD!"), 3, 1), "BAHBEBEBH, CFBHCABEG!");
    assert_eq!(encrypt(&s("ABC"), 1, 1), "BCD");
    assert_eq!(encrypt(&s("XYZ"), 10, 1), "DDDEDF");
    assert_eq!(encrypt(&s("Z"), 100, 1), "BCF");
}

#[test]
fn encrypt_keeps_non_letters() {
    assert_eq!(encrypt(&s("hello"), 5, 3), "hello");
    assert_eq!(encrypt(&s("A-B"), 2, 1), "C-D");
    assert_eq!(encrypt(&s("ÀB"), 1, 1), "ÀC");
}

#[test]
fn encrypt_minus_signs_take_marks() {
    assert_eq!(encrypt(&s("ABC"), -1, 1), "?BAB");
    assert_eq!(encrypt(&s("AB!"), -5, 1), "!F?E?");
    assert_eq!(encrypt(&s("AZ"), -30, 1), "?DA?F");
}

#[test]
fn encrypt_several_rounds() {
    assert_eq!(
        encrypt(&s("HELLO, WORLD!"), 13, 2),
        "BFBDBECABFBHBFBHBFCA, BGBIBFCABGBDBFBHBEBJ!"
    );
}

#[test]
fn encrypt_no_rounds() {
    assert_eq!(encrypt(&s("ABC"), 5, 0), "ABC");
    assert_eq!(encrypt(&s("ABC"), 5, -3), "ABC");
    assert_eq!(encrypt(&s(""), 5, 2), "");
}

#[test]
fn encrypt_large_key() {
    assert_eq!(encrypt(&s("Q"), 2147483600, 1), "CBEHEIDGBG");
}

#[test]
fn encrypt_overflow_is_refused() {
    assert_eq!(encrypt_checked(&s("Z"), i32::MAX, 1), None);
    assert_eq!(encrypt_checked(&s("a"), i32::MAX, 1), Some(s("a")));
}

#[test]
fn decrypt_reads_pairs() {
    assert_eq!(decrypt(&s("ZZ"), 0, 1), "ZZ");
    assert_eq!(decrypt(&s("LM"), 0, 1), "LM");
    assert_eq!(decrypt(&s("!!"), 0, 1), "!!");
    assert_eq!(decrypt(&s("ABC"), 0, 1), "B");
}

#[test]
fn decrypt_stops_early() {
    assert_eq!(decrypt(&s("BAHBEBEBH, CFBHCABEG!"), 3, 1), "H");
    assert_eq!(decrypt(&s("BCD"), 1, 1), "L");
    assert_eq!(decrypt(&s("B-C"), 1, 1), "");
    assert_eq!(decrypt(&s("HELLO"), 0, 1), "");
    assert_eq!(decrypt(&s("A!"), 0, 1), "");
    assert_eq!(decrypt(&s("KA!"), 1, 1), "J");
}

#[test]
fn decrypt_undoes_two_rounds() {
    assert_eq!(
        decrypt(&s("BFBDBECABFBHBFBHBFCA, BGBIBFCABGBDBFBHBEBJ!"), 13, 2),
        "HELLO, WORLD!"
    );
}

#[test]
fn decrypt_no_rounds() {
    assert_eq!(decrypt(&s(""), 3, 3), "");
    assert_eq!(decrypt(&s("CD"), 0, -1), "CD");
}

#[test]
fn decrypt_aborts_are_refused() {
    assert_eq!(decrypt_checked(&s("BCBD"), 20, 1), None);
    assert_eq!(decrypt_checked(&s("BC"), i32::MAX, 1), None);
    assert_eq!(decrypt_checked(&s("BC"), i32::MIN, 1), None);
    assert_eq!(decrypt_checked(&s("ZZ"), 0, 1), Some(s("ZZ")));
}
