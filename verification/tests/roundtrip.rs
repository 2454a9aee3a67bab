use textcrypt::encryption::{ascii_decrypt, ascii_encrypt, decrypt, encrypt};

#[test]
fn decrypt_undoes_encrypt_on_two_digit_shifts() {
    for (text, key, rounds) in [
        ("HELLO, WORLD!", 13, 1),
        ("HELLO, WORLD!", 13, 3),
        ("THE QUICK BROWN FOX?", 74, 1),
        ("abc ÄÖ 123", 50, 2),
        ("ZEBRA", 10, 2),
        ("", 99, 4),
    ] {
        let text = text.to_string();
        let c = encrypt(&text, key, rounds);
        assert_eq!(decrypt(&c, key, rounds), text);
    }
}

#[test]
fn decrypt_fails_to_undo_one_digit_shift() {
    let text = "A".to_string();
    let c = encrypt(&text, 0, 1);
    assert_eq!(c, "A");
    assert_eq!(decrypt(&c, 0, 1), "");
}

#[test]
fn ascii_decrypt_undoes_ascii_encrypt_on_bytes() {
    for (text, key, rounds) in [
        ("Hello, World!", 1, 1),
        ("Hello, World!", 7, 3),
        ("ÿé~", 0, 2),
        ("", 1000, 2),
    ] {
        let text = text.to_string();
        let c = ascii_encrypt(&text, key, rounds);
        assert_eq!(ascii_decrypt(&c, key, rounds), text);
    }
}

#[test]
fn ascii_cipher_text_is_upper_hex() {
    for (text, key, rounds) in [("Hi there!", 3, 1), ("é€\u{1}", 0, 2), ("zz", 200, 3)] {
        let c = ascii_encrypt(&text.to_string(), key, rounds);
        assert!(c.chars().all(|ch| ch.is_ascii_digit() || ('A'..='F').contains(&ch)));
    }
}

#[test]
fn default_cipher_letters_spell_digits() {
    for (text, key, rounds) in [("HELLO, WORLD!", 3, 1), ("XYZ abc", -40, 2), ("QUIZ", 1000, 3)] {
        let c = encrypt(&text.to_string(), key, rounds);
        assert!(c.chars().all(|ch| !ch.is_ascii_uppercase() || ch <= 'J'));
    }
}

#[test]
fn encrypt_rounds_restart_after_the_first() {
    for (text, key, rounds) in [("HELLO, WORLD!", 0, 3), ("ZAP-x!", 7, 2), ("Q?", 1000, 3)] {
        let text = text.to_string();
        let once = encrypt(&text, key, 1);
        assert_eq!(encrypt(&text, key, rounds), encrypt(&once, key, rounds - 1));
    }
}

#[test]
fn encrypt_rounds_do_not_restart_with_negative_positions() {
    let text = "A!".to_string();
    assert_eq!(encrypt(&text, -1, 2), "!A!");
    assert_eq!(encrypt(&encrypt(&text, -1, 1), -1, 1), "!A?");
}

#[test]
fn decrypt_undoes_encrypt_for_keys_ten_to_seventy_four() {
    for (text, key, rounds) in [("ZEBRA AZ!", 74, 2), ("AAA", 10, 3), ("hello Zz", 74, 1)] {
        let text = text.to_string();
        assert_eq!(decrypt(&encrypt(&text, key, rounds), key, rounds), text);
    }
}

#[test]
fn ascii_encrypt_undoes_ascii_decrypt_on_canonical_pairs() {
    for (cipher, key) in [("4A5B", 0x4A), ("FF10", 16), ("", u32::MAX)] {
        let cipher = cipher.to_string();
        assert_eq!(ascii_encrypt(&ascii_decrypt(&cipher, key, 1), key, 1), cipher);
    }
    assert_eq!(ascii_encrypt(&ascii_decrypt(&"0A".to_string(), 0, 1), 0, 1), "A");
}
