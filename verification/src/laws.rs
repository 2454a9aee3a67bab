//! What the deciphers undo, and how rounds compose. Decrypting with the key
//! and the recursion that encrypted a text gives the text back, for both
//! ciphers, on the texts on which every shifted value keeps exactly two
//! digits (for the default cipher: every key from 10 to 74, on texts of
//! bounded size); re-encrypting one round of ASCII decryption gives back a
//! text of canonical hexadecimal pairs; a run of default rounds is its first
//! round followed by a fresh run when no shifted position is negative;
//! cipher texts are made of spelled digits or hexadecimal digits; written
//! numbers mean their value in base 10 or 16 and fields read decimal numbers
//! back; and the form moves its focus and cursor and edits its text as laid
//! out below.
use vstd::prelude::*;
use vstd::arithmetic::power::pow;
use crate::chars::{
    digit_char, digit_value, hex_char, is_digit, is_letter, is_scalar, is_whitespace, letter,
    letter_value, utf8_width,
};
use crate::encryption::{
    decrypt_digits, decrypt_round, decrypt_rounds, decrypt_token, decryption, encrypt_digits,
    encrypt_round, encrypt_rounds, encrypt_token, encryption, non_letters, read_pairs, rounds_of,
    shifts_fit, spell, ascii_decryption, ascii_encryption, decode_values, first_piece_len,
    hex_round, hex_rounds, key_as_i32, low_byte, piece_values, splits_in_byte_pairs,
    unhex_round, unhex_rounds,
};
use crate::request::{field_number, lowercase, outcome, requested, Cipher, Direction, Request};
use crate::editor::{
    boundary_index, byte_len, cursor_after, edit_allowed, edited, effect_of, field_after, input_scroll_spec,
    lemma_byte_len_split, marked, next_mode, Effect, Form, InputMode, Key,
};
use crate::numeric::{
    decimal, decimal_nat, digits_value, hex_nat, parse_int, trim, trim_end, trim_start,
};

verus! {

// ----------------------------------------------------------------------------
// The default cipher
// ----------------------------------------------------------------------------

/// Every letter of `s`, shifted by `key`, has a position of two decimal digits.
pub open spec fn shifts_two_digits(s: Seq<char>, key: int) -> bool {
    forall|i: int| 0 <= i < s.len() && is_letter(#[trigger] s[i]) ==> 10 <= letter_value(s[i]) + key <= 99
}

/// What one character becomes in a round whose shifted positions all have
/// two digits: a letter becomes the letters of its two digits, and any other
/// character stays.
pub open spec fn spread_char(c: char, key: int) -> Seq<char> {
    if is_letter(c) {
        let v = letter_value(c) + key;
        seq![letter(v / 10), letter(v % 10)]
    } else {
        seq![c]
    }
}

/// `spread_char` applied to each character of `s`.
pub open spec fn spread(s: Seq<char>, key: int) -> Seq<char>
    decreases s.len(),
{
    if s.len() == 0 {
        seq![]
    } else {
        spread_char(s[0], key) + spread(s.skip(1), key)
    }
}

/// `spread` applied `n` times.
pub open spec fn spread_times(s: Seq<char>, key: int, n: nat) -> Seq<char>
    decreases n,
{
    if n == 0 {
        s
    } else {
        spread_times(spread(s, key), key, (n - 1) as nat)
    }
}

/// Each of the `n` texts that encryption passes `s` through has its shifted
/// letter positions of two digits, and the digits that decryption writes for
/// each encrypted text fit in an `i32` length.
pub open spec fn two_digit_chain(s: Seq<char>, key: int, n: nat) -> bool
    decreases n,
{
    n == 0 || {
        &&& shifts_two_digits(s, key)
        &&& decrypt_digits(spread(s, key)).len() <= i32::MAX
        &&& two_digit_chain(spread(s, key), key, (n - 1) as nat)
    }
}

/// `n` copies of `m`, one after the other.
pub open spec fn repeat(m: Seq<char>, n: nat) -> Seq<char>
    decreases n,
{
    if n == 0 {
        seq![]
    } else {
        m + repeat(m, (n - 1) as nat)
    }
}

proof fn lemma_letter_roundtrip(c: char)
    requires
        is_letter(c),
    ensures
        letter(letter_value(c)) == c,
{
}

proof fn lemma_letter_is_letter(d: int)
    requires
        0 <= d < 26,
    ensures
        is_letter(letter(d)),
        letter_value(letter(d)) == d,
{
}

proof fn lemma_digit_char(d: int)
    requires
        0 <= d < 10,
    ensures
        digit_value(digit_char(d), 10) == Some(d as nat),
        digit_char(d) != '-',
        digit_char(d) as int == 48 + d,
{
}

proof fn lemma_decimal_two(v: nat)
    requires
        10 <= v <= 99,
    ensures
        decimal_nat(v) == seq![digit_char((v / 10) as int), digit_char((v % 10) as int)],
{
    assert(decimal_nat(v / 10) == seq![digit_char((v / 10) as int)]);
}

proof fn lemma_parse_two(x: int, y: int)
    requires
        0 <= x < 10,
        0 <= y < 10,
    ensures
        parse_int(seq![digit_char(x), digit_char(y)], 10) == Some(10 * x + y),
{
    lemma_digit_char(x);
    lemma_digit_char(y);
    let t = seq![digit_char(x), digit_char(y)];
    assert(t.drop_last() == seq![digit_char(x)]);
    assert(t.drop_last().drop_last() == Seq::<char>::empty());
    assert(digits_value(Seq::<char>::empty(), 10) == Some(0nat));
    assert(digits_value(t.drop_last(), 10) == Some(x as nat));
    assert(digits_value(t, 10) == Some((x * 10 + y) as nat));
}

proof fn lemma_parse_minus_one()
    ensures
        parse_int(seq!['-', '1'], 10) == Some(-1),
{
    let t = seq!['-', '1'];
    assert(t.skip(1) == seq!['1']);
    assert(seq!['1'].drop_last() == Seq::<char>::empty());
    assert(digits_value(Seq::<char>::empty(), 10) == Some(0nat));
    assert(digits_value(seq!['1'], 10) == Some(1nat));
}

proof fn lemma_non_letters_spread(s: Seq<char>, key: int)
    requires
        shifts_two_digits(s, key),
    ensures
        non_letters(spread(s, key)) == non_letters(s),
    decreases s.len(),
{
    if s.len() > 0 {
        let c = s[0];
        let rest = s.skip(1);
        lemma_shifts_two_digits_rest(s, key);
        lemma_non_letters_spread(rest, key);
        let sp = spread(s, key);
        if is_letter(c) {
            assert(is_letter(s[0]));
            let v = letter_value(c) + key;
            lemma_letter_is_letter(v / 10);
            lemma_letter_is_letter(v % 10);
            assert(sp[0] == letter(v / 10));
            assert(sp.skip(1)[0] == letter(v % 10));
            assert(sp.skip(1).skip(1) == spread(rest, key));
            assert(non_letters(sp.skip(1)) == non_letters(sp.skip(1).skip(1)));
            assert(non_letters(sp) == non_letters(sp.skip(1)));
        } else {
            assert(sp[0] == c);
            assert(sp.skip(1) == spread(rest, key));
            assert(non_letters(sp) == seq![c] + non_letters(sp.skip(1)));
        }
    }
}

proof fn lemma_shifts_two_digits_rest(s: Seq<char>, key: int)
    requires
        s.len() > 0,
        shifts_two_digits(s, key),
    ensures
        shifts_two_digits(s.skip(1), key),
        is_letter(s[0]) ==> 10 <= letter_value(s[0]) + key <= 99,
{
    let rest = s.skip(1);
    assert forall|i: int| 0 <= i < rest.len() && is_letter(#[trigger] rest[i]) implies 10
        <= letter_value(rest[i]) + key <= 99 by {
        assert(rest[i] == s[i + 1]);
    }
    assert(is_letter(s[0]) ==> 10 <= letter_value(s[0]) + key <= 99);
}

proof fn lemma_spell_spread(s: Seq<char>, key: int, m: Seq<char>, used: nat)
    requires
        shifts_two_digits(s, key),
        used + non_letters(s).len() <= m.len(),
        m.subrange(used as int, (used + non_letters(s).len()) as int) == non_letters(s),
    ensures
        spell(encrypt_digits(s, key), m, used) == spread(s, key),
    decreases s.len(),
{
    if s.len() == 0 {
        assert(encrypt_digits(s, key) == Seq::<char>::empty());
    } else {
        let c = s[0];
        let rest = s.skip(1);
        lemma_shifts_two_digits_rest(s, key);
        let e = encrypt_digits(s, key);
        let e2 = encrypt_digits(rest, key);
        assert(e == encrypt_token(c, key) + e2);
        if is_letter(c) {
            let v = letter_value(c) + key;
            lemma_decimal_two(v as nat);
            let x = v / 10;
            let y = v % 10;
            lemma_digit_char(x);
            lemma_digit_char(y);
            assert(encrypt_token(c, key) == seq![digit_char(x), digit_char(y)]);
            assert(e[0] == digit_char(x));
            assert(e.skip(1) == seq![digit_char(y)] + e2);
            assert(e.skip(1)[0] == digit_char(y));
            assert(e.skip(1).skip(1) == e2);
            assert(non_letters(s) == non_letters(rest));
            lemma_spell_spread(rest, key, m, used);
            assert(spell(e.skip(1), m, used) == seq![letter(y)] + spell(e2, m, used));
            assert(spell(e, m, used) == seq![letter(x)] + spell(e.skip(1), m, used));
            assert(spread(s, key) == seq![letter(x), letter(y)] + spread(rest, key));
        } else {
            assert(encrypt_token(c, key) == seq!['-']);
            assert(e[0] == '-');
            assert(e.skip(1) == e2);
            assert(non_letters(s) == seq![c] + non_letters(rest));
            assert((seq![c] + non_letters(rest)).skip(1) == non_letters(rest));
            assert(m[used as int] == m.subrange(used as int, (used + non_letters(s).len()) as int)[0]);
            assert(m.subrange((used + 1) as int, (used + 1 + non_letters(rest).len()) as int) == m.subrange(
                used as int,
                (used + non_letters(s).len()) as int,
            ).skip(1));
            lemma_spell_spread(rest, key, m, used + 1);
            assert(spread(s, key) == seq![c] + spread(rest, key));
        }
    }
}

proof fn lemma_decrypt_digits_concat(a: Seq<char>, b: Seq<char>)
    ensures
        decrypt_digits(a + b) == decrypt_digits(a) + decrypt_digits(b),
    decreases a.len(),
{
    if a.len() == 0 {
        assert(a + b == b);
    } else {
        assert((a + b)[0] == a[0]);
        assert((a + b).skip(1) == a.skip(1) + b);
        lemma_decrypt_digits_concat(a.skip(1), b);
    }
}

proof fn lemma_read_pairs_spread(s: Seq<char>, key: int, m: Seq<char>, used: nat)
    requires
        shifts_two_digits(s, key),
        used + non_letters(s).len() <= m.len(),
        m.subrange(used as int, (used + non_letters(s).len()) as int) == non_letters(s),
    ensures
        read_pairs(decrypt_digits(spread(s, key)), key, m, used) == Some(s),
    decreases s.len(),
{
    let d = decrypt_digits(spread(s, key));
    if s.len() == 0 {
        assert(spread(s, key) == Seq::<char>::empty());
        assert(d == Seq::<char>::empty());
        assert(s == Seq::<char>::empty());
    } else {
        let c = s[0];
        let rest = s.skip(1);
        lemma_shifts_two_digits_rest(s, key);
        let d2 = decrypt_digits(spread(rest, key));
        lemma_decrypt_digits_concat(spread_char(c, key), spread(rest, key));
        assert(d == decrypt_digits(spread_char(c, key)) + d2);
        if is_letter(c) {
            let v = letter_value(c) + key;
            let x = v / 10;
            let y = v % 10;
            lemma_letter_is_letter(x);
            lemma_letter_is_letter(y);
            lemma_digit_char(x);
            let sc = seq![letter(x), letter(y)];
            assert(sc.skip(1) == seq![letter(y)]);
            assert(seq![letter(y)].skip(1) == Seq::<char>::empty());
            assert(decrypt_digits(seq![letter(y)]) == decrypt_token(letter(y)) + decrypt_digits(
                Seq::<char>::empty(),
            ));
            assert(decrypt_digits(sc) == decrypt_token(letter(x)) + decrypt_digits(sc.skip(1)));
            assert(decimal_nat(x as nat) == seq![digit_char(x)]);
            assert(decimal_nat(y as nat) == seq![digit_char(y)]);
            assert(decrypt_digits(sc) == seq![digit_char(x), digit_char(y)]);
            assert(d[0] == digit_char(x));
            assert(d[1] == digit_char(y));
            assert(d.skip(2) == d2);
            lemma_parse_two(x, y);
            assert(seq![d[0], d[1]] == seq![digit_char(x), digit_char(y)]);
            assert(10 * x + y == v);
            assert(non_letters(s) == non_letters(rest));
            lemma_read_pairs_spread(rest, key, m, used);
            lemma_letter_roundtrip(c);
            assert(seq![c] + rest == s);
        } else {
            assert(decrypt_digits(seq![c]) == decrypt_token(c) + decrypt_digits(seq![c].skip(1)));
            assert(seq![c].skip(1) == Seq::<char>::empty());
            assert(decrypt_digits(spread_char(c, key)) == seq!['-', '1']);
            assert(d[0] == '-');
            assert(d[1] == '1');
            assert(d.skip(2) == d2);
            lemma_parse_minus_one();
            assert(seq![d[0], d[1]] == seq!['-', '1']);
            assert(non_letters(s) == seq![c] + non_letters(rest));
            assert((seq![c] + non_letters(rest)).skip(1) == non_letters(rest));
            assert(m[used as int] == m.subrange(used as int, (used + non_letters(s).len()) as int)[0]);
            assert(m.subrange((used + 1) as int, (used + 1 + non_letters(rest).len()) as int) == m.subrange(
                used as int,
                (used + non_letters(s).len()) as int,
            ).skip(1));
            lemma_read_pairs_spread(rest, key, m, used + 1);
            assert(seq![c] + rest == s);
        }
    }
}

proof fn lemma_repeat_push(m: Seq<char>, j: nat)
    ensures
        repeat(m, j) + m == repeat(m, j + 1),
        repeat(m, j + 1).subrange(0, m.len() as int) == m,
    decreases j,
{
    if j > 0 {
        lemma_repeat_push(m, (j - 1) as nat);
        assert(repeat(m, j) + m == m + (repeat(m, (j - 1) as nat) + m));
    } else {
        assert(repeat(m, 0) + m == m);
        assert(repeat(m, 1) == m + repeat(m, 0));
    }
    assert(repeat(m, j + 1) == m + repeat(m, j));
    assert((m + repeat(m, j)).subrange(0, m.len() as int) == m);
}

proof fn lemma_shifts_fit(s: Seq<char>, key: int)
    requires
        shifts_two_digits(s, key),
    ensures
        shifts_fit(s, key),
{
    assert forall|i: int| 0 <= i < s.len() && is_letter(#[trigger] s[i]) implies letter_value(s[i])
        + key <= i32::MAX by {
    }
}

proof fn lemma_encrypt_round_spread(s: Seq<char>, key: int, j: nat)
    requires
        shifts_two_digits(s, key),
    ensures
        encrypt_round(s, key, repeat(non_letters(s), j)) == Some(
            (spread(s, key), repeat(non_letters(s), j + 1)),
        ),
{
    let n = non_letters(s);
    lemma_shifts_fit(s, key);
    lemma_repeat_push(n, j);
    lemma_spell_spread(s, key, repeat(n, j + 1), 0);
}

proof fn lemma_decrypt_round_spread(p: Seq<char>, key: int, j: nat)
    requires
        shifts_two_digits(p, key),
        decrypt_digits(spread(p, key)).len() <= i32::MAX,
    ensures
        decrypt_round(spread(p, key), key, repeat(non_letters(p), j)) == Some(
            (p, repeat(non_letters(p), j + 1)),
        ),
{
    let n = non_letters(p);
    lemma_non_letters_spread(p, key);
    lemma_repeat_push(n, j);
    lemma_read_pairs_spread(p, key, repeat(n, j + 1), 0);
}

proof fn lemma_spread_times_outer(s: Seq<char>, key: int, n: nat)
    ensures
        spread_times(s, key, n + 1) == spread(spread_times(s, key, n), key),
    decreases n,
{
    if n > 0 {
        lemma_spread_times_outer(spread(s, key), key, (n - 1) as nat);
        assert(spread_times(s, key, n) == spread_times(spread(s, key), key, (n - 1) as nat));
    } else {
        assert(spread_times(spread(s, key), key, 0) == spread(s, key));
    }
    assert(spread_times(s, key, n + 1) == spread_times(spread(s, key), key, n));
}

proof fn lemma_chain_outer(s: Seq<char>, key: int, n: nat)
    requires
        two_digit_chain(s, key, n + 1),
    ensures
        two_digit_chain(s, key, n),
        shifts_two_digits(spread_times(s, key, n), key),
        decrypt_digits(spread(spread_times(s, key, n), key)).len() <= i32::MAX,
    decreases n,
{
    if n > 0 {
        lemma_chain_outer(spread(s, key), key, (n - 1) as nat);
    }
}

proof fn lemma_non_letters_spread_times(s: Seq<char>, key: int, n: nat)
    requires
        two_digit_chain(s, key, n),
    ensures
        non_letters(spread_times(s, key, n)) == non_letters(s),
    decreases n,
{
    if n > 0 {
        lemma_non_letters_spread(s, key);
        lemma_non_letters_spread_times(spread(s, key), key, (n - 1) as nat);
    }
}

proof fn lemma_encrypt_rounds(s: Seq<char>, key: int, j: nat, n: nat)
    requires
        two_digit_chain(s, key, n),
    ensures
        encrypt_rounds(s, key, repeat(non_letters(s), j), n) == Some(spread_times(s, key, n)),
    decreases n,
{
    if n > 0 {
        lemma_encrypt_round_spread(s, key, j);
        lemma_non_letters_spread(s, key);
        lemma_encrypt_rounds(spread(s, key), key, j + 1, (n - 1) as nat);
    }
}

proof fn lemma_decrypt_rounds(s: Seq<char>, key: int, j: nat, n: nat)
    requires
        two_digit_chain(s, key, n),
    ensures
        decrypt_rounds(spread_times(s, key, n), key, repeat(non_letters(s), j), n) == Some(s),
    decreases n,
{
    if n > 0 {
        let p = spread_times(s, key, (n - 1) as nat);
        lemma_spread_times_outer(s, key, (n - 1) as nat);
        lemma_chain_outer(s, key, (n - 1) as nat);
        lemma_non_letters_spread_times(s, key, (n - 1) as nat);
        lemma_decrypt_round_spread(p, key, j);
        lemma_decrypt_rounds(s, key, j + 1, (n - 1) as nat);
    }
}

/// Decrypting with the key and the recursion that encrypted a text gives the
/// text back, whenever every letter position on the way, shifted by the key,
/// has two decimal digits and the decrypted digits fit in an `i32` length.
pub proof fn law_decrypt_undoes_encrypt(text: Seq<char>, key: i32, recursion: i32)
    requires
        two_digit_chain(text, key as int, rounds_of(recursion)),
    ensures
        encryption(text, key, recursion) == Some(spread_times(text, key as int, rounds_of(recursion))),
        decryption(spread_times(text, key as int, rounds_of(recursion)), key, recursion) == Some(text),
{
    let n = rounds_of(recursion);
    assert(repeat(non_letters(text), 0) == Seq::<char>::empty());
    lemma_encrypt_rounds(text, key as int, 0, n);
    lemma_decrypt_rounds(text, key as int, 0, n);
}

proof fn lemma_letter_range(c: char)
    requires
        is_letter(c),
    ensures
        0 <= letter_value(c) <= 25,
{
}

proof fn lemma_decrypt_digits_len(s: Seq<char>)
    ensures
        decrypt_digits(s).len() <= 2 * s.len(),
    decreases s.len(),
{
    if s.len() > 0 {
        lemma_decrypt_digits_len(s.skip(1));
        if is_letter(s[0]) {
            lemma_letter_range(s[0]);
            let v = letter_value(s[0]) as nat;
            if v >= 10 {
                lemma_decimal_two(v);
            }
            assert(decrypt_token(s[0]).len() <= 2);
        }
    }
}

proof fn lemma_chain_of_key_bounds(s: Seq<char>, key: int, n: nat)
    requires
        10 <= key <= 74,
        forall|j: nat| 1 <= j <= n ==> (#[trigger] spread_times(s, key, j)).len() <= i32::MAX / 2,
    ensures
        two_digit_chain(s, key, n),
    decreases n,
{
    if n > 0 {
        assert forall|i: int| 0 <= i < s.len() && is_letter(#[trigger] s[i]) implies 10
            <= letter_value(s[i]) + key <= 99 by {
            lemma_letter_range(s[i]);
        }
        assert(spread_times(spread(s, key), key, 0) == spread(s, key));
        assert(spread_times(s, key, 1) == spread(s, key));
        lemma_decrypt_digits_len(spread(s, key));
        assert forall|j: nat| 1 <= j <= (n - 1) as nat implies (#[trigger] spread_times(
            spread(s, key),
            key,
            j,
        )).len() <= i32::MAX / 2 by {
            assert(spread_times(s, key, j + 1) == spread_times(spread(s, key), key, j));
        }
        lemma_chain_of_key_bounds(spread(s, key), key, (n - 1) as nat);
    }
}

/// For every key from 10 to 74, decrypting with the key and the recursion
/// that encrypted a text gives the text back, whenever each of the texts that
/// encryption passes through after the first round (`spread_times`, which
/// `law_decrypt_undoes_encrypt` shows to be those texts) has at most
/// `i32::MAX / 2` characters.
pub proof fn law_decrypt_undoes_encrypt_for_keys(text: Seq<char>, key: i32, recursion: i32)
    requires
        10 <= key <= 74,
        forall|j: nat|
            1 <= j <= rounds_of(recursion) ==> (#[trigger] spread_times(text, key as int, j)).len()
                <= i32::MAX / 2,
    ensures
        encryption(text, key, recursion) matches Some(c) && decryption(c, key, recursion) == Some(
            text,
        ),
{
    lemma_chain_of_key_bounds(text, key as int, rounds_of(recursion));
    law_decrypt_undoes_encrypt(text, key, recursion);
}

/// No letter of `s`, shifted by `key`, has a negative position.
pub open spec fn shifts_nonnegative(s: Seq<char>, key: int) -> bool {
    forall|i: int| 0 <= i < s.len() && is_letter(#[trigger] s[i]) ==> letter_value(s[i]) + key >= 0
}

/// What a round makes of `s` when no shifted position is negative: a letter
/// becomes the letters that spell its shifted position, and any other
/// character stays.
pub open spec fn plain_round(s: Seq<char>, key: int) -> Seq<char>
    decreases s.len(),
{
    if s.len() == 0 {
        seq![]
    } else {
        (if is_letter(s[0]) {
            spell(decimal_nat((letter_value(s[0]) + key) as nat), seq![], 0)
        } else {
            seq![s[0]]
        }) + plain_round(s.skip(1), key)
    }
}

/// Each of the `n` texts that encryption passes `s` through has no negative
/// shifted position.
pub open spec fn nonnegative_chain(s: Seq<char>, key: int, n: nat) -> bool
    decreases n,
{
    n == 0 || (shifts_nonnegative(s, key) && nonnegative_chain(plain_round(s, key), key, (n - 1) as nat))
}

/// Every character of `s` is a decimal digit.
pub open spec fn all_digits(s: Seq<char>) -> bool {
    forall|i: int| 0 <= i < s.len() ==> is_digit(#[trigger] s[i])
}

proof fn lemma_decimal_nat_digits(m: nat)
    ensures
        all_digits(decimal_nat(m)),
    decreases m,
{
    if m < 10 {
        lemma_digit_char(m as int);
        assert(decimal_nat(m)[0] == digit_char(m as int));
    } else {
        lemma_decimal_nat_digits(m / 10);
        lemma_digit_char((m % 10) as int);
        let a = decimal_nat(m / 10);
        let d = digit_char((m % 10) as int);
        assert forall|i: int| 0 <= i < a.push(d).len() implies is_digit(#[trigger] a.push(d)[i]) by {
            if i < a.len() {
                assert(a.push(d)[i] == a[i]);
            }
        }
    }
}

proof fn lemma_spell_digits_concat(a: Seq<char>, b: Seq<char>, m: Seq<char>, used: nat)
    requires
        all_digits(a),
    ensures
        spell(a + b, m, used) == spell(a, seq![], 0) + spell(b, m, used),
        non_letters(spell(a, seq![], 0)) == Seq::<char>::empty(),
    decreases a.len(),
{
    if a.len() == 0 {
        assert(a + b == b);
        assert(spell(a, seq![], 0) == Seq::<char>::empty());
    } else {
        let rest = a.skip(1);
        assert(is_digit(a[0]));
        lemma_digit_range(a[0]);
        assert forall|i: int| 0 <= i < rest.len() implies is_digit(#[trigger] rest[i]) by {
            assert(rest[i] == a[i + 1]);
        }
        lemma_spell_digits_concat(rest, b, m, used);
        assert((a + b)[0] == a[0]);
        assert((a + b).skip(1) == rest + b);
        let x = letter(a[0] as int - 48);
        lemma_letter_is_letter(a[0] as int - 48);
        assert(spell(a + b, m, used) == seq![x] + spell(rest + b, m, used));
        assert(spell(a, seq![], 0) == seq![x] + spell(rest, seq![], 0));
        let sp = spell(a, seq![], 0);
        assert(sp[0] == x);
        assert(sp.skip(1) == spell(rest, seq![], 0));
    }
}

proof fn lemma_non_letters_concat(a: Seq<char>, b: Seq<char>)
    ensures
        non_letters(a + b) == non_letters(a) + non_letters(b),
    decreases a.len(),
{
    if a.len() == 0 {
        assert(a + b == b);
    } else {
        assert((a + b)[0] == a[0]);
        assert((a + b).skip(1) == a.skip(1) + b);
        lemma_non_letters_concat(a.skip(1), b);
    }
}

proof fn lemma_shifts_nonnegative_rest(s: Seq<char>, key: int)
    requires
        s.len() > 0,
        shifts_nonnegative(s, key),
    ensures
        shifts_nonnegative(s.skip(1), key),
        is_letter(s[0]) ==> letter_value(s[0]) + key >= 0,
{
    let rest = s.skip(1);
    assert forall|i: int| 0 <= i < rest.len() && is_letter(#[trigger] rest[i]) implies letter_value(
        rest[i],
    ) + key >= 0 by {
        assert(rest[i] == s[i + 1]);
    }
    assert(is_letter(s[0]) ==> letter_value(s[0]) + key >= 0);
}

proof fn lemma_spell_plain(s: Seq<char>, key: int, m: Seq<char>, used: nat)
    requires
        shifts_nonnegative(s, key),
        used + non_letters(s).len() <= m.len(),
        m.subrange(used as int, (used + non_letters(s).len()) as int) == non_letters(s),
    ensures
        spell(encrypt_digits(s, key), m, used) == plain_round(s, key),
        non_letters(plain_round(s, key)) == non_letters(s),
    decreases s.len(),
{
    if s.len() == 0 {
        assert(encrypt_digits(s, key) == Seq::<char>::empty());
    } else {
        let c = s[0];
        let rest = s.skip(1);
        lemma_shifts_nonnegative_rest(s, key);
        let e2 = encrypt_digits(rest, key);
        assert(encrypt_digits(s, key) == encrypt_token(c, key) + e2);
        if is_letter(c) {
            let v = (letter_value(c) + key) as nat;
            assert(encrypt_token(c, key) == decimal_nat(v));
            lemma_decimal_nat_digits(v);
            lemma_spell_digits_concat(decimal_nat(v), e2, m, used);
            assert(non_letters(s) == non_letters(rest));
            lemma_spell_plain(rest, key, m, used);
            lemma_non_letters_concat(spell(decimal_nat(v), seq![], 0), plain_round(rest, key));
        } else {
            assert(encrypt_token(c, key) == seq!['-']);
            let e = encrypt_digits(s, key);
            assert(e[0] == '-');
            assert(e.skip(1) == e2);
            assert(non_letters(s) == seq![c] + non_letters(rest));
            assert((seq![c] + non_letters(rest)).skip(1) == non_letters(rest));
            assert(m[used as int] == m.subrange(used as int, (used + non_letters(s).len()) as int)[0]);
            assert(m.subrange((used + 1) as int, (used + 1 + non_letters(rest).len()) as int)
                == m.subrange(used as int, (used + non_letters(s).len()) as int).skip(1));
            lemma_spell_plain(rest, key, m, used + 1);
            lemma_non_letters_concat(seq![c], plain_round(rest, key));
            assert(seq![c].skip(1) == Seq::<char>::empty());
            assert(seq![c][0] == c);
            assert(non_letters(Seq::<char>::empty()) == Seq::<char>::empty());
            assert(non_letters(seq![c]) == seq![c] + non_letters(seq![c].skip(1)));
            assert(non_letters(seq![c]) == seq![c]);
        }
    }
}

proof fn lemma_encrypt_rounds_restart(s: Seq<char>, key: int, j: nat, n: nat)
    requires
        nonnegative_chain(s, key, n),
    ensures
        encrypt_rounds(s, key, repeat(non_letters(s), j), n) == encrypt_rounds(s, key, seq![], n),
    decreases n,
{
    if n > 0 {
        let nl = non_letters(s);
        lemma_repeat_push(nl, j);
        lemma_repeat_push(nl, 0);
        assert(Seq::<char>::empty() + nl == nl);
        assert(repeat(nl, 0) + nl == nl);
        assert(nl.subrange(0, nl.len() as int) == nl);
        lemma_spell_plain(s, key, repeat(nl, j + 1), 0);
        lemma_spell_plain(s, key, nl, 0);
        let o = plain_round(s, key);
        if shifts_fit(s, key) {
            assert(encrypt_round(s, key, repeat(nl, j)) == Some((o, repeat(nl, j + 1))));
            assert(encrypt_round(s, key, seq![]) == Some((o, repeat(nl, 1))));
            lemma_encrypt_rounds_restart(o, key, j + 1, (n - 1) as nat);
            lemma_encrypt_rounds_restart(o, key, 1, (n - 1) as nat);
        }
    }
}

/// A run of rounds of the default cipher is its first round followed by a
/// fresh run of the others, whenever no text on the way has a negative
/// shifted letter position: the non-letters that earlier rounds collect
/// never reach a later round.
pub proof fn law_encrypt_rounds_restart(text: Seq<char>, key: i32, recursion: i32)
    requires
        recursion >= 1,
        nonnegative_chain(text, key as int, rounds_of(recursion)),
    ensures
        encryption(text, key, recursion) == (match encryption(text, key, 1) {
            Some(o) => encryption(o, key, (recursion - 1) as i32),
            None => None,
        }),
{
    let k = key as int;
    let n = rounds_of(recursion);
    let nl = non_letters(text);
    assert(rounds_of(1) == 1);
    assert(rounds_of((recursion - 1) as i32) == n - 1);
    assert(Seq::<char>::empty() + nl == nl);
    assert(shifts_nonnegative(text, k));
    assert(nl.subrange(0, nl.len() as int) == nl);
    lemma_spell_plain(text, k, nl, 0);
    if shifts_fit(text, k) {
        let o = plain_round(text, k);
        assert(encrypt_round(text, k, seq![]) == Some((o, nl)));
        assert(encrypt_rounds(o, k, nl, 0) == Some(o));
        assert(encryption(text, key, 1) == Some(o));
        lemma_repeat_push(nl, 0);
        assert(repeat(nl, 1) == nl);
        lemma_encrypt_rounds_restart(o, k, 1, (n - 1) as nat);
    }
}

proof fn lemma_nonnegative_chain(s: Seq<char>, key: int, n: nat)
    requires
        key >= 0,
    ensures
        nonnegative_chain(s, key, n),
    decreases n,
{
    if n > 0 {
        assert forall|i: int| 0 <= i < s.len() && is_letter(#[trigger] s[i]) implies letter_value(s[i])
            + key >= 0 by {
            lemma_letter_range(s[i]);
        }
        lemma_nonnegative_chain(plain_round(s, key), key, (n - 1) as nat);
    }
}

proof fn lemma_encrypt_rounds_some(s: Seq<char>, key: int, marks: Seq<char>, n: nat)
    requires
        key <= i32::MAX - 25,
    ensures
        encrypt_rounds(s, key, marks, n) is Some,
    decreases n,
{
    if n > 0 {
        assert forall|i: int| 0 <= i < s.len() && is_letter(#[trigger] s[i]) implies letter_value(s[i])
            + key <= i32::MAX by {
            lemma_letter_range(s[i]);
        }
        assert(shifts_fit(s, key));
        let m = marks + non_letters(s);
        lemma_encrypt_rounds_some(spell(encrypt_digits(s, key), m, 0), key, m, (n - 1) as nat);
    }
}

/// For every key of 0 or more, a run of rounds of the default cipher is its
/// first round followed by a fresh run of the others; for keys up to
/// `i32::MAX - 25` no round overflows.
pub proof fn law_encrypt_rounds_restart_nonnegative_key(text: Seq<char>, key: i32, recursion: i32)
    requires
        recursion >= 1,
        0 <= key,
    ensures
        encryption(text, key, recursion) == (match encryption(text, key, 1) {
            Some(o) => encryption(o, key, (recursion - 1) as i32),
            None => None,
        }),
        key <= i32::MAX - 25 ==> encryption(text, key, recursion) is Some,
{
    lemma_nonnegative_chain(text, key as int, rounds_of(recursion));
    law_encrypt_rounds_restart(text, key, recursion);
    if key <= i32::MAX - 25 {
        lemma_encrypt_rounds_some(text, key as int, seq![], rounds_of(recursion));
    }
}

// ----------------------------------------------------------------------------
// The ASCII cipher
// ----------------------------------------------------------------------------

/// Every character of `s` is a byte, and that byte plus `key` has two
/// hexadecimal digits.
pub open spec fn bytes_two_hex(s: Seq<char>, key: nat) -> bool {
    forall|i: int| 0 <= i < s.len() ==> (#[trigger] s[i]) as int <= 255 && 16 <= s[i] as int + key <= 255
}

/// The two upper-case hexadecimal digits of `c` plus `key`.
pub open spec fn hex_pair(c: char, key: nat) -> Seq<char> {
    let v = c as int + key;
    seq![hex_char(v / 16), hex_char(v % 16)]
}

/// `hex_pair` applied to each character of `s`.
pub open spec fn hex_spread(s: Seq<char>, key: nat) -> Seq<char>
    decreases s.len(),
{
    if s.len() == 0 {
        seq![]
    } else {
        hex_pair(s[0], key) + hex_spread(s.skip(1), key)
    }
}

/// `hex_spread` applied `n` times.
pub open spec fn hex_spread_times(s: Seq<char>, key: nat, n: nat) -> Seq<char>
    decreases n,
{
    if n == 0 {
        s
    } else {
        hex_spread_times(hex_spread(s, key), key, (n - 1) as nat)
    }
}

/// Each of the `n` texts that ASCII encryption passes `s` through holds only
/// bytes whose sum with `key` has two hexadecimal digits.
pub open spec fn two_hex_chain(s: Seq<char>, key: nat, n: nat) -> bool
    decreases n,
{
    n == 0 || (bytes_two_hex(s, key) && two_hex_chain(hex_spread(s, key), key, (n - 1) as nat))
}

/// The codes of the characters of `s`.
pub open spec fn codes(s: Seq<char>) -> Seq<i32> {
    Seq::new(s.len(), |i: int| s[i] as i32)
}

proof fn lemma_hex_char(d: int)
    requires
        0 <= d < 16,
    ensures
        digit_value(hex_char(d), 16) == Some(d as nat),
        !is_whitespace(hex_char(d)),
        utf8_width(hex_char(d)) == 1,
        hex_char(d) != '-',
        hex_char(d) != '+',
        hex_char(d) as int == if d < 10 {
            48 + d
        } else {
            55 + d
        },
{
}

proof fn lemma_hex_two(v: nat)
    requires
        16 <= v <= 255,
    ensures
        hex_nat(v) == seq![hex_char((v / 16) as int), hex_char((v % 16) as int)],
{
    assert(hex_nat(v / 16) == seq![hex_char((v / 16) as int)]);
}

proof fn lemma_parse_hex_pair(x: int, y: int)
    requires
        0 <= x < 16,
        0 <= y < 16,
    ensures
        parse_int(seq![hex_char(x), hex_char(y)], 16) == Some(16 * x + y),
        trim(seq![hex_char(x), hex_char(y)]) == seq![hex_char(x), hex_char(y)],
{
    lemma_hex_char(x);
    lemma_hex_char(y);
    let t = seq![hex_char(x), hex_char(y)];
    assert(t.drop_last() == seq![hex_char(x)]);
    assert(t.drop_last().drop_last() == Seq::<char>::empty());
    assert(digits_value(Seq::<char>::empty(), 16) == Some(0nat));
    assert(digits_value(t.drop_last(), 16) == Some(x as nat));
    assert(digits_value(t, 16) == Some((x * 16 + y) as nat));
    assert(trim_start(t) == t);
    assert(trim_end(t) == t);
}

proof fn lemma_bytes_two_hex_rest(s: Seq<char>, key: nat)
    requires
        s.len() > 0,
        bytes_two_hex(s, key),
    ensures
        bytes_two_hex(s.skip(1), key),
        s[0] as int <= 255,
        16 <= s[0] as int + key <= 255,
{
    let rest = s.skip(1);
    assert forall|i: int| 0 <= i < rest.len() implies (#[trigger] rest[i]) as int <= 255 && 16
        <= rest[i] as int + key <= 255 by {
        assert(rest[i] == s[i + 1]);
    }
    assert(s[0] as int <= 255);
}

proof fn lemma_char_range(c: char)
    ensures
        0 <= c as int <= 0x10FFFF,
        c as int <= 255 ==> low_byte(c) == c as int,
{
}

proof fn lemma_hex_round_spread(s: Seq<char>, key: nat)
    requires
        bytes_two_hex(s, key),
    ensures
        hex_round(s, key) == Some(hex_spread(s, key)),
    decreases s.len(),
{
    if s.len() > 0 {
        lemma_bytes_two_hex_rest(s, key);
        lemma_hex_round_spread(s.skip(1), key);
        lemma_char_range(s[0]);
        lemma_hex_two((s[0] as int + key) as nat);
    }
}

proof fn lemma_hex_spread_shape(s: Seq<char>, key: nat)
    requires
        s.len() > 0,
        bytes_two_hex(s, key),
    ensures
        ({
            let v = s[0] as int + key;
            let h = hex_spread(s, key);
            &&& h.len() >= 2
            &&& h[0] == hex_char(v / 16)
            &&& h[1] == hex_char(v % 16)
            &&& h.take(2) == seq![hex_char(v / 16), hex_char(v % 16)]
            &&& h.skip(2) == hex_spread(s.skip(1), key)
        }),
{
    lemma_bytes_two_hex_rest(s, key);
    let v = s[0] as int + key;
    let h = hex_spread(s, key);
    assert(h == hex_pair(s[0], key) + hex_spread(s.skip(1), key));
    assert(h.take(2) == hex_pair(s[0], key));
    assert(h.skip(2) == hex_spread(s.skip(1), key));
}

proof fn lemma_splits_hex_spread(s: Seq<char>, key: nat)
    requires
        bytes_two_hex(s, key),
    ensures
        splits_in_byte_pairs(hex_spread(s, key)),
    decreases s.len(),
{
    if s.len() > 0 {
        lemma_hex_spread_shape(s, key);
        lemma_bytes_two_hex_rest(s, key);
        let v = s[0] as int + key;
        lemma_hex_char(v / 16);
        lemma_hex_char(v % 16);
        lemma_splits_hex_spread(s.skip(1), key);
    } else {
        assert(hex_spread(s, key) == Seq::<char>::empty());
    }
}

proof fn lemma_piece_values_hex_spread(s: Seq<char>, key: nat)
    requires
        bytes_two_hex(s, key),
        key <= i32::MAX,
    ensures
        piece_values(hex_spread(s, key), key as int) == Some(codes(s)),
    decreases s.len(),
{
    if s.len() > 0 {
        lemma_hex_spread_shape(s, key);
        lemma_bytes_two_hex_rest(s, key);
        let v = s[0] as int + key;
        let h = hex_spread(s, key);
        lemma_hex_char(v / 16);
        lemma_hex_char(v % 16);
        assert(first_piece_len(h) == 2);
        lemma_parse_hex_pair(v / 16, v % 16);
        lemma_piece_values_hex_spread(s.skip(1), key);
        assert(codes(s) == seq![s[0] as i32] + codes(s.skip(1)));
    } else {
        assert(hex_spread(s, key) == Seq::<char>::empty());
        assert(codes(s) == Seq::<i32>::empty());
    }
}

proof fn lemma_char_code(c: char)
    requires
        c as int <= 255,
    ensures
        (c as i32) as char == c,
        (c as i32) >= 0,
        is_scalar((c as i32) as int),
{
}

proof fn lemma_decode_codes(s: Seq<char>)
    requires
        forall|i: int| 0 <= i < s.len() ==> (#[trigger] s[i]) as int <= 255,
    ensures
        decode_values(codes(s)) == Some(s),
    decreases s.len(),
{
    if s.len() > 0 {
        let rest = s.skip(1);
        assert forall|i: int| 0 <= i < rest.len() implies (#[trigger] rest[i]) as int <= 255 by {
            assert(rest[i] == s[i + 1]);
        }
        lemma_decode_codes(rest);
        assert(s[0] as int <= 255);
        lemma_char_code(s[0]);
        assert(codes(s)[0] == s[0] as i32);
        assert(codes(s).skip(1) == codes(rest));
        assert(seq![s[0]] + rest == s);
    } else {
        assert(codes(s) == Seq::<i32>::empty());
        assert(s == Seq::<char>::empty());
    }
}

proof fn lemma_unhex_round_spread(s: Seq<char>, key: u32)
    requires
        bytes_two_hex(s, key as nat),
    ensures
        unhex_round(hex_spread(s, key as nat), key) == Some(s),
{
    if s.len() == 0 {
        assert(hex_spread(s, key as nat) == Seq::<char>::empty());
        assert(s == Seq::<char>::empty());
    } else {
        lemma_bytes_two_hex_rest(s, key as nat);
        lemma_char_range(s[0]);
        assert(key_as_i32(key) == key as int);
        lemma_splits_hex_spread(s, key as nat);
        lemma_piece_values_hex_spread(s, key as nat);
        assert forall|i: int| 0 <= i < s.len() implies (#[trigger] s[i]) as int <= 255 by {
        }
        lemma_decode_codes(s);
    }
}

proof fn lemma_hex_spread_times_outer(s: Seq<char>, key: nat, n: nat)
    ensures
        hex_spread_times(s, key, n + 1) == hex_spread(hex_spread_times(s, key, n), key),
    decreases n,
{
    if n > 0 {
        lemma_hex_spread_times_outer(hex_spread(s, key), key, (n - 1) as nat);
        assert(hex_spread_times(s, key, n) == hex_spread_times(hex_spread(s, key), key, (n - 1) as nat));
    } else {
        assert(hex_spread_times(hex_spread(s, key), key, 0) == hex_spread(s, key));
    }
    assert(hex_spread_times(s, key, n + 1) == hex_spread_times(hex_spread(s, key), key, n));
}

proof fn lemma_hex_chain_outer(s: Seq<char>, key: nat, n: nat)
    requires
        two_hex_chain(s, key, n + 1),
    ensures
        two_hex_chain(s, key, n),
        bytes_two_hex(hex_spread_times(s, key, n), key),
    decreases n,
{
    if n > 0 {
        lemma_hex_chain_outer(hex_spread(s, key), key, (n - 1) as nat);
    }
}

proof fn lemma_hex_rounds(s: Seq<char>, key: nat, n: nat)
    requires
        two_hex_chain(s, key, n),
    ensures
        hex_rounds(s, key, n) == Some(hex_spread_times(s, key, n)),
    decreases n,
{
    if n > 0 {
        lemma_hex_round_spread(s, key);
        lemma_hex_rounds(hex_spread(s, key), key, (n - 1) as nat);
    }
}

proof fn lemma_unhex_rounds(s: Seq<char>, key: u32, n: nat)
    requires
        two_hex_chain(s, key as nat, n),
    ensures
        unhex_rounds(hex_spread_times(s, key as nat, n), key, n) == Some(s),
    decreases n,
{
    if n > 0 {
        let p = hex_spread_times(s, key as nat, (n - 1) as nat);
        lemma_hex_spread_times_outer(s, key as nat, (n - 1) as nat);
        lemma_hex_chain_outer(s, key as nat, (n - 1) as nat);
        lemma_unhex_round_spread(p, key);
        lemma_unhex_rounds(s, key, (n - 1) as nat);
    }
}

/// ASCII-decrypting with the key and the recursion that ASCII-encrypted a text
/// gives the text back, whenever every character on the way is a byte whose
/// sum with the key has two hexadecimal digits.
pub proof fn law_ascii_decrypt_undoes_ascii_encrypt(text: Seq<char>, key: u32, recursion: i32)
    requires
        two_hex_chain(text, key as nat, rounds_of(recursion)),
    ensures
        ascii_encryption(text, key, recursion) == Some(
            hex_spread_times(text, key as nat, rounds_of(recursion)),
        ),
        ascii_decryption(hex_spread_times(text, key as nat, rounds_of(recursion)), key, recursion)
            == Some(text),
{
    lemma_hex_rounds(text, key as nat, rounds_of(recursion));
    lemma_unhex_rounds(text, key, rounds_of(recursion));
}

/// The value of a hexadecimal digit.
pub open spec fn hex_value(h: char) -> int {
    match digit_value(h, 16) {
        Some(v) => v as int,
        None => 0,
    }
}

/// The number that the first two characters of `c` write in hexadecimal.
pub open spec fn pair_value(c: Seq<char>) -> int {
    16 * hex_value(c[0]) + hex_value(c[1])
}

/// `c` is made of pairs of upper-case hexadecimal digits, each pair without a
/// leading `0` (so it is how the ASCII cipher writes a byte) and worth at
/// least `key`.
pub open spec fn canonical_hex_pairs(c: Seq<char>, key: nat) -> bool
    decreases c.len(),
{
    c.len() == 0 || {
        &&& c.len() >= 2
        &&& is_upper_hex(c[0])
        &&& is_upper_hex(c[1])
        &&& c[0] != '0'
        &&& key <= pair_value(c)
        &&& canonical_hex_pairs(c.skip(2), key)
    }
}

/// The characters whose codes are the pairs of `c`, each less `key`.
pub open spec fn unpaired(c: Seq<char>, key: nat) -> Seq<char>
    decreases c.len(),
{
    if c.len() < 2 {
        seq![]
    } else {
        seq![(pair_value(c) - key) as char] + unpaired(c.skip(2), key)
    }
}

proof fn lemma_upper_hex(h: char)
    requires
        is_upper_hex(h),
    ensures
        digit_value(h, 16) is Some,
        0 <= hex_value(h) < 16,
        hex_char(hex_value(h)) == h,
        utf8_width(h) == 1,
        !is_whitespace(h),
        h != '-',
        h != '+',
        h != '0' ==> hex_value(h) >= 1,
{
}

proof fn lemma_byte_char(x: int)
    requires
        0 <= x <= 255,
    ensures
        (x as char) as int == x,
        low_byte(x as char) == x,
        (x as char) as i32 == x,
{
}

proof fn lemma_canonical_pieces(c: Seq<char>, key: nat)
    requires
        canonical_hex_pairs(c, key),
        key <= i32::MAX,
    ensures
        splits_in_byte_pairs(c),
        piece_values(c, key as int) == Some(codes(unpaired(c, key))),
        forall|i: int| 0 <= i < unpaired(c, key).len() ==> (#[trigger] unpaired(c, key)[i]) as int
            <= 255,
    decreases c.len(),
{
    let u = unpaired(c, key);
    if c.len() == 0 {
        assert(u == Seq::<char>::empty());
        assert(codes(u) == Seq::<i32>::empty());
    } else {
        lemma_upper_hex(c[0]);
        lemma_upper_hex(c[1]);
        let v = pair_value(c);
        let rest = c.skip(2);
        lemma_canonical_pieces(rest, key);
        lemma_byte_char(v - key);
        assert(c.skip(1)[0] == c[1]);
        assert(c.skip(1).skip(1) == rest);
        assert(first_piece_len(c) == 2);
        let t = c.take(2);
        assert(t == seq![c[0], c[1]]);
        assert(t.drop_last() == seq![c[0]]);
        assert(t.drop_last().drop_last() == Seq::<char>::empty());
        assert(digits_value(Seq::<char>::empty(), 16) == Some(0nat));
        assert(digits_value(t.drop_last(), 16) == Some(hex_value(c[0]) as nat));
        assert(digits_value(t, 16) == Some(v as nat));
        assert(trim_start(t) == t);
        assert(trim_end(t) == t);
        assert(parse_int(t, 16) == Some(v));
        assert(u == seq![(v - key) as char] + unpaired(rest, key));
        assert(codes(u) == seq![u[0] as i32] + codes(unpaired(rest, key)));
        assert forall|i: int| 0 <= i < u.len() implies (#[trigger] u[i]) as int <= 255 by {
            if i > 0 {
                assert(u[i] == unpaired(rest, key)[i - 1]);
            }
        }
    }
}

proof fn lemma_canonical_rehex(c: Seq<char>, key: nat)
    requires
        canonical_hex_pairs(c, key),
    ensures
        hex_round(unpaired(c, key), key) == Some(c),
    decreases c.len(),
{
    let u = unpaired(c, key);
    if c.len() == 0 {
        assert(u == Seq::<char>::empty());
    } else {
        lemma_upper_hex(c[0]);
        lemma_upper_hex(c[1]);
        let v = pair_value(c);
        let rest = c.skip(2);
        lemma_canonical_rehex(rest, key);
        lemma_byte_char(v - key);
        assert(u[0] == (v - key) as char);
        assert(u.skip(1) == unpaired(rest, key));
        assert(v / 16 == hex_value(c[0]));
        assert(v % 16 == hex_value(c[1]));
        lemma_hex_two(v as nat);
        assert(low_byte(u[0]) + key == v);
        assert(hex_nat(v as nat) == seq![c[0], c[1]]);
        assert(seq![c[0], c[1]] + rest == c);
    }
}

/// Re-encrypting one round of ASCII decryption gives the cipher text back,
/// when it is made of upper-case hexadecimal pairs without a leading `0`,
/// each worth at least the key.
pub proof fn law_ascii_encrypt_undoes_ascii_decrypt(cipher: Seq<char>, key: u32)
    requires
        canonical_hex_pairs(cipher, key as nat),
    ensures
        ascii_decryption(cipher, key, 1) matches Some(p) && ascii_encryption(p, key, 1) == Some(
            cipher,
        ),
{
    let u = unpaired(cipher, key as nat);
    if cipher.len() == 0 {
        assert(u == Seq::<char>::empty());
        assert(codes(u) == Seq::<i32>::empty());
    } else {
        lemma_upper_hex(cipher[0]);
        lemma_upper_hex(cipher[1]);
    }
    if cipher.len() > 0 {
        assert(key_as_i32(key) == key as int);
        lemma_canonical_pieces(cipher, key as nat);
        lemma_decode_codes(u);
    }
    assert(unhex_round(cipher, key) == Some(u));
    lemma_canonical_rehex(cipher, key as nat);
    assert(unhex_rounds(u, key, 0) == Some(u));
    assert(unhex_rounds(cipher, key, 1) == Some(u));
    assert(hex_rounds(cipher, key as nat, 0) == Some(cipher));
    assert(hex_rounds(u, key as nat, 1) == Some(cipher));
    assert(rounds_of(1) == 1);
}

// ----------------------------------------------------------------------------
// What the cipher texts are made of
// ----------------------------------------------------------------------------

/// An upper-case hexadecimal digit, `0` to `9` or `A` to `F`.
pub open spec fn is_upper_hex(c: char) -> bool {
    is_digit(c) || 65 <= c as int <= 70
}

/// Every character of `s` is an upper-case hexadecimal digit.
pub open spec fn all_upper_hex(s: Seq<char>) -> bool {
    forall|i: int| 0 <= i < s.len() ==> is_upper_hex(#[trigger] s[i])
}

/// Every letter of `s` is one of `A` to `J`, the letters that spell digits.
pub open spec fn letters_spell_digits(s: Seq<char>) -> bool {
    forall|i: int| 0 <= i < s.len() && is_letter(#[trigger] s[i]) ==> letter_value(s[i]) <= 9
}

/// No character of `s` is an upper-case letter.
pub open spec fn no_letters(s: Seq<char>) -> bool {
    forall|i: int| 0 <= i < s.len() ==> !is_letter(#[trigger] s[i])
}

proof fn lemma_all_upper_hex_concat(a: Seq<char>, b: Seq<char>)
    requires
        all_upper_hex(a),
        all_upper_hex(b),
    ensures
        all_upper_hex(a + b),
{
    assert forall|i: int| 0 <= i < (a + b).len() implies is_upper_hex(#[trigger] (a + b)[i]) by {
        if i < a.len() {
            assert((a + b)[i] == a[i]);
        } else {
            assert((a + b)[i] == b[i - a.len()]);
        }
    }
}

proof fn lemma_hex_nat_upper(m: nat)
    ensures
        all_upper_hex(hex_nat(m)),
    decreases m,
{
    if m < 16 {
        assert(hex_nat(m)[0] == hex_char(m as int));
    } else {
        lemma_hex_nat_upper(m / 16);
        let d = hex_char((m % 16) as int);
        assert(is_upper_hex(d));
        lemma_all_upper_hex_concat(hex_nat(m / 16), seq![d]);
        assert(hex_nat(m / 16).push(d) == hex_nat(m / 16) + seq![d]);
    }
}

proof fn lemma_hex_round_upper(s: Seq<char>, key: nat)
    ensures
        hex_round(s, key) matches Some(o) ==> all_upper_hex(o),
    decreases s.len(),
{
    if s.len() > 0 {
        lemma_hex_round_upper(s.skip(1), key);
        lemma_hex_nat_upper(low_byte(s[0]) + key);
        match hex_round(s.skip(1), key) {
            Some(t) => {
                lemma_all_upper_hex_concat(hex_nat(low_byte(s[0]) + key), t);
            },
            None => {},
        }
    }
}

proof fn lemma_hex_rounds_upper(s: Seq<char>, key: nat, n: nat)
    requires
        n >= 1,
    ensures
        hex_rounds(s, key, n) matches Some(o) ==> all_upper_hex(o),
    decreases n,
{
    lemma_hex_round_upper(s, key);
    match hex_round(s, key) {
        Some(o) => {
            if n > 1 {
                lemma_hex_rounds_upper(o, key, (n - 1) as nat);
            }
        },
        None => {},
    }
}

/// After at least one round, the ASCII cipher text holds nothing but
/// upper-case hexadecimal digits.
pub proof fn law_ascii_encrypt_writes_hex_digits(text: Seq<char>, key: u32, recursion: i32)
    requires
        recursion >= 1,
    ensures
        ascii_encryption(text, key, recursion) matches Some(o) ==> all_upper_hex(o),
{
    lemma_hex_rounds_upper(text, key as nat, rounds_of(recursion));
}

proof fn lemma_non_letters_no_letters(s: Seq<char>)
    ensures
        no_letters(non_letters(s)),
    decreases s.len(),
{
    if s.len() > 0 {
        lemma_non_letters_no_letters(s.skip(1));
        let r = non_letters(s.skip(1));
        if !is_letter(s[0]) {
            assert forall|i: int| 0 <= i < (seq![s[0]] + r).len() implies !is_letter(
                #[trigger] (seq![s[0]] + r)[i],
            ) by {
                if i > 0 {
                    assert((seq![s[0]] + r)[i] == r[i - 1]);
                }
            }
        }
    }
}

proof fn lemma_no_letters_concat(a: Seq<char>, b: Seq<char>)
    requires
        no_letters(a),
        no_letters(b),
    ensures
        no_letters(a + b),
{
    assert forall|i: int| 0 <= i < (a + b).len() implies !is_letter(#[trigger] (a + b)[i]) by {
        if i < a.len() {
            assert((a + b)[i] == a[i]);
        } else {
            assert((a + b)[i] == b[i - a.len()]);
        }
    }
}

proof fn lemma_digit_range(c: char)
    requires
        is_digit(c),
    ensures
        48 <= c as int <= 57,
{
}

proof fn lemma_spell_letters(d: Seq<char>, m: Seq<char>, used: nat)
    requires
        no_letters(m),
    ensures
        letters_spell_digits(spell(d, m, used)),
    decreases d.len(),
{
    if d.len() > 0 {
        let x = if d[0] == '-' {
            if used < m.len() {
                m[used as int]
            } else {
                '?'
            }
        } else {
            letter(d[0] as int - 48)
        };
        let next: nat = if d[0] == '-' {
            used + 1
        } else {
            used
        };
        lemma_spell_letters(d.skip(1), m, next);
        let r = spell(d.skip(1), m, next);
        if d[0] == '-' || is_digit(d[0]) {
            assert(spell(d, m, used) == seq![x] + r);
            assert forall|i: int| 0 <= i < (seq![x] + r).len() && is_letter(
                #[trigger] (seq![x] + r)[i],
            ) implies letter_value((seq![x] + r)[i]) <= 9 by {
                if i > 0 {
                    assert((seq![x] + r)[i] == r[i - 1]);
                } else if d[0] == '-' {
                    if used < m.len() {
                        assert(!is_letter(m[used as int]));
                    }
                } else {
                    lemma_digit_range(d[0]);
                    lemma_letter_is_letter(d[0] as int - 48);
                }
            }
        }
    }
}

proof fn lemma_encrypt_rounds_letters(s: Seq<char>, key: int, marks: Seq<char>, n: nat)
    requires
        n >= 1,
        no_letters(marks),
    ensures
        encrypt_rounds(s, key, marks, n) matches Some(o) ==> letters_spell_digits(o),
    decreases n,
{
    match encrypt_round(s, key, marks) {
        Some((o, m)) => {
            lemma_non_letters_no_letters(s);
            lemma_no_letters_concat(marks, non_letters(s));
            lemma_spell_letters(encrypt_digits(s, key), m, 0);
            if n > 1 {
                lemma_encrypt_rounds_letters(o, key, m, (n - 1) as nat);
            }
        },
        None => {},
    }
}

/// After at least one round, every letter of the default cipher text is one
/// of `A` to `J`: letters only spell decimal digits.
pub proof fn law_encrypt_spells_only_digits(text: Seq<char>, key: i32, recursion: i32)
    requires
        recursion >= 1,
    ensures
        encryption(text, key, recursion) matches Some(o) ==> letters_spell_digits(o),
{
    lemma_encrypt_rounds_letters(text, key as int, seq![], rounds_of(recursion));
}

// ----------------------------------------------------------------------------
// What the written numbers mean
// ----------------------------------------------------------------------------

/// The number that the digit values `ds` write in base `radix`, most
/// significant first: the sum of `ds[i] * radix^(len - 1 - i)`.
pub open spec fn place_value(ds: Seq<int>, radix: int) -> int
    decreases ds.len(),
{
    if ds.len() == 0 {
        0
    } else {
        ds[0] * pow(radix, (ds.len() - 1) as nat) + place_value(ds.skip(1), radix)
    }
}

/// The values of decimal digit characters.
pub open spec fn decimal_digit_values(d: Seq<char>) -> Seq<int> {
    d.map_values(|c: char| c as int - 48)
}

/// The values of upper-case hexadecimal digit characters: `0` to `9` stand
/// for 0 to 9 and `A` to `F` for 10 to 15.
pub open spec fn hex_digit_values(d: Seq<char>) -> Seq<int> {
    d.map_values(|c: char| if c as int <= 57 { c as int - 48 } else { c as int - 55 })
}

/// The digits that spelled letters stand for (`A` for 0, ..., `J` for 9).
pub open spec fn spelled_digit_values(s: Seq<char>) -> Seq<int> {
    s.map_values(|c: char| letter_value(c))
}

proof fn lemma_place_value_push(ds: Seq<int>, x: int, radix: int)
    ensures
        place_value(ds.push(x), radix) == radix * place_value(ds, radix) + x,
    decreases ds.len(),
{
    reveal(pow);
    if ds.len() == 0 {
        assert(ds.push(x) == seq![x]);
        assert(seq![x].skip(1) == Seq::<int>::empty());
        assert(pow(radix, 0) == 1);
        assert(place_value(Seq::<int>::empty(), radix) == 0);
        assert(place_value(seq![x], radix) == x * pow(radix, 0) + place_value(seq![x].skip(1), radix));
    } else {
        let rest = ds.skip(1);
        assert(ds.push(x).skip(1) == rest.push(x));
        assert(ds.push(x)[0] == ds[0]);
        lemma_place_value_push(rest, x, radix);
        let p = pow(radix, (ds.len() - 1) as nat);
        assert(pow(radix, ds.len() as nat) == radix * p);
        let a = ds[0];
        let b = place_value(rest, radix);
        assert(place_value(ds, radix) == a * p + b);
        assert(place_value(ds.push(x), radix) == a * pow(radix, ds.len() as nat) + place_value(
            rest.push(x),
            radix,
        ));
        assert(a * (radix * p) + (radix * b + x) == radix * (a * p + b) + x) by (nonlinear_arith);
    }
}

/// The decimal digits of `m` are digits without a leading zero, and read in
/// base 10 they give `m` back.
pub proof fn law_decimal_digits_mean_the_number(m: nat)
    ensures
        decimal_nat(m).len() >= 1,
        all_digits(decimal_nat(m)),
        place_value(decimal_digit_values(decimal_nat(m)), 10) == m,
        decimal_nat(m).len() > 1 ==> decimal_nat(m)[0] != '0',
    decreases m,
{
    let d = decimal_nat(m);
    if m < 10 {
        lemma_digit_char(m as int);
        assert(d == seq![digit_char(m as int)]);
        assert(decimal_digit_values(d) == seq![m as int]);
        lemma_place_value_push(Seq::<int>::empty(), m as int, 10);
        assert(seq![m as int] == Seq::<int>::empty().push(m as int));
    } else {
        law_decimal_digits_mean_the_number(m / 10);
        let a = decimal_nat(m / 10);
        let c = digit_char((m % 10) as int);
        lemma_digit_char((m % 10) as int);
        assert(d == a.push(c));
        assert forall|i: int| 0 <= i < d.len() implies is_digit(#[trigger] d[i]) by {
            if i < a.len() {
                assert(d[i] == a[i]);
            }
        }
        assert(decimal_digit_values(d) == decimal_digit_values(a).push((m % 10) as int));
        lemma_place_value_push(decimal_digit_values(a), (m % 10) as int, 10);
        assert(d[0] == a[0]);
        if m / 10 < 10 {
            assert(a == seq![digit_char((m / 10) as int)]);
            lemma_digit_char((m / 10) as int);
        } else {
            law_decimal_digits_mean_the_number(m / 100);
            assert(a == decimal_nat(m / 100).push(digit_char(((m / 10) % 10) as int)));
        }
    }
}

/// The upper-case hexadecimal digits of `m` are hexadecimal digits without a
/// leading zero, and read in base 16 they give `m` back.
pub proof fn law_hex_digits_mean_the_number(m: nat)
    ensures
        hex_nat(m).len() >= 1,
        all_upper_hex(hex_nat(m)),
        forall|i: int| 0 <= i < hex_nat(m).len() ==> digit_value(#[trigger] hex_nat(m)[i], 16) is Some,
        place_value(hex_digit_values(hex_nat(m)), 16) == m,
        hex_nat(m).len() > 1 ==> hex_nat(m)[0] != '0',
    decreases m,
{
    let d = hex_nat(m);
    lemma_hex_nat_upper(m);
    if m < 16 {
        lemma_hex_char(m as int);
        assert(d == seq![hex_char(m as int)]);
        assert(hex_digit_values(d) == seq![m as int]);
        lemma_place_value_push(Seq::<int>::empty(), m as int, 16);
        assert(seq![m as int] == Seq::<int>::empty().push(m as int));
    } else {
        law_hex_digits_mean_the_number(m / 16);
        let a = hex_nat(m / 16);
        let c = hex_char((m % 16) as int);
        lemma_hex_char((m % 16) as int);
        assert(d == a.push(c));
        assert forall|i: int| 0 <= i < d.len() implies digit_value(#[trigger] d[i], 16) is Some by {
            if i < a.len() {
                assert(d[i] == a[i]);
            }
        }
        assert(hex_digit_values(d) == hex_digit_values(a).push((m % 16) as int));
        lemma_place_value_push(hex_digit_values(a), (m % 16) as int, 16);
        assert(d[0] == a[0]);
        if m / 16 < 16 {
            assert(a == seq![hex_char((m / 16) as int)]);
            lemma_hex_char((m / 16) as int);
            assert(hex_char((m / 16) as int) != '0') by {
                assert(digit_value('0', 16) == Some(0nat));
            }
        } else {
            law_hex_digits_mean_the_number(m / 256);
            assert(m / 256 == (m / 16) / 16);
            assert(a == hex_nat(m / 256).push(hex_char(((m / 16) % 16) as int)));
        }
    }
}

proof fn lemma_spell_digits_letters(d: Seq<char>)
    requires
        all_digits(d),
    ensures
        spell(d, seq![], 0).len() == d.len(),
        forall|i: int| 0 <= i < d.len() ==> #[trigger] spell(d, seq![], 0)[i] == letter(d[i] as int - 48),
    decreases d.len(),
{
    if d.len() > 0 {
        let rest = d.skip(1);
        lemma_digit_range(d[0]);
        assert forall|i: int| 0 <= i < rest.len() implies is_digit(#[trigger] rest[i]) by {
            assert(rest[i] == d[i + 1]);
        }
        lemma_spell_digits_letters(rest);
        let x = letter(d[0] as int - 48);
        assert(spell(d, seq![], 0) == seq![x] + spell(rest, seq![], 0));
        assert forall|i: int| 0 <= i < d.len() implies #[trigger] spell(d, seq![], 0)[i] == letter(
            d[i] as int - 48,
        ) by {
            if i > 0 {
                assert(spell(d, seq![], 0)[i] == spell(rest, seq![], 0)[i - 1]);
                assert(rest[i - 1] == d[i]);
            }
        }
    } else {
        assert(spell(d, seq![], 0) == Seq::<char>::empty());
    }
}

/// One round of the default cipher on a single letter spells its shifted
/// position in full: the result is made of the letters `A` to `J`, has no
/// leading `A` (zero), and read as decimal digits (`A` for 0, ..., `J` for 9)
/// it gives the position of the letter plus the key.
pub proof fn law_encrypt_spells_the_position(c: char, key: i32)
    requires
        is_letter(c),
        0 <= letter_value(c) + key <= i32::MAX,
    ensures
        encryption(seq![c], key, 1) matches Some(s) && {
            &&& s.len() >= 1
            &&& forall|i: int| 0 <= i < s.len() ==> is_letter(#[trigger] s[i]) && letter_value(s[i]) <= 9
            &&& place_value(spelled_digit_values(s), 10) == letter_value(c) + key
            &&& s.len() > 1 ==> s[0] != 'A'
        },
{
    let k = key as int;
    let t = seq![c];
    let p = (letter_value(c) + k) as nat;
    assert(t[0] == c);
    assert(t.skip(1) == Seq::<char>::empty());
    assert(shifts_fit(t, k));
    assert(encrypt_digits(Seq::<char>::empty(), k) == Seq::<char>::empty());
    assert(encrypt_token(c, k) == decimal_nat(p));
    assert(encrypt_digits(t, k) == decimal_nat(p) + Seq::<char>::empty());
    assert(non_letters(Seq::<char>::empty()) == Seq::<char>::empty());
    assert(non_letters(t) == Seq::<char>::empty());
    let m = Seq::<char>::empty() + non_letters(t);
    let d = decimal_nat(p);
    law_decimal_digits_mean_the_number(p);
    lemma_spell_digits_concat(d, Seq::<char>::empty(), m, 0);
    assert(spell(Seq::<char>::empty(), m, 0) == Seq::<char>::empty());
    lemma_spell_digits_letters(d);
    let s = spell(d, seq![], 0);
    assert(spell(encrypt_digits(t, k), m, 0) == s);
    assert(encrypt_round(t, k, seq![]) == Some((s, m)));
    assert(encrypt_rounds(s, k, m, 0) == Some(s));
    assert(rounds_of(1) == 1);
    assert(encryption(t, key, 1) == Some(s));
    assert forall|i: int| 0 <= i < s.len() implies is_letter(#[trigger] s[i]) && letter_value(s[i])
        <= 9 by {
        assert(is_digit(d[i]));
        lemma_digit_range(d[i]);
        lemma_letter_is_letter(d[i] as int - 48);
    }
    assert(spelled_digit_values(s) == decimal_digit_values(d)) by {
        assert forall|i: int| 0 <= i < s.len() implies spelled_digit_values(s)[i]
            == decimal_digit_values(d)[i] by {
            assert(is_digit(d[i]));
            lemma_digit_range(d[i]);
            lemma_letter_is_letter(d[i] as int - 48);
        }
    }
    if s.len() > 1 {
        assert(is_digit(d[0]));
        lemma_digit_range(d[0]);
        lemma_letter_is_letter(d[0] as int - 48);
        assert(letter_value('A') == 0);
    }
}

/// One round of the ASCII cipher on a single character writes the low byte
/// of its code plus the key in full: upper-case hexadecimal digits with no
/// leading zero that, read in base 16, give that sum.
pub proof fn law_ascii_encrypt_writes_the_sum(c: char, key: u32)
    requires
        (c as int) % 256 + key <= u32::MAX,
    ensures
        ascii_encryption(seq![c], key, 1) matches Some(s) && {
            &&& s.len() >= 1
            &&& all_upper_hex(s)
            &&& place_value(hex_digit_values(s), 16) == (c as int) % 256 + key
            &&& s.len() > 1 ==> s[0] != '0'
        },
{
    let t = seq![c];
    let v = (low_byte(c) + key) as nat;
    assert(t[0] == c);
    assert(t.skip(1) == Seq::<char>::empty());
    assert(hex_round(Seq::<char>::empty(), key as nat) == Some(Seq::<char>::empty()));
    assert(hex_nat(v) + Seq::<char>::empty() == hex_nat(v));
    assert(hex_round(t, key as nat) == Some(hex_nat(v)));
    assert(hex_rounds(hex_nat(v), key as nat, 0) == Some(hex_nat(v)));
    assert(rounds_of(1) == 1);
    law_hex_digits_mean_the_number(v);
}

proof fn lemma_digits_place_value(d: Seq<char>)
    requires
        all_digits(d),
    ensures
        place_value(decimal_digit_values(d), 10) >= 0,
        digits_value(d, 10) == Some(place_value(decimal_digit_values(d), 10) as nat),
    decreases d.len(),
{
    if d.len() == 0 {
        assert(decimal_digit_values(d) == Seq::<int>::empty());
    } else {
        let a = d.drop_last();
        let c = d.last();
        assert forall|i: int| 0 <= i < a.len() implies is_digit(#[trigger] a[i]) by {
            assert(a[i] == d[i]);
        }
        lemma_digits_place_value(a);
        assert(is_digit(d[d.len() - 1]));
        lemma_digit_range(c);
        assert(digit_value(c, 10) == Some((c as int - 48) as nat));
        assert(d == a.push(c));
        assert(decimal_digit_values(d) == decimal_digit_values(a).push(c as int - 48));
        lemma_place_value_push(decimal_digit_values(a), c as int - 48, 10);
    }
}

proof fn lemma_trim_unchanged(t: Seq<char>)
    requires
        t.len() > 0,
        !is_whitespace(t[0]),
        !is_whitespace(t.last()),
    ensures
        trim(t) == t,
{
    assert(trim_start(t) == t);
    assert(trim_end(t) == t);
}

proof fn lemma_not_whitespace_digit(c: char)
    requires
        is_digit(c),
    ensures
        !is_whitespace(c),
{
}

/// A key or recursion field that holds the decimal writing of a number
/// (digits `0` to `9`, with an optional sign) is read as that number: the sum
/// of each digit times the power of ten of its place.
pub proof fn law_field_reads_decimal(d: Seq<char>)
    requires
        d.len() >= 1,
        all_digits(d),
    ensures
        place_value(decimal_digit_values(d), 10) <= i32::MAX ==> field_number(d) == place_value(
            decimal_digit_values(d),
            10,
        ) && field_number(seq!['+'] + d) == place_value(decimal_digit_values(d), 10),
        place_value(decimal_digit_values(d), 10) <= 0x8000_0000 ==> field_number(seq!['-'] + d)
            == -place_value(decimal_digit_values(d), 10),
{
    let v = place_value(decimal_digit_values(d), 10);
    lemma_digits_place_value(d);
    assert(is_digit(d[0]));
    assert(is_digit(d[d.len() - 1]));
    lemma_not_whitespace_digit(d[0]);
    lemma_not_whitespace_digit(d.last());
    lemma_trim_unchanged(d);
    let plus = seq!['+'] + d;
    let minus = seq!['-'] + d;
    assert(plus[0] == '+');
    assert(minus[0] == '-');
    assert(plus.last() == d.last());
    assert(minus.last() == d.last());
    lemma_trim_unchanged(plus);
    lemma_trim_unchanged(minus);
    assert(plus.skip(1) == d);
    assert(minus.skip(1) == d);
}

/// Reading a field back gives the number that was written in decimal.
pub proof fn law_field_reads_what_decimal_writes(n: i32)
    ensures
        field_number(decimal(n as int)) == n,
{
    if n < 0 {
        let m = (-(n as int)) as nat;
        law_decimal_digits_mean_the_number(m);
        law_field_reads_decimal(decimal_nat(m));
    } else {
        law_decimal_digits_mean_the_number(n as nat);
        law_field_reads_decimal(decimal_nat(n as nat));
    }
}

// ----------------------------------------------------------------------------
// The form and its requests
// ----------------------------------------------------------------------------

/// The order in which Tab walks the fields of the form, starting anywhere.
pub open spec fn tab_order() -> Seq<InputMode> {
    seq![
        InputMode::Input,
        InputMode::Decider,
        InputMode::Mode,
        InputMode::Key,
        InputMode::Recursion,
        InputMode::Submit,
        InputMode::Save,
        InputMode::RawText,
        InputMode::Load,
    ]
}

/// Tab moves the focus to the next field of `tab_order` (from the last to the
/// first), and Shift-Tab to the one before.
pub proof fn law_tab_walks_the_form(i: int)
    requires
        0 <= i < 9,
    ensures
        next_mode(tab_order()[i], Key::Tab) == tab_order()[(i + 1) % 9],
        next_mode(tab_order()[(i + 1) % 9], Key::BackTab) == tab_order()[i],
{
}

/// Shift-Tab undoes Tab, and Tab undoes Shift-Tab, on every field.
pub proof fn law_backtab_undoes_tab(m: InputMode)
    ensures
        next_mode(next_mode(m, Key::Tab), Key::BackTab) == m,
        next_mode(next_mode(m, Key::BackTab), Key::Tab) == m,
{
}

/// Enter moves the focus as Tab does on the fields before the buttons for
/// saving, showing and loading, and keeps it on those; any key but Tab,
/// Shift-Tab and Enter keeps the focus where it is.
pub proof fn law_enter_and_other_keys(m: InputMode, key: Key)
    ensures
        (m == InputMode::Save || m == InputMode::RawText || m == InputMode::Load) ==> next_mode(
            m,
            Key::Enter,
        ) == m,
        !(m == InputMode::Save || m == InputMode::RawText || m == InputMode::Load) ==> next_mode(
            m,
            Key::Enter,
        ) == next_mode(m, Key::Tab),
        (key != Key::Tab && key != Key::BackTab && key != Key::Enter) ==> next_mode(m, key) == m,
{
}

/// Only Enter on one of the four buttons asks for work: Submit runs the
/// cipher, Save writes the output, Show prints it, Load reads a file.
pub proof fn law_only_enter_on_buttons_asks_for_work(m: InputMode, key: Key)
    ensures
        effect_of(m, key) != Effect::Nothing <==> key == Key::Enter && (m == InputMode::Submit || m
            == InputMode::Save || m == InputMode::RawText || m == InputMode::Load),
        effect_of(InputMode::Submit, Key::Enter) == Effect::Submit,
        effect_of(InputMode::Save, Key::Enter) == Effect::SaveOutput,
        effect_of(InputMode::RawText, Key::Enter) == Effect::ShowOutput,
        effect_of(InputMode::Load, Key::Enter) == Effect::LoadInput,
{
}

/// A request for no rounds gives its text back, whatever the key (for the
/// ASCII cipher, any key that is not negative).
pub proof fn law_request_without_rounds_keeps_text(q: Request)
    requires
        q.recursion <= 0,
        q.cipher == Cipher::Default || q.key >= 0,
    ensures
        outcome(q) == Some(q.text@),
{
    assert(rounds_of(q.recursion) == 0);
}

/// Decrypting with a request for the default cipher gives back the text that
/// a request with the same key and recursion encrypted, whenever every
/// shifted letter position on the way has two digits.
pub proof fn law_decrypt_request_undoes_encrypt_request(e: Request, d: Request)
    requires
        e.cipher == Cipher::Default,
        e.direction == Direction::Encrypt,
        d.cipher == Cipher::Default,
        d.direction == Direction::Decrypt,
        d.key == e.key,
        d.recursion == e.recursion,
        two_digit_chain(e.text@, e.key as int, rounds_of(e.recursion)),
    ensures
        outcome(e) matches Some(c) && (d.text@ == c ==> outcome(d) == Some(e.text@)),
{
    law_decrypt_undoes_encrypt(e.text@, e.key, e.recursion);
}

/// Decrypting with a request for the ASCII cipher gives back the text that a
/// request with the same key and recursion encrypted, whenever every
/// character on the way is a byte whose sum with the key has two hexadecimal
/// digits.
pub proof fn law_ascii_decrypt_request_undoes_ascii_encrypt_request(e: Request, d: Request)
    requires
        e.cipher == Cipher::Ascii,
        e.direction == Direction::Encrypt,
        d.cipher == Cipher::Ascii,
        d.direction == Direction::Decrypt,
        d.key == e.key,
        d.recursion == e.recursion,
        e.key >= 0,
        two_hex_chain(e.text@, e.key as nat, rounds_of(e.recursion)),
    ensures
        outcome(e) matches Some(c) && (d.text@ == c ==> outcome(d) == Some(e.text@)),
{
    assert((e.key as u32) as nat == e.key as nat);
    law_ascii_decrypt_undoes_ascii_encrypt(e.text@, e.key as u32, e.recursion);
}

/// The mode field picks the cipher and the decider field the direction: a
/// form whose trimmed, lower-cased mode is `default` or `ascii` and whose
/// decider is `encrypt` or `decrypt` asks for that cipher in that direction,
/// and any other word in either field asks for nothing.
pub proof fn law_fields_pick_cipher_and_direction(f: Form)
    ensures
        ({
            let m = lowercase(trim(f.mode@));
            let d = lowercase(trim(f.decider@));
            let default = seq!['d', 'e', 'f', 'a', 'u', 'l', 't'];
            let ascii = seq!['a', 's', 'c', 'i', 'i'];
            let enc = seq!['e', 'n', 'c', 'r', 'y', 'p', 't'];
            let dec = seq!['d', 'e', 'c', 'r', 'y', 'p', 't'];
            &&& (m == default && d == enc) ==> requested(f) == Some((Cipher::Default, Direction::Encrypt))
            &&& (m == default && d == dec) ==> requested(f) == Some((Cipher::Default, Direction::Decrypt))
            &&& (m == ascii && d == enc) ==> requested(f) == Some((Cipher::Ascii, Direction::Encrypt))
            &&& (m == ascii && d == dec) ==> requested(f) == Some((Cipher::Ascii, Direction::Decrypt))
            &&& (m != default && m != ascii) ==> requested(f) is None
            &&& (d != enc && d != dec) ==> requested(f) is None
        }),
{
    let default = seq!['d', 'e', 'f', 'a', 'u', 'l', 't'];
    let ascii = seq!['a', 's', 'c', 'i', 'i'];
    let enc = seq!['e', 'n', 'c', 'r', 'y', 'p', 't'];
    let dec = seq!['d', 'e', 'c', 'r', 'y', 'p', 't'];
    assert(default != ascii) by {
        assert(default.len() != ascii.len());
    }
    assert(enc != dec) by {
        assert(enc[0] != dec[0]);
    }
}

proof fn lemma_byte_len_take_step(s: Seq<char>, i: int)
    requires
        0 <= i < s.len(),
    ensures
        byte_len(s.take(i + 1)) == byte_len(s.take(i)) + utf8_width(s[i]),
{
    lemma_byte_len_split(s.take(i + 1), i);
    assert(s.take(i + 1).take(i) == s.take(i));
    assert(s.take(i + 1).skip(i) == seq![s[i]]);
    assert(seq![s[i]].skip(1) == Seq::<char>::empty());
    assert(byte_len(seq![s[i]]) == utf8_width(s[i]) + byte_len(Seq::<char>::empty()));
}

proof fn lemma_width_positive(c: char)
    ensures
        1 <= utf8_width(c) <= 4,
{
}

/// The cursor of a text sits at a byte offset; character `i` starts at the
/// offset that the characters before it take up, and the character that
/// starts at an offset is found again there.
pub proof fn law_cursor_offsets(s: Seq<char>, i: int, b: int)
    requires
        0 <= i <= s.len(),
    ensures
        boundary_index(s, byte_len(s.take(i)) as int) == Some(i as nat),
        boundary_index(s, b) matches Some(k) ==> k <= s.len() && byte_len(s.take(k as int)) == b,
    decreases s.len(),
{
    if i == 0 {
        assert(s.take(0) == Seq::<char>::empty());
    } else {
        lemma_width_positive(s[0]);
        lemma_byte_len_split(s.take(i), 1);
        assert(s.take(i).take(1) == seq![s[0]]);
        assert(s.take(i).skip(1) == s.skip(1).take(i - 1));
        assert(seq![s[0]].skip(1) == Seq::<char>::empty());
        assert(byte_len(seq![s[0]]) == utf8_width(s[0]) + byte_len(Seq::<char>::empty()));
        law_cursor_offsets(s.skip(1), i - 1, 0);
    }
    if b != 0 && b >= 0 && s.len() > 0 {
        law_cursor_offsets(s.skip(1), 0, b - utf8_width(s[0]));
        match boundary_index(s.skip(1), b - utf8_width(s[0])) {
            Some(k) => {
                lemma_byte_len_split(s.take((k + 1) as int), 1);
                assert(s.take((k + 1) as int).take(1) == seq![s[0]]);
                assert(s.take((k + 1) as int).skip(1) == s.skip(1).take(k as int));
                assert(seq![s[0]].skip(1) == Seq::<char>::empty());
                assert(byte_len(seq![s[0]]) == utf8_width(s[0]) + byte_len(Seq::<char>::empty()));
            },
            None => {},
        }
    } else if b == 0 {
        assert(s.take(0) == Seq::<char>::empty());
    }
}

/// Typing `c` with the cursor at the start of character `i` puts `c` just
/// before that character, and the text grows by the bytes of `c`.
pub proof fn law_typing_inserts_at_the_cursor(s: Seq<char>, i: int, c: char)
    requires
        0 <= i <= s.len(),
    ensures
        edit_allowed(Key::Char(c), byte_len(s.take(i)) as int, s),
        edited(Key::Char(c), byte_len(s.take(i)) as int, s) == s.take(i) + seq![c] + s.skip(i),
        byte_len(edited(Key::Char(c), byte_len(s.take(i)) as int, s)) == byte_len(s) + utf8_width(c),
{
    law_cursor_offsets(s, i, 0);
    let r = s.take(i) + seq![c] + s.skip(i);
    lemma_byte_len_split(s, i);
    lemma_byte_len_split(r, i);
    assert(r.take(i) == s.take(i));
    assert(r.skip(i) == seq![c] + s.skip(i));
    assert((seq![c] + s.skip(i)).skip(1) == s.skip(i));
    assert((seq![c] + s.skip(i))[0] == c);
}

/// Backspace with the cursor just after a one-byte character removes that
/// character.
pub proof fn law_backspace_removes_before_the_cursor(s: Seq<char>, i: int)
    requires
        0 <= i < s.len(),
        utf8_width(s[i]) == 1,
    ensures
        edit_allowed(Key::Backspace, byte_len(s.take(i + 1)) as int, s),
        edited(Key::Backspace, byte_len(s.take(i + 1)) as int, s) == s.take(i) + s.skip(i + 1),
{
    lemma_byte_len_take_step(s, i);
    law_cursor_offsets(s, i, 0);
}

/// Backspace after typing a one-byte character gives the text back.
pub proof fn law_backspace_undoes_typing(s: Seq<char>, i: int, c: char)
    requires
        0 <= i <= s.len(),
        utf8_width(c) == 1,
    ensures
        edited(
            Key::Backspace,
            (byte_len(s.take(i)) + 1) as int,
            edited(Key::Char(c), byte_len(s.take(i)) as int, s),
        ) == s,
{
    law_typing_inserts_at_the_cursor(s, i, c);
    let r = s.take(i) + seq![c] + s.skip(i);
    assert(r[i] == c);
    assert(r.take(i + 1) == s.take(i).push(c));
    assert(r.take(i) == s.take(i));
    lemma_byte_len_take_step(r, i);
    law_backspace_removes_before_the_cursor(r, i);
    assert(r.skip(i + 1) == s.skip(i));
    assert(s.take(i) + s.skip(i) == s);
}

/// The cursor bar goes just before character `i` when the cursor is at its
/// start.
pub proof fn law_cursor_bar_marks_the_cursor(s: Seq<char>, i: int)
    requires
        0 <= i <= s.len(),
    ensures
        marked(s, byte_len(s.take(i)) as int) == s.take(i) + seq!['|'] + s.skip(i),
{
    law_cursor_offsets(s, i, 0);
}

/// A short field with the focus takes a typed character at its end, and
/// loses its last character to Backspace when that character is one byte.
pub proof fn law_short_field_edits_at_its_end(f: Form, which: InputMode, t: Seq<char>, c: char)
    requires
        f.selection == which,
    ensures
        field_after(f, which, t, Key::Char(c)) == t.push(c),
        t.len() > 0 && utf8_width(t.last()) == 1 ==> field_after(f, which, t, Key::Backspace)
            == t.drop_last(),
{
    assert(t.take(t.len() as int) == t);
    law_typing_inserts_at_the_cursor(t, t.len() as int, c);
    assert(t.skip(t.len() as int) == Seq::<char>::empty());
    if t.len() > 0 && utf8_width(t.last()) == 1 {
        law_backspace_removes_before_the_cursor(t, t.len() - 1);
        assert(t.take(t.len() - 1 + 1) == t);
        assert(t.skip(t.len() as int) == Seq::<char>::empty());
    }
}

/// In the input field Left moves the cursor one byte back and Right one byte
/// on, each within the text, so Right undoes Left; a typed character moves it
/// one byte on and Backspace one byte back.
pub proof fn law_left_and_right_in_the_input(f: Form)
    requires
        f.selection == InputMode::Input,
        f.cursor <= byte_len(f.input_text@),
    ensures
        f.cursor > 0 ==> cursor_after(f, Key::Left) == f.cursor - 1,
        f.cursor == 0 ==> cursor_after(f, Key::Left) == 0,
        f.cursor < byte_len(f.input_text@) ==> cursor_after(f, Key::Right) == f.cursor + 1,
        f.cursor == byte_len(f.input_text@) ==> cursor_after(f, Key::Right) == f.cursor,
        forall|c: char| #[trigger] cursor_after(f, Key::Char(c)) == f.cursor + 1,
        f.cursor > 0 ==> cursor_after(f, Key::Backspace) == f.cursor - 1,
        f.cursor > 0 ==> cursor_after(
            Form { cursor: (f.cursor - 1) as usize, ..f },
            Key::Right,
        ) == f.cursor,
{
}

/// On a box of ordinary size, with the cursor at an ordinary offset, the
/// input scrolls by the line of the cursor less the lines that fit, or not at
/// all.
pub proof fn law_scroll_on_an_ordinary_box(cursor: int, width: int, height: int)
    requires
        0 <= cursor <= 32767,
        3 <= width <= 32767,
        4 <= height <= 32767,
    ensures
        input_scroll_spec(cursor, width, height) == Some(
            if cursor / (width - 2) > height - 4 {
                cursor / (width - 2) - (height - 4)
            } else {
                0
            },
        ),
{
    assert(cursor % 65536 == cursor);
    assert(width % 65536 == width);
    assert(height % 65536 == height);
    assert(cursor / (width - 2) <= cursor) by (nonlinear_arith)
        requires
            0 <= cursor,
            width - 2 >= 1,
    ;
}

proof fn lemma_trim_start_skips(s: Seq<char>) -> (a: int)
    ensures
        0 <= a <= s.len(),
        trim_start(s) == s.skip(a),
        forall|i: int| 0 <= i < a ==> is_whitespace(#[trigger] s[i]),
        a < s.len() ==> !is_whitespace(s[a]),
    decreases s.len(),
{
    if s.len() > 0 && is_whitespace(s[0]) {
        let a1 = lemma_trim_start_skips(s.skip(1));
        assert(s.skip(1).skip(a1) == s.skip(a1 + 1));
        assert forall|i: int| 0 <= i < a1 + 1 implies is_whitespace(#[trigger] s[i]) by {
            if i > 0 {
                assert(s[i] == s.skip(1)[i - 1]);
            }
        }
        if a1 + 1 < s.len() {
            assert(s[a1 + 1] == s.skip(1)[a1]);
        }
        a1 + 1
    } else {
        assert(s.skip(0) == s);
        0
    }
}

proof fn lemma_trim_end_takes(s: Seq<char>) -> (b: int)
    ensures
        0 <= b <= s.len(),
        trim_end(s) == s.take(b),
        forall|i: int| b <= i < s.len() ==> is_whitespace(#[trigger] s[i]),
        b > 0 ==> !is_whitespace(s[b - 1]),
    decreases s.len(),
{
    if s.len() > 0 && is_whitespace(s.last()) {
        let b1 = lemma_trim_end_takes(s.drop_last());
        assert(s.drop_last().take(b1) == s.take(b1));
        assert forall|i: int| b1 <= i < s.len() implies is_whitespace(#[trigger] s[i]) by {
            if i < s.len() - 1 {
                assert(s[i] == s.drop_last()[i]);
            }
        }
        if b1 > 0 {
            assert(s[b1 - 1] == s.drop_last()[b1 - 1]);
        }
        b1
    } else {
        assert(s.take(s.len() as int) == s);
        s.len() as int
    }
}

/// Trimming removes exactly the white space at both ends of a text: what
/// is left is a middle part of the text that neither starts nor ends with
/// white space, and all that goes before and after it is white space.
pub proof fn law_trim_strips_white_space(s: Seq<char>) -> (r: (int, int))
    ensures
        0 <= r.0 <= r.1 <= s.len(),
        trim(s) == s.subrange(r.0, r.1),
        forall|i: int| 0 <= i < r.0 ==> is_whitespace(#[trigger] s[i]),
        forall|i: int| r.1 <= i < s.len() ==> is_whitespace(#[trigger] s[i]),
        r.0 < r.1 ==> !is_whitespace(s[r.0]) && !is_whitespace(s[r.1 - 1]),
{
    let a = lemma_trim_start_skips(s);
    let t = s.skip(a);
    let b = lemma_trim_end_takes(t);
    assert(t.take(b) == s.subrange(a, a + b));
    assert forall|i: int| a + b <= i < s.len() implies is_whitespace(#[trigger] s[i]) by {
        assert(s[i] == t[i - a]);
    }
    if b > 0 {
        assert(s[a + b - 1] == t[b - 1]);
        assert(s[a] == t[0]);
    }
    (a, a + b)
}

/// The key that ASCII decryption subtracts is the key reinterpreted as an
/// `i32`: a value of `i32` that differs from the key by a multiple of 2^32.
pub proof fn law_key_wraps_to_i32(key: u32)
    ensures
        i32::MIN <= key_as_i32(key) <= i32::MAX,
        (key as int - key_as_i32(key)) % 0x1_0000_0000 == 0,
{
}

/// The byte length that the cursor works with is the length of the UTF-8
/// encoding of the text.
pub proof fn law_byte_len_is_utf8_length(s: Seq<char>)
    ensures
        byte_len(s) == vstd::utf8::encode_utf8(s).len(),
    decreases s.len(),
{
    if s.len() > 0 {
        law_byte_len_is_utf8_length(s.skip(1));
        assert(s.drop_first() == s.skip(1));
        lemma_width_is_encoding_length(s[0]);
    }
}

proof fn lemma_width_is_encoding_length(c: char)
    ensures
        utf8_width(c) == vstd::utf8::encode_scalar(c as u32).len(),
{
    vstd::utf8::char_is_scalar(c);
}

proof fn lemma_digits_value_needs_digits(d: Seq<char>, i: int)
    requires
        0 <= i < d.len(),
        !is_digit(d[i]),
    ensures
        digits_value(d, 10) is None,
    decreases d.len(),
{
    if i < d.len() - 1 {
        assert(d.drop_last()[i] == d[i]);
        lemma_digits_value_needs_digits(d.drop_last(), i);
    } else {
        assert(d.last() == d[i]);
        assert(digit_value(d.last(), 10) is None) by {
            lemma_not_digit_value(d.last());
        }
    }
}

proof fn lemma_not_digit_value(c: char)
    requires
        !is_digit(c),
    ensures
        digit_value(c, 10) is None,
{
}

/// A key or recursion field with no decimal digit in it reads as 0.
pub proof fn law_field_without_digits_reads_zero(t: Seq<char>)
    requires
        forall|i: int| 0 <= i < t.len() ==> !is_digit(#[trigger] t[i]),
    ensures
        field_number(t) == 0,
{
    let r = law_trim_strips_white_space(t);
    let u = trim(t);
    if u.len() > 0 {
        let body = if u[0] == '-' || u[0] == '+' {
            u.skip(1)
        } else {
            u
        };
        if body.len() > 0 {
            assert(body[0] == t[r.0 + (if u[0] == '-' || u[0] == '+' { 1int } else { 0int })]);
            lemma_digits_value_needs_digits(body, 0);
        }
    }
}

} // verus!
