//! The two ciphers and their inverses.
//!
//! The default cipher writes the alphabet position of each upper-case letter,
//! shifted by the key, in decimal, and then spells each decimal digit as a
//! letter (`0` as `A`, ..., `9` as `J`). Every other character, and every
//! minus sign of a negative number, takes the next character from a list of
//! the non-letters seen so far. The ASCII cipher writes the low byte of each
//! character, shifted by the key, in upper-case hexadecimal. Each cipher is
//! applied `recursion` times.
use vstd::prelude::*;
use crate::chars::{
    char_from_u32, chars_of, code_of, is_digit, is_letter, is_letter_exec, is_scalar, letter, letter_exec,
    letter_value, string_of, utf8_width, utf8_width_exec,
};
use crate::numeric::{
    decimal, decimal_nat, hex_nat, parse_i32, parse_int, push_decimal, push_decimal_nat, push_hex,
    trim, trim_chars,
};

verus! {

/// `x` followed by the sequence in `o`, or `None` when `o` is `None`.
pub open spec fn prepend<T>(x: Seq<T>, o: Option<Seq<T>>) -> Option<Seq<T>> {
    match o {
        Some(r) => Some(x + r),
        None => None,
    }
}

/// The number of rounds that a `recursion` argument asks for.
pub open spec fn rounds_of(recursion: i32) -> nat {
    if recursion > 0 {
        recursion as nat
    } else {
        0
    }
}

/// The characters of `s` that are not upper-case letters, in order.
pub open spec fn non_letters(s: Seq<char>) -> Seq<char>
    decreases s.len(),
{
    if s.len() == 0 {
        seq![]
    } else if is_letter(s[0]) {
        non_letters(s.skip(1))
    } else {
        seq![s[0]] + non_letters(s.skip(1))
    }
}

// ----------------------------------------------------------------------------
// The default cipher
// ----------------------------------------------------------------------------

/// What one character of the plain text becomes before it is spelled: the
/// shifted position of a letter in decimal, and `-` for any other character.
pub open spec fn encrypt_token(c: char, key: int) -> Seq<char> {
    if is_letter(c) {
        decimal(letter_value(c) + key)
    } else {
        seq!['-']
    }
}

/// The tokens of all characters of `s`, one after the other.
pub open spec fn encrypt_digits(s: Seq<char>, key: int) -> Seq<char>
    decreases s.len(),
{
    if s.len() == 0 {
        seq![]
    } else {
        encrypt_token(s[0], key) + encrypt_digits(s.skip(1), key)
    }
}

/// Spells a run of digits and minus signs: a digit `d` becomes the letter at
/// position `d`, and the `n`-th minus sign (counting from `used`) becomes
/// `marks[n]`, or `?` once `marks` runs out. Any other character ends it.
pub open spec fn spell(d: Seq<char>, marks: Seq<char>, used: nat) -> Seq<char>
    decreases d.len(),
{
    if d.len() == 0 {
        seq![]
    } else if d[0] == '-' {
        seq![
            if used < marks.len() {
                marks[used as int]
            } else {
                '?'
            },
        ] + spell(d.skip(1), marks, used + 1)
    } else if is_digit(d[0]) {
        seq![letter(d[0] as int - 48)] + spell(d.skip(1), marks, used)
    } else {
        seq![]
    }
}

/// No letter of `s`, shifted by `key`, leaves the range of `i32`.
pub open spec fn shifts_fit(s: Seq<char>, key: int) -> bool {
    forall|i: int| 0 <= i < s.len() && is_letter(#[trigger] s[i]) ==> letter_value(s[i]) + key <= i32::MAX
}

/// One round of the default cipher on `s`, given the non-letters of earlier
/// rounds: the new text and the grown list of non-letters, or `None` where a
/// shifted position overflows `i32`.
pub open spec fn encrypt_round(s: Seq<char>, key: int, marks: Seq<char>) -> Option<(Seq<char>, Seq<char>)> {
    if !shifts_fit(s, key) {
        None
    } else {
        let m = marks + non_letters(s);
        Some((spell(encrypt_digits(s, key), m, 0), m))
    }
}

/// `n` rounds of the default cipher.
pub open spec fn encrypt_rounds(s: Seq<char>, key: int, marks: Seq<char>, n: nat) -> Option<Seq<char>>
    decreases n,
{
    if n == 0 {
        Some(s)
    } else {
        match encrypt_round(s, key, marks) {
            None => None,
            Some((o, m)) => encrypt_rounds(o, key, m, (n - 1) as nat),
        }
    }
}

/// The result of `encrypt(text, key, recursion)`, or `None` where it overflows.
pub open spec fn encryption(text: Seq<char>, key: i32, recursion: i32) -> Option<Seq<char>> {
    encrypt_rounds(text, key as int, seq![], rounds_of(recursion))
}

/// What one character of the cipher text becomes before the pairs are read:
/// the position of a letter in decimal (one or two digits), and `-1` for any
/// other character.
pub open spec fn decrypt_token(c: char) -> Seq<char> {
    if is_letter(c) {
        decimal_nat(letter_value(c) as nat)
    } else {
        seq!['-', '1']
    }
}

/// The tokens of all characters of `s`, one after the other.
pub open spec fn decrypt_digits(s: Seq<char>) -> Seq<char>
    decreases s.len(),
{
    if s.len() == 0 {
        seq![]
    } else {
        decrypt_token(s[0]) + decrypt_digits(s.skip(1))
    }
}

/// Reads `d` two characters at a time. A pair that reads as a number and does
/// not start with `-` becomes the letter at that number minus `key`; one that
/// starts with `-` becomes the next of `marks` (counting from `used`). Reading
/// stops at a pair that is no number, at a letter position of 26 or more, when
/// `marks` runs out, and before a lone last character. `None` where the
/// subtraction overflows `i32` or gives a negative position.
pub open spec fn read_pairs(d: Seq<char>, key: int, marks: Seq<char>, used: nat) -> Option<Seq<char>>
    decreases d.len(),
{
    if d.len() < 2 {
        Some(seq![])
    } else {
        match parse_int(seq![d[0], d[1]], 10) {
            None => Some(seq![]),
            Some(num) => {
                if d[0] != '-' {
                    let v = num - key;
                    if v > i32::MAX || v < 0 {
                        None
                    } else if v >= 26 {
                        Some(seq![])
                    } else {
                        prepend(seq![letter(v)], read_pairs(d.skip(2), key, marks, used))
                    }
                } else if used < marks.len() {
                    prepend(seq![marks[used as int]], read_pairs(d.skip(2), key, marks, used + 1))
                } else {
                    Some(seq![])
                }
            },
        }
    }
}

/// One round of the default decipher on `s`, given the non-letters of earlier
/// rounds: the new text and the grown list, or `None` where it aborts (the
/// digits are longer than `i32::MAX`, or a pair cannot be subtracted from).
pub open spec fn decrypt_round(s: Seq<char>, key: int, marks: Seq<char>) -> Option<(Seq<char>, Seq<char>)> {
    let m = marks + non_letters(s);
    let d = decrypt_digits(s);
    if d.len() > i32::MAX {
        None
    } else {
        match read_pairs(d, key, m, 0) {
            None => None,
            Some(o) => Some((o, m)),
        }
    }
}

/// `n` rounds of the default decipher.
pub open spec fn decrypt_rounds(s: Seq<char>, key: int, marks: Seq<char>, n: nat) -> Option<Seq<char>>
    decreases n,
{
    if n == 0 {
        Some(s)
    } else {
        match decrypt_round(s, key, marks) {
            None => None,
            Some((o, m)) => decrypt_rounds(o, key, m, (n - 1) as nat),
        }
    }
}

/// The result of `decrypt(text, key, recursion)`, or `None` where it aborts.
pub open spec fn decryption(text: Seq<char>, key: i32, recursion: i32) -> Option<Seq<char>> {
    decrypt_rounds(text, key as int, seq![], rounds_of(recursion))
}

// ----------------------------------------------------------------------------
// The ASCII cipher
// ----------------------------------------------------------------------------

/// The lowest byte of the code of `c`.
pub open spec fn low_byte(c: char) -> nat {
    (c as nat) % 256
}

/// One round of the ASCII cipher: each character's low byte plus `key`, in
/// upper-case hexadecimal, or `None` where a sum overflows `u32`.
pub open spec fn hex_round(s: Seq<char>, key: nat) -> Option<Seq<char>>
    decreases s.len(),
{
    if s.len() == 0 {
        Some(seq![])
    } else if low_byte(s[0]) + key > u32::MAX {
        None
    } else {
        prepend(hex_nat(low_byte(s[0]) + key), hex_round(s.skip(1), key))
    }
}

/// `n` rounds of the ASCII cipher.
pub open spec fn hex_rounds(s: Seq<char>, key: nat, n: nat) -> Option<Seq<char>>
    decreases n,
{
    if n == 0 {
        Some(s)
    } else {
        match hex_round(s, key) {
            None => None,
            Some(o) => hex_rounds(o, key, (n - 1) as nat),
        }
    }
}

/// The result of `ascii_encrypt(text, key, recursion)`, or `None` where it overflows.
pub open spec fn ascii_encryption(text: Seq<char>, key: u32, recursion: i32) -> Option<Seq<char>> {
    hex_rounds(text, key as nat, rounds_of(recursion))
}

/// `s` cuts into pieces of two UTF-8 bytes each, on character boundaries:
/// a piece is one two-byte character or two one-byte characters.
pub open spec fn splits_in_byte_pairs(s: Seq<char>) -> bool
    decreases s.len(),
{
    if s.len() == 0 {
        true
    } else if utf8_width(s[0]) == 2 {
        splits_in_byte_pairs(s.skip(1))
    } else if utf8_width(s[0]) == 1 && s.len() >= 2 && utf8_width(s[1]) == 1 {
        splits_in_byte_pairs(s.skip(2))
    } else {
        false
    }
}

/// The number of characters in the first two-byte piece of `s`.
pub open spec fn first_piece_len(s: Seq<char>) -> nat {
    if utf8_width(s[0]) == 2 {
        1
    } else {
        2
    }
}

/// The key as `i32`, as `key as i32` wraps it.
pub open spec fn key_as_i32(key: u32) -> int {
    if key <= i32::MAX {
        key as int
    } else {
        key as int - 0x1_0000_0000
    }
}

/// Reads the pieces of `s` as trimmed hexadecimal numbers, each less `shift`,
/// up to the first piece that is no number; `None` where a subtraction
/// overflows `i32`.
pub open spec fn piece_values(s: Seq<char>, shift: int) -> Option<Seq<i32>>
    decreases s.len(),
{
    if s.len() == 0 {
        Some(seq![])
    } else {
        let len = if s.len() < first_piece_len(s) {
            s.len()
        } else {
            first_piece_len(s)
        };
        match parse_int(trim(s.take(len as int)), 16) {
            None => Some(seq![]),
            Some(n) => {
                let v = n - shift;
                if v < i32::MIN || v > i32::MAX {
                    None
                } else {
                    prepend(seq![v as i32], piece_values(s.skip(len as int), shift))
                }
            },
        }
    }
}

/// The characters with the codes in `v`, up to the first number that is no
/// character code; `None` where a negative number comes before that.
pub open spec fn decode_values(v: Seq<i32>) -> Option<Seq<char>>
    decreases v.len(),
{
    if v.len() == 0 {
        Some(seq![])
    } else if v[0] < 0 {
        None
    } else if !is_scalar(v[0] as int) {
        Some(seq![])
    } else {
        prepend(seq![v[0] as char], decode_values(v.skip(1)))
    }
}

/// One round of the ASCII decipher, or `None` where it aborts.
pub open spec fn unhex_round(s: Seq<char>, key: u32) -> Option<Seq<char>> {
    if !splits_in_byte_pairs(s) {
        None
    } else {
        match piece_values(s, key_as_i32(key)) {
            None => None,
            Some(v) => decode_values(v),
        }
    }
}

/// `n` rounds of the ASCII decipher.
pub open spec fn unhex_rounds(s: Seq<char>, key: u32, n: nat) -> Option<Seq<char>>
    decreases n,
{
    if n == 0 {
        Some(s)
    } else {
        match unhex_round(s, key) {
            None => None,
            Some(o) => unhex_rounds(o, key, (n - 1) as nat),
        }
    }
}

/// The result of `ascii_decrypt(text, key, recursion)`, or `None` where it aborts.
pub open spec fn ascii_decryption(text: Seq<char>, key: u32, recursion: i32) -> Option<Seq<char>> {
    unhex_rounds(text, key, rounds_of(recursion))
}

// ----------------------------------------------------------------------------
// Rounds
// ----------------------------------------------------------------------------

fn encrypt_round_exec(s: &Vec<char>, key: i32, marks: &mut Vec<char>) -> (r: Option<Vec<char>>)
    ensures
        match encrypt_round(s@, key as int, old(marks)@) {
            None => r is None,
            Some((o, m)) => r matches Some(v) && v@ == o && final(marks)@ == m,
        },
{
    let n = s.len();
    let ghost m0 = marks@;
    let mut digits: Vec<char> = Vec::new();
    let mut i: usize = 0;
    assert(s@.skip(0) == s@);
    while i < n
        invariant
            i <= n,
            n == s@.len(),
            digits@ + encrypt_digits(s@.skip(i as int), key as int) == encrypt_digits(s@, key as int),
            marks@ + non_letters(s@.skip(i as int)) == m0 + non_letters(s@),
            forall|j: int| 0 <= j < i && is_letter(#[trigger] s@[j]) ==> letter_value(s@[j]) + key <= i32::MAX,
        decreases n - i,
    {
        let c = s[i];
        let ghost rest = s@.skip(i as int);
        assert(rest[0] == c);
        assert(rest.skip(1) == s@.skip(i + 1));
        if is_letter_exec(c) {
            let w = code_of(c);
            let v: i32 = (w - 65) as i32;
            assert(v == letter_value(c));
            assert(encrypt_digits(rest, key as int) == encrypt_token(c, key as int)
                + encrypt_digits(rest.skip(1), key as int));
            match v.checked_add(key) {
                None => {
                    assert(s@[i as int] == c);
                    assert(!shifts_fit(s@, key as int));
                    return None;
                },
                Some(w) => {
                    let ghost before = digits@;
                    push_decimal(&mut digits, w);
                    assert(encrypt_token(c, key as int) == decimal(w as int));
                    assert(digits@ + encrypt_digits(s@.skip(i + 1), key as int) == before
                        + encrypt_digits(rest, key as int));
                },
            }
        } else {
            let ghost before = digits@;
            let ghost mb = marks@;
            assert(encrypt_digits(rest, key as int) == encrypt_token(c, key as int)
                + encrypt_digits(rest.skip(1), key as int));
            assert(non_letters(rest) == seq![c] + non_letters(rest.skip(1)));
            digits.push('-');
            marks.push(c);
            assert(digits@ + encrypt_digits(s@.skip(i + 1), key as int) == before + encrypt_digits(
                rest,
                key as int,
            ));
            assert(marks@ + non_letters(s@.skip(i + 1)) == mb + non_letters(rest));
        }
        i = i + 1;
    }
    assert(s@.skip(n as int).len() == 0);
    assert(digits@ == encrypt_digits(s@, key as int));
    assert(marks@ == m0 + non_letters(s@));
    assert(shifts_fit(s@, key as int));
    let mut out: Vec<char> = Vec::new();
    let mut used: usize = 0;
    let mut j: usize = 0;
    let dn = digits.len();
    assert(digits@.skip(0) == digits@);
    while j < dn
        invariant
            j <= dn,
            dn == digits@.len(),
            used <= j,
            m0 == old(marks)@,
            marks@ == m0 + non_letters(s@),
            digits@ == encrypt_digits(s@, key as int),
            shifts_fit(s@, key as int),
            out@ + spell(digits@.skip(j as int), marks@, used as nat) == spell(digits@, marks@, 0),
        decreases dn - j,
    {
        let c = digits[j];
        let ghost rest = digits@.skip(j as int);
        assert(rest[0] == c);
        assert(rest.skip(1) == digits@.skip(j + 1));
        let ghost before = out@;
        let ghost used0 = used;
        if c == '-' {
            if used < marks.len() {
                out.push(marks[used]);
            } else {
                out.push('?');
            }
            used = used + 1;
        } else if 48 <= code_of(c) && code_of(c) <= 57 {
            let w = code_of(c);
            let x = letter_exec(w - 48);
            assert(x == letter(c as int - 48));
            out.push(x);
        } else {
            assert(spell(rest, marks@, used as nat) == Seq::<char>::empty());
            assert(out@ == spell(digits@, marks@, 0));
            return Some(out);
        }
        assert(out@ + spell(digits@.skip(j + 1), marks@, used as nat) == before + spell(
            rest,
            marks@,
            used0 as nat,
        ));
        j = j + 1;
    }
    assert(digits@.skip(dn as int).len() == 0);
    Some(out)
}

fn decrypt_round_exec(s: &Vec<char>, key: i32, marks: &mut Vec<char>) -> (r: Option<Vec<char>>)
    ensures
        match decrypt_round(s@, key as int, old(marks)@) {
            None => r is None,
            Some((o, m)) => r matches Some(v) && v@ == o && final(marks)@ == m,
        },
{
    let n = s.len();
    let ghost m0 = marks@;
    let mut digits: Vec<char> = Vec::new();
    let mut i: usize = 0;
    assert(s@.skip(0) == s@);
    while i < n
        invariant
            i <= n,
            n == s@.len(),
            digits@ + decrypt_digits(s@.skip(i as int)) == decrypt_digits(s@),
            marks@ + non_letters(s@.skip(i as int)) == m0 + non_letters(s@),
        decreases n - i,
    {
        let c = s[i];
        let ghost rest = s@.skip(i as int);
        assert(rest[0] == c);
        assert(rest.skip(1) == s@.skip(i + 1));
        assert(decrypt_digits(rest) == decrypt_token(c) + decrypt_digits(rest.skip(1)));
        let ghost before = digits@;
        let ghost mb = marks@;
        if is_letter_exec(c) {
            push_decimal_nat(&mut digits, code_of(c) - 65);
            assert(marks@ + non_letters(s@.skip(i + 1)) == mb + non_letters(rest));
        } else {
            assert(non_letters(rest) == seq![c] + non_letters(rest.skip(1)));
            marks.push(c);
            digits.push('-');
            digits.push('1');
            assert(marks@ + non_letters(s@.skip(i + 1)) == mb + non_letters(rest));
        }
        assert(digits@ + decrypt_digits(s@.skip(i + 1)) == before + decrypt_digits(rest));
        i = i + 1;
    }
    assert(s@.skip(n as int).len() == 0);
    assert(digits@ == decrypt_digits(s@));
    assert(marks@ == m0 + non_letters(s@));
    let dn = digits.len();
    if dn > 0x7fff_ffff {
        return None;
    }
    let mut out: Vec<char> = Vec::new();
    let mut used: usize = 0;
    let mut j: usize = 0;
    assert(digits@.skip(0) == digits@);
    while j < dn
        invariant
            j <= dn,
            dn == digits@.len(),
            dn <= 0x7fff_ffff,
            used <= j,
            m0 == old(marks)@,
            marks@ == m0 + non_letters(s@),
            digits@ == decrypt_digits(s@),
            read_pairs(digits@, key as int, marks@, 0) == prepend(
                out@,
                read_pairs(digits@.skip(j as int), key as int, marks@, used as nat),
            ),
        decreases dn - j,
    {
        let ghost rest = digits@.skip(j as int);
        if j + 2 > dn {
            assert(read_pairs(rest, key as int, marks@, used as nat) == Some(Seq::<char>::empty()));
            assert(out@ + Seq::<char>::empty() == out@);
            return Some(out);
        }
        let a = digits[j];
        let b = digits[j + 1];
        assert(rest[0] == a && rest[1] == b);
        assert(rest.skip(2) == digits@.skip(j + 2));
        let pair = vec![a, b];
        assert(pair@ == seq![a, b]);
        let ghost before = out@;
        match parse_i32(pair.as_slice(), 10) {
            None => {
                assert(out@ + Seq::<char>::empty() == out@);
                return Some(out);
            },
            Some(num) => {
                if a != '-' {
                    let v: i64 = num as i64 - key as i64;
                    if v > 0x7fff_ffff || v < 0 {
                        return None;
                    }
                    if v >= 26 {
                        assert(out@ + Seq::<char>::empty() == out@);
                        return Some(out);
                    }
                    out.push(letter_exec(v as u32));
                    assert(out@ == before + seq![letter(v as int)]);
                } else {
                    if used < marks.len() {
                        out.push(marks[used]);
                        assert(out@ == before + seq![marks@[used as int]]);
                        used = used + 1;
                    } else {
                        assert(out@ + Seq::<char>::empty() == out@);
                        return Some(out);
                    }
                }
            },
        }
        proof {
            let tail = read_pairs(digits@.skip(j + 2), key as int, marks@, used as nat);
            match tail {
                Some(t) => {
                    assert(before + (out@.subrange(before.len() as int, out@.len() as int)) + t == out@ + t);
                },
                None => {},
            }
        }
        j = j + 2;
    }
    assert(digits@.skip(j as int).len() == 0);
    assert(out@ + Seq::<char>::empty() == out@);
    Some(out)
}

/// The default cipher, or `None` exactly where `encrypt` overflows.
pub fn encrypt_checked(text: &String, addition_key: i32, recursion: i32) -> (r: Option<String>)
    ensures
        r matches Some(s) ==> encryption(text@, addition_key, recursion) == Some(s@),
        r is None ==> encryption(text@, addition_key, recursion) is None,
{
    let mut cur: Vec<char> = chars_of(text);
    let mut marks: Vec<char> = Vec::new();
    let ghost total = rounds_of(recursion);
    let mut i: i32 = 0;
    while i < recursion
        invariant
            0 <= i,
            i <= total,
            total == rounds_of(recursion),
            encryption(text@, addition_key, recursion) == encrypt_rounds(
                cur@,
                addition_key as int,
                marks@,
                (total - i) as nat,
            ),
        decreases recursion - i,
    {
        match encrypt_round_exec(&cur, addition_key, &mut marks) {
            None => {
                return None;
            },
            Some(next) => {
                cur = next;
            },
        }
        i = i + 1;
    }
    Some(string_of(&cur))
}

/// Encrypts `text` with the default cipher, `recursion` times over.
pub fn encrypt(text: &String, addition_key: i32, recursion: i32) -> (r: String)
    requires
        encryption(text@, addition_key, recursion) is Some,
    ensures
        encryption(text@, addition_key, recursion) == Some(r@),
{
    encrypt_checked(text, addition_key, recursion).unwrap()
}

/// The default decipher, or `None` exactly where `decrypt` aborts.
pub fn decrypt_checked(text: &String, subtraction_key: i32, recursion: i32) -> (r: Option<String>)
    ensures
        r matches Some(s) ==> decryption(text@, subtraction_key, recursion) == Some(s@),
        r is None ==> decryption(text@, subtraction_key, recursion) is None,
{
    let mut cur: Vec<char> = chars_of(text);
    let mut marks: Vec<char> = Vec::new();
    let ghost total = rounds_of(recursion);
    let mut i: i32 = 0;
    while i < recursion
        invariant
            0 <= i,
            i <= total,
            total == rounds_of(recursion),
            decryption(text@, subtraction_key, recursion) == decrypt_rounds(
                cur@,
                subtraction_key as int,
                marks@,
                (total - i) as nat,
            ),
        decreases recursion - i,
    {
        match decrypt_round_exec(&cur, subtraction_key, &mut marks) {
            None => {
                return None;
            },
            Some(next) => {
                cur = next;
            },
        }
        i = i + 1;
    }
    Some(string_of(&cur))
}

/// Decrypts `text` with the default decipher, `recursion` times over.
pub fn decrypt(text: &String, subtraction_key: i32, recursion: i32) -> (r: String)
    requires
        decryption(text@, subtraction_key, recursion) is Some,
    ensures
        decryption(text@, subtraction_key, recursion) == Some(r@),
{
    decrypt_checked(text, subtraction_key, recursion).unwrap()
}

fn hex_round_exec(s: &Vec<char>, key: u32) -> (r: Option<Vec<char>>)
    ensures
        r matches Some(v) ==> hex_round(s@, key as nat) == Some(v@),
        r is None ==> hex_round(s@, key as nat) is None,
{
    let n = s.len();
    let mut out: Vec<char> = Vec::new();
    let mut i: usize = 0;
    assert(s@.skip(0) == s@);
    assert(out@ + Seq::<char>::empty() == out@);
    while i < n
        invariant
            i <= n,
            n == s@.len(),
            hex_round(s@, key as nat) == prepend(out@, hex_round(s@.skip(i as int), key as nat)),
        decreases n - i,
    {
        let c = s[i];
        let ghost rest = s@.skip(i as int);
        assert(rest[0] == c);
        assert(rest.skip(1) == s@.skip(i + 1));
        let b = code_of(c) % 256;
        assert(b == low_byte(c));
        match b.checked_add(key) {
            None => {
                return None;
            },
            Some(w) => {
                let ghost before = out@;
                push_hex(&mut out, w);
                proof {
                    match hex_round(s@.skip(i + 1), key as nat) {
                        Some(t) => {
                            assert(before + (hex_nat(w as nat) + t) == out@ + t);
                        },
                        None => {},
                    }
                }
            },
        }
        i = i + 1;
    }
    assert(s@.skip(n as int).len() == 0);
    Some(out)
}

fn unhex_round_exec(s: &Vec<char>, key: u32) -> (r: Option<Vec<char>>)
    ensures
        r matches Some(v) ==> unhex_round(s@, key) == Some(v@),
        r is None ==> unhex_round(s@, key) is None,
{
    let n = s.len();
    let mut i: usize = 0;
    assert(s@.skip(0) == s@);
    while i < n
        invariant
            i <= n,
            n == s@.len(),
            splits_in_byte_pairs(s@) == splits_in_byte_pairs(s@.skip(i as int)),
        decreases n - i,
    {
        let ghost rest = s@.skip(i as int);
        assert(rest[0] == s@[i as int]);
        let w = utf8_width_exec(s[i]);
        if w == 2 {
            assert(rest.skip(1) == s@.skip(i + 1));
            i = i + 1;
        } else if w == 1 && i + 1 < n && utf8_width_exec(s[i + 1]) == 1 {
            assert(rest[1] == s@[i + 1]);
            assert(rest.skip(2) == s@.skip(i + 2));
            i = i + 2;
        } else {
            return None;
        }
    }
    assert(s@.skip(n as int).len() == 0);
    let shift: i64 = if key <= 0x7fff_ffff {
        key as i64
    } else {
        key as i64 - 0x1_0000_0000
    };
    assert(shift == key_as_i32(key));
    let mut vals: Vec<i32> = Vec::new();
    i = 0;
    assert(vals@ + Seq::<i32>::empty() == vals@);
    while i < n
        invariant
            i <= n,
            n == s@.len(),
            shift == key_as_i32(key),
            splits_in_byte_pairs(s@),
            piece_values(s@, shift as int) == prepend(vals@, piece_values(s@.skip(i as int), shift as int)),
        decreases n - i,
    {
        let ghost rest = s@.skip(i as int);
        assert(rest[0] == s@[i as int]);
        let take: usize = if utf8_width_exec(s[i]) == 2 {
            1
        } else {
            2
        };
        let end: usize = if take > n - i {
            n
        } else {
            i + take
        };
        let mut piece: Vec<char> = Vec::new();
        let mut k: usize = i;
        while k < end
            invariant
                i <= k <= end <= n,
                n == s@.len(),
                piece@ == s@.subrange(i as int, k as int),
            decreases end - k,
        {
            piece.push(s[k]);
            assert(s@.subrange(i as int, k + 1) == s@.subrange(i as int, k as int).push(s@[k as int]));
            k = k + 1;
        }
        assert(piece@ == rest.take((end - i) as int));
        assert(rest.skip((end - i) as int) == s@.skip(end as int));
        let t = trim_chars(piece.as_slice());
        match parse_i32(t.as_slice(), 16) {
            None => {
                assert(vals@ + Seq::<i32>::empty() == vals@);
                return decode_values_exec(&vals);
            },
            Some(num) => {
                let v: i64 = num as i64 - shift;
                if v < -0x8000_0000 || v > 0x7fff_ffff {
                    return None;
                }
                let ghost before = vals@;
                vals.push(v as i32);
                proof {
                    match piece_values(s@.skip(end as int), shift as int) {
                        Some(tl) => {
                            assert(before + (seq![v as i32] + tl) == vals@ + tl);
                        },
                        None => {},
                    }
                }
            },
        }
        i = end;
    }
    assert(s@.skip(n as int).len() == 0);
    assert(vals@ + Seq::<i32>::empty() == vals@);
    decode_values_exec(&vals)
}

fn decode_values_exec(vals: &Vec<i32>) -> (r: Option<Vec<char>>)
    ensures
        r matches Some(v) ==> decode_values(vals@) == Some(v@),
        r is None ==> decode_values(vals@) is None,
{
    let n = vals.len();
    let mut out: Vec<char> = Vec::new();
    let mut i: usize = 0;
    assert(vals@.skip(0) == vals@);
    assert(out@ + Seq::<char>::empty() == out@);
    while i < n
        invariant
            i <= n,
            n == vals@.len(),
            decode_values(vals@) == prepend(out@, decode_values(vals@.skip(i as int))),
        decreases n - i,
    {
        let v = vals[i];
        let ghost rest = vals@.skip(i as int);
        assert(rest[0] == v);
        assert(rest.skip(1) == vals@.skip(i + 1));
        if v < 0 {
            return None;
        }
        match char_from_u32(v as u32) {
            None => {
                assert(out@ + Seq::<char>::empty() == out@);
                return Some(out);
            },
            Some(c) => {
                assert(c == v as char);
                let ghost before = out@;
                out.push(c);
                proof {
                    match decode_values(vals@.skip(i + 1)) {
                        Some(tl) => {
                            assert(before + (seq![c] + tl) == out@ + tl);
                        },
                        None => {},
                    }
                }
            },
        }
        i = i + 1;
    }
    assert(vals@.skip(n as int).len() == 0);
    Some(out)
}

/// The ASCII cipher, or `None` exactly where `ascii_encrypt` overflows.
pub fn ascii_encrypt_checked(text: &String, addition_key: u32, recursion: i32) -> (r: Option<String>)
    ensures
        r matches Some(s) ==> ascii_encryption(text@, addition_key, recursion) == Some(s@),
        r is None ==> ascii_encryption(text@, addition_key, recursion) is None,
{
    let mut cur: Vec<char> = chars_of(text);
    let ghost total = rounds_of(recursion);
    let mut i: i32 = 0;
    while i < recursion
        invariant
            0 <= i <= total,
            total == rounds_of(recursion),
            ascii_encryption(text@, addition_key, recursion) == hex_rounds(
                cur@,
                addition_key as nat,
                (total - i) as nat,
            ),
        decreases recursion - i,
    {
        match hex_round_exec(&cur, addition_key) {
            None => {
                return None;
            },
            Some(next) => {
                cur = next;
            },
        }
        i = i + 1;
    }
    Some(string_of(&cur))
}

/// Encrypts `text` with the ASCII cipher, `recursion` times over.
pub fn ascii_encrypt(text: &String, addition_key: u32, recursion: i32) -> (r: String)
    requires
        ascii_encryption(text@, addition_key, recursion) is Some,
    ensures
        ascii_encryption(text@, addition_key, recursion) == Some(r@),
{
    ascii_encrypt_checked(text, addition_key, recursion).unwrap()
}

/// The ASCII decipher, or `None` exactly where `ascii_decrypt` aborts.
pub fn ascii_decrypt_checked(text: &String, subtraction_key: u32, recursion: i32) -> (r: Option<String>)
    ensures
        r matches Some(s) ==> ascii_decryption(text@, subtraction_key, recursion) == Some(s@),
        r is None ==> ascii_decryption(text@, subtraction_key, recursion) is None,
{
    let mut cur: Vec<char> = chars_of(text);
    let ghost total = rounds_of(recursion);
    let mut i: i32 = 0;
    while i < recursion
        invariant
            0 <= i <= total,
            total == rounds_of(recursion),
            ascii_decryption(text@, subtraction_key, recursion) == unhex_rounds(
                cur@,
                subtraction_key,
                (total - i) as nat,
            ),
        decreases recursion - i,
    {
        match unhex_round_exec(&cur, subtraction_key) {
            None => {
                return None;
            },
            Some(next) => {
                cur = next;
            },
        }
        i = i + 1;
    }
    Some(string_of(&cur))
}

/// Decrypts `text` with the ASCII decipher, `recursion` times over.
pub fn ascii_decrypt(text: &String, subtraction_key: u32, recursion: i32) -> (r: String)
    requires
        ascii_decryption(text@, subtraction_key, recursion) is Some,
    ensures
        ascii_decryption(text@, subtraction_key, recursion) == Some(r@),
{
    ascii_decrypt_checked(text, subtraction_key, recursion).unwrap()
}

} // verus!
