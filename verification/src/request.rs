//! What a submitted form asks for, and running it.
use vstd::prelude::*;
use crate::chars::{chars_of, string_of};
use crate::editor::{byte_len, byte_len_of, Form};
use crate::encryption::{
    ascii_decrypt_checked, ascii_decryption, ascii_encrypt_checked, ascii_encryption,
    decrypt_checked, decryption, encrypt_checked, encryption,
};
use crate::numeric::{parse_i32, parse_int, trim, trim_chars};

verus! {

/// What `str::to_lowercase` returns for `s`.
pub uninterp spec fn lowercase(s: Seq<char>) -> Seq<char>;

/// What `str::to_uppercase` returns for `s`.
pub uninterp spec fn uppercase(s: Seq<char>) -> Seq<char>;

/// The lower-case form of `s`.
///
/// Trusted: calls `str::to_lowercase`, which std documents as returning the
/// lower-case equivalent of the string by the Unicode rules, with no regard
/// to locale. The contract only names the result `lowercase`, a function of
/// the string alone; nothing more is said of it.
#[verifier::external_body]
fn to_lowercase(s: &str) -> (r: String)
    ensures
        r@ == lowercase(s@),
{
    s.to_lowercase()
}

/// The upper-case form of `s`.
///
/// Trusted: calls `str::to_uppercase`, which std documents as returning the
/// upper-case equivalent of the string by the Unicode rules, with no regard
/// to locale. The contract only names the result `uppercase`, a function of
/// the string alone; nothing more is said of it.
#[verifier::external_body]
fn to_uppercase(s: &str) -> (r: String)
    ensures
        r@ == uppercase(s@),
{
    s.to_uppercase()
}

/// The cipher that a form selects.
#[derive(Clone, Copy, PartialEq, Eq, Structural, Debug)]
pub enum Cipher {
    Default,
    Ascii,
}

/// Whether a form asks to encrypt or to decrypt.
#[derive(Clone, Copy, PartialEq, Eq, Structural, Debug)]
pub enum Direction {
    Encrypt,
    Decrypt,
}

/// A run of a cipher that a form asks for.
pub struct Request {
    pub cipher: Cipher,
    pub direction: Direction,
    pub text: String,
    pub key: i32,
    pub recursion: i32,
}

/// The number a field holds: the trimmed text read as an `i32`, or 0.
pub open spec fn field_number(t: Seq<char>) -> int {
    match parse_int(trim(t), 10) {
        Some(v) => v,
        None => 0,
    }
}

/// The cipher and direction that the words in the mode and decider fields
/// name, already trimmed and lower-cased: `default` or `ascii`, and
/// `encrypt` or `decrypt`.
pub open spec fn chosen(mode_word: Seq<char>, decider_word: Seq<char>) -> Option<(Cipher, Direction)> {
    let cipher = if mode_word == seq!['d', 'e', 'f', 'a', 'u', 'l', 't'] {
        Some(Cipher::Default)
    } else if mode_word == seq!['a', 's', 'c', 'i', 'i'] {
        Some(Cipher::Ascii)
    } else {
        None
    };
    let direction = if decider_word == seq!['e', 'n', 'c', 'r', 'y', 'p', 't'] {
        Some(Direction::Encrypt)
    } else if decider_word == seq!['d', 'e', 'c', 'r', 'y', 'p', 't'] {
        Some(Direction::Decrypt)
    } else {
        None
    };
    match (cipher, direction) {
        (Some(c), Some(d)) => Some((c, d)),
        _ => None,
    }
}

fn same_chars(a: &Vec<char>, b: &[char]) -> (r: bool)
    ensures
        r == (a@ == b@),
{
    if a.len() != b.len() {
        return false;
    }
    let n = a.len();
    let mut i: usize = 0;
    while i < n
        invariant
            i <= n,
            n == a@.len(),
            n == b@.len(),
            forall|j: int| 0 <= j < i ==> a@[j] == b@[j],
        decreases n - i,
    {
        if a[i] != b[i] {
            return false;
        }
        i = i + 1;
    }
    assert(a@ == b@);
    true
}

/// The request that the words and numbers of a form make: the default cipher
/// runs on the upper-cased text and the ASCII cipher on the trimmed text;
/// `None` when the words name no cipher or no direction.
pub fn choose_request(
    mode_word: &String,
    decider_word: &String,
    key: i32,
    recursion: i32,
    trimmed: String,
    upper: String,
) -> (r: Option<Request>)
    ensures
        match chosen(mode_word@, decider_word@) {
            None => r is None,
            Some((c, d)) => r matches Some(q) && q.cipher == c && q.direction == d && q.key == key
                && q.recursion == recursion && q.text@ == (if c == Cipher::Default {
                upper@
            } else {
                trimmed@
            }),
        },
{
    let m = chars_of(mode_word);
    let dw = chars_of(decider_word);
    let cipher = if same_chars(&m, &['d', 'e', 'f', 'a', 'u', 'l', 't']) {
        Cipher::Default
    } else if same_chars(&m, &['a', 's', 'c', 'i', 'i']) {
        Cipher::Ascii
    } else {
        return None;
    };
    let direction = if same_chars(&dw, &['e', 'n', 'c', 'r', 'y', 'p', 't']) {
        Direction::Encrypt
    } else if same_chars(&dw, &['d', 'e', 'c', 'r', 'y', 'p', 't']) {
        Direction::Decrypt
    } else {
        return None;
    };
    let text = match cipher {
        Cipher::Default => upper,
        Cipher::Ascii => trimmed,
    };
    Some(Request { cipher, direction, text, key, recursion })
}

fn field_number_of(t: &String) -> (r: i32)
    ensures
        r == field_number(t@),
{
    let v = trim_chars(chars_of(t).as_slice());
    match parse_i32(v.as_slice(), 10) {
        Some(x) => x,
        None => 0,
    }
}

fn trimmed_string(t: &String) -> (r: String)
    ensures
        r@ == trim(t@),
{
    string_of(&trim_chars(chars_of(t).as_slice()))
}

/// The cipher and direction that a submitted form names in its mode and
/// decider fields.
pub open spec fn requested(f: Form) -> Option<(Cipher, Direction)> {
    chosen(lowercase(trim(f.mode@)), lowercase(trim(f.decider@)))
}

/// The request that a submitted form makes, or `None` when its words name no
/// cipher or no direction.
pub fn interpret(form: &Form) -> (r: Option<Request>)
    ensures
        match requested(*form) {
            None => r is None,
            Some((c, d)) => r matches Some(q) && q.cipher == c && q.direction == d && q.key
                == field_number(form.key_text@) && q.recursion == field_number(form.recursion@)
                && q.text@ == (if c == Cipher::Default {
                uppercase(trim(form.input_text@))
            } else {
                trim(form.input_text@)
            }),
        },
{
    let key = field_number_of(&form.key_text);
    let recursion = field_number_of(&form.recursion);
    let mode_word = to_lowercase(trimmed_string(&form.mode).as_str());
    let decider_word = to_lowercase(trimmed_string(&form.decider).as_str());
    let trimmed = trimmed_string(&form.input_text);
    let upper = to_uppercase(trimmed.as_str());
    choose_request(&mode_word, &decider_word, key, recursion, trimmed, upper)
}

/// What running `q` gives, or `None` where it aborts: a cipher that aborts,
/// or a negative key for the ASCII cipher, whose keys are unsigned.
pub open spec fn outcome(q: Request) -> Option<Seq<char>> {
    match (q.cipher, q.direction) {
        (Cipher::Default, Direction::Encrypt) => encryption(q.text@, q.key, q.recursion),
        (Cipher::Default, Direction::Decrypt) => decryption(q.text@, q.key, q.recursion),
        (Cipher::Ascii, dir) => if q.key < 0 {
            None
        } else if dir == Direction::Encrypt {
            ascii_encryption(q.text@, q.key as u32, q.recursion)
        } else {
            ascii_decryption(q.text@, q.key as u32, q.recursion)
        },
    }
}

/// Runs `q`; `None` exactly where it aborts.
pub fn perform(q: &Request) -> (r: Option<String>)
    ensures
        r matches Some(s) ==> outcome(*q) == Some(s@),
        r is None ==> outcome(*q) is None,
{
    match q.cipher {
        Cipher::Default => match q.direction {
            Direction::Encrypt => encrypt_checked(&q.text, q.key, q.recursion),
            Direction::Decrypt => decrypt_checked(&q.text, q.key, q.recursion),
        },
        Cipher::Ascii => {
            if q.key < 0 {
                return None;
            }
            let k = q.key as u32;
            match q.direction {
                Direction::Encrypt => ascii_encrypt_checked(&q.text, k, q.recursion),
                Direction::Decrypt => ascii_decrypt_checked(&q.text, k, q.recursion),
            }
        },
    }
}

/// Completes a submission: a run's result becomes the output and clears the
/// input text; either way the four short fields empty and the cursor goes to
/// the end of the input text.
pub fn finish_submit(form: &mut Form, result: Option<String>)
    requires
        byte_len(old(form).input_text@) <= usize::MAX,
    ensures
        final(form).selection == old(form).selection,
        final(form).output@ == (match result {
            Some(o) => o@,
            None => old(form).output@,
        }),
        final(form).input_text@ == (match result {
            Some(_) => Seq::<char>::empty(),
            None => old(form).input_text@,
        }),
        final(form).decider@ == Seq::<char>::empty(),
        final(form).mode@ == Seq::<char>::empty(),
        final(form).key_text@ == Seq::<char>::empty(),
        final(form).recursion@ == Seq::<char>::empty(),
        final(form).cursor == byte_len(final(form).input_text@),
{
    match result {
        Some(o) => {
            form.output = o;
            form.input_text = String::new();
        },
        None => {},
    }
    form.decider = String::new();
    form.mode = String::new();
    form.key_text = String::new();
    form.recursion = String::new();
    form.cursor = byte_len_of(&chars_of(&form.input_text));
}

} // verus!
