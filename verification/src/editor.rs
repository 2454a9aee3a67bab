//! The editing rules of the form: which field a key selects, how a key edits
//! the text of a field, and what a key asks the surrounding program to do.
//! Cursor positions are byte offsets into the UTF-8 form of a text.
use vstd::prelude::*;
use crate::chars::{chars_of, string_of, utf8_width, utf8_width_exec};

verus! {

/// The number of bytes of the UTF-8 form of `s`.
pub open spec fn byte_len(s: Seq<char>) -> nat
    decreases s.len(),
{
    if s.len() == 0 {
        0
    } else {
        utf8_width(s[0]) + byte_len(s.skip(1))
    }
}

/// The index of the character of `s` that starts at byte `b`, or `s.len()`
/// when `b` is the end of `s`; `None` when `b` is inside a character or past
/// the end.
pub open spec fn boundary_index(s: Seq<char>, b: int) -> Option<nat>
    decreases s.len(),
{
    if b == 0 {
        Some(0)
    } else if b < 0 || s.len() == 0 {
        None
    } else {
        match boundary_index(s.skip(1), b - utf8_width(s[0])) {
            Some(i) => Some(i + 1),
            None => None,
        }
    }
}

/// A key as the form reads it.
#[derive(Clone, Copy, PartialEq, Eq, Structural, Debug)]
pub enum Key {
    Char(char),
    Backspace,
    Tab,
    BackTab,
    Enter,
    Left,
    Right,
    Other,
}

/// `key` edits the text `s` with the cursor at byte `cursor` without
/// aborting: a character goes in at a character boundary, and a backspace
/// removes a character that starts one byte before the cursor.
pub open spec fn edit_allowed(key: Key, cursor: int, s: Seq<char>) -> bool {
    match key {
        Key::Char(_) => boundary_index(s, cursor) is Some,
        Key::Backspace => cursor == 0 || (boundary_index(s, cursor - 1) matches Some(i) && i < s.len()),
        _ => true,
    }
}

/// The text `s` after `key` with the cursor at byte `cursor`.
pub open spec fn edited(key: Key, cursor: int, s: Seq<char>) -> Seq<char> {
    match key {
        Key::Char(c) => {
            let i = boundary_index(s, cursor)->0 as int;
            s.take(i) + seq![c] + s.skip(i)
        },
        Key::Backspace => {
            if cursor == 0 {
                s
            } else {
                let i = boundary_index(s, cursor - 1)->0 as int;
                s.take(i) + s.skip(i + 1)
            }
        },
        _ => s,
    }
}

/// The number of bytes of the UTF-8 form of `s`.
pub fn byte_len_of(s: &Vec<char>) -> (n: usize)
    requires
        byte_len(s@) <= usize::MAX,
    ensures
        n == byte_len(s@),
{
    byte_len_checked(s).unwrap()
}

/// Splitting a text splits its byte length.
pub proof fn lemma_byte_len_split(s: Seq<char>, i: int)
    requires
        0 <= i <= s.len(),
    ensures
        byte_len(s) == byte_len(s.take(i)) + byte_len(s.skip(i)),
    decreases s.len(),
{
    if i > 0 {
        lemma_byte_len_split(s.skip(1), i - 1);
        assert(s.skip(1).take(i - 1) == s.take(i).skip(1));
        assert(s.skip(1).skip(i - 1) == s.skip(i));
        assert(s.take(i)[0] == s[0]);
    } else {
        assert(s.take(0) == Seq::<char>::empty());
        assert(s.skip(0) == s);
    }
}

/// The index of the character of `s` that starts at byte `b`, as `boundary_index`.
pub fn find_boundary(s: &Vec<char>, b: usize) -> (r: Option<usize>)
    ensures
        r matches Some(i) ==> boundary_index(s@, b as int) == Some(i as nat),
        r is None ==> boundary_index(s@, b as int) is None,
{
    let n = s.len();
    let mut i: usize = 0;
    let mut pos: usize = 0;
    assert(s@.skip(0) == s@);
    while i < n && pos < b
        invariant
            i <= n,
            n == s@.len(),
            pos <= b,
            match boundary_index(s@.skip(i as int), b - pos) {
                Some(k) => boundary_index(s@, b as int) == Some((k + i) as nat),
                None => boundary_index(s@, b as int) is None,
            },
        decreases n - i,
    {
        let w = utf8_width_exec(s[i]);
        let ghost rest = s@.skip(i as int);
        assert(rest[0] == s@[i as int]);
        assert(rest.skip(1) == s@.skip(i + 1));
        if w > b - pos {
            assert(boundary_index(rest.skip(1), b - pos - w) is None) by {
                lemma_boundary_negative(rest.skip(1), b - pos - w);
            }
            return None;
        }
        pos = pos + w;
        i = i + 1;
    }
    if pos == b {
        Some(i)
    } else {
        assert(s@.skip(i as int).len() == 0);
        None
    }
}

proof fn lemma_boundary_negative(s: Seq<char>, b: int)
    requires
        b < 0,
    ensures
        boundary_index(s, b) is None,
{
}

/// Applies `key` to the text `text` with the cursor at byte `cursor_pos`: a
/// character is inserted at the cursor, a backspace removes the character
/// before it, and any other key leaves the text alone.
pub fn handle_input(key: Key, cursor_pos: usize, text: &mut String)
    requires
        edit_allowed(key, cursor_pos as int, old(text)@),
    ensures
        final(text)@ == edited(key, cursor_pos as int, old(text)@),
{
    let s = chars_of(text);
    match key {
        Key::Char(c) => {
            let i = find_boundary(&s, cursor_pos).unwrap();
            proof {
                lemma_boundary_index_bound(s@, cursor_pos as int);
            }
            let mut v: Vec<char> = Vec::new();
            let mut k: usize = 0;
            while k < i
                invariant
                    k <= i <= s@.len(),
                    v@ == s@.take(k as int),
                decreases i - k,
            {
                v.push(s[k]);
                assert(s@.take(k + 1) == s@.take(k as int).push(s@[k as int]));
                k = k + 1;
            }
            v.push(c);
            let n = s.len();
            while k < n
                invariant
                    i <= k <= n,
                    n == s@.len(),
                    v@ == s@.take(i as int) + seq![c] + s@.subrange(i as int, k as int),
                decreases n - k,
            {
                v.push(s[k]);
                assert(s@.subrange(i as int, k + 1) == s@.subrange(i as int, k as int).push(s@[k as int]));
                k = k + 1;
            }
            assert(s@.subrange(i as int, n as int) == s@.skip(i as int));
            *text = string_of(&v);
        },
        Key::Backspace => {
            if cursor_pos > 0 {
                let i = find_boundary(&s, cursor_pos - 1).unwrap();
                let n = s.len();
                let mut v: Vec<char> = Vec::new();
                let mut k: usize = 0;
                while k < n
                    invariant
                        k <= n,
                        i < n,
                        n == s@.len(),
                        k <= i ==> v@ == s@.take(k as int),
                        k > i ==> v@ == s@.take(i as int) + s@.subrange(i + 1, k as int),
                    decreases n - k,
                {
                    if k != i {
                        v.push(s[k]);
                    }
                    proof {
                        if k < i {
                            assert(s@.take(k + 1) == s@.take(k as int).push(s@[k as int]));
                        } else if k == i {
                            assert(s@.subrange(i + 1, k + 1) == Seq::<char>::empty());
                        } else {
                            assert(s@.subrange(i + 1, k + 1) == s@.subrange(i + 1, k as int).push(
                                s@[k as int],
                            ));
                        }
                    }
                    k = k + 1;
                }
                assert(s@.subrange(i + 1, n as int) == s@.skip(i + 1));
                *text = string_of(&v);
            }
        },
        _ => {},
    }
}

proof fn lemma_boundary_index_bound(s: Seq<char>, b: int)
    ensures
        boundary_index(s, b) matches Some(i) ==> i <= s.len(),
    decreases s.len(),
{
    if b != 0 && b >= 0 && s.len() > 0 {
        lemma_boundary_index_bound(s.skip(1), b - utf8_width(s[0]));
    }
}

/// The number of bytes of the UTF-8 form of `s`, or `None` when it exceeds `usize::MAX`.
pub fn byte_len_checked(s: &Vec<char>) -> (r: Option<usize>)
    ensures
        r matches Some(n) ==> n == byte_len(s@),
        r is None ==> byte_len(s@) > usize::MAX,
{
    let len = s.len();
    let mut i: usize = len;
    let mut total: usize = 0;
    assert(s@.skip(len as int) == Seq::<char>::empty());
    assert(s@.take(len as int) == s@);
    while i > 0
        invariant
            i <= len,
            len == s@.len(),
            total == byte_len(s@.skip(i as int)),
            total + byte_len(s@.take(i as int)) == byte_len(s@),
        decreases i,
    {
        proof {
            lemma_byte_len_split(s@, (i - 1) as int);
            lemma_byte_len_split(s@, i as int);
            assert(s@.skip(i - 1).skip(1) == s@.skip(i as int));
            assert(s@.skip(i - 1)[0] == s@[i - 1]);
            lemma_byte_len_split(s@.take(i as int), (i - 1) as int);
            assert(s@.take(i as int).take(i - 1) == s@.take(i - 1));
            assert(s@.take(i as int).skip(i - 1) == seq![s@[i - 1]]);
            assert(seq![s@[i - 1]].skip(1) == Seq::<char>::empty());
        }
        let w = utf8_width_exec(s[i - 1]);
        if w > usize::MAX - total {
            return None;
        }
        total = total + w;
        i = i - 1;
    }
    assert(s@.skip(0) == s@);
    Some(total)
}

/// The field of the form that has the focus.
#[derive(Clone, Copy, PartialEq, Eq, Structural, Debug)]
pub enum InputMode {
    Input,
    Decider,
    Mode,
    Key,
    Recursion,
    Submit,
    Save,
    RawText,
    Load,
}

/// What a key asks the surrounding program to do.
#[derive(Clone, Copy, PartialEq, Eq, Structural, Debug)]
pub enum Effect {
    /// Nothing beyond the change to the form.
    Nothing,
    /// Run the chosen cipher on the form.
    Submit,
    /// Write the output to a file that the user picks.
    SaveOutput,
    /// Leave the screen and print the output.
    ShowOutput,
    /// Append the contents of a file that the user picks to the input text.
    LoadInput,
}

/// The state of the form.
pub struct Form {
    pub selection: InputMode,
    pub input_text: String,
    pub decider: String,
    pub mode: String,
    pub key_text: String,
    pub recursion: String,
    /// Byte offset of the cursor.
    pub cursor: usize,
    pub output: String,
}

/// The keys that move the focus away from a text field.
pub open spec fn moves_focus(key: Key) -> bool {
    key == Key::Tab || key == Key::Enter || key == Key::BackTab
}

/// The field that has the focus after `key`.
pub open spec fn next_mode(m: InputMode, key: Key) -> InputMode {
    match m {
        InputMode::Input => match key {
            Key::Tab | Key::Enter => InputMode::Decider,
            Key::BackTab => InputMode::Load,
            _ => m,
        },
        InputMode::Decider => match key {
            Key::Tab | Key::Enter => InputMode::Mode,
            Key::BackTab => InputMode::Input,
            _ => m,
        },
        InputMode::Mode => match key {
            Key::Tab | Key::Enter => InputMode::Key,
            Key::BackTab => InputMode::Decider,
            _ => m,
        },
        InputMode::Key => match key {
            Key::Tab | Key::Enter => InputMode::Recursion,
            Key::BackTab => InputMode::Mode,
            _ => m,
        },
        InputMode::Recursion => match key {
            Key::Tab | Key::Enter => InputMode::Submit,
            Key::BackTab => InputMode::Key,
            _ => m,
        },
        InputMode::Submit => match key {
            Key::Tab | Key::Enter => InputMode::Save,
            Key::BackTab => InputMode::Recursion,
            _ => m,
        },
        InputMode::Save => match key {
            Key::Tab => InputMode::RawText,
            Key::BackTab => InputMode::Submit,
            _ => m,
        },
        InputMode::RawText => match key {
            Key::Tab => InputMode::Load,
            Key::BackTab => InputMode::Save,
            _ => m,
        },
        InputMode::Load => match key {
            Key::Tab => InputMode::Input,
            Key::BackTab => InputMode::RawText,
            _ => m,
        },
    }
}

/// What `key` asks for when `m` has the focus.
pub open spec fn effect_of(m: InputMode, key: Key) -> Effect {
    if key == Key::Enter {
        match m {
            InputMode::Submit => Effect::Submit,
            InputMode::Save => Effect::SaveOutput,
            InputMode::RawText => Effect::ShowOutput,
            InputMode::Load => Effect::LoadInput,
            _ => Effect::Nothing,
        }
    } else {
        Effect::Nothing
    }
}

/// The text field that has the focus, if one of the four short fields does.
pub open spec fn focused_text(f: Form) -> Option<Seq<char>> {
    match f.selection {
        InputMode::Decider => Some(f.decider@),
        InputMode::Mode => Some(f.mode@),
        InputMode::Key => Some(f.key_text@),
        InputMode::Recursion => Some(f.recursion@),
        _ => None,
    }
}

/// `key` can be applied to `f` without aborting.
pub open spec fn step_allowed(f: Form, key: Key) -> bool {
    match f.selection {
        InputMode::Input => match key {
            Key::Char(_) => boundary_index(f.input_text@, f.cursor as int) is Some && f.cursor < usize::MAX,
            Key::Backspace => edit_allowed(key, f.cursor as int, f.input_text@),
            Key::Right => byte_len(f.input_text@) <= usize::MAX,
            _ => true,
        },
        _ => match focused_text(f) {
            Some(t) => moves_focus(key) || (byte_len(t) <= usize::MAX && edit_allowed(
                key,
                byte_len(t) as int,
                t,
            )),
            None => true,
        },
    }
}

/// The short field `which` after `key`: edited at its end if it has the focus.
pub open spec fn field_after(f: Form, which: InputMode, t: Seq<char>, key: Key) -> Seq<char> {
    if f.selection == which && !moves_focus(key) {
        edited(key, byte_len(t) as int, t)
    } else {
        t
    }
}

/// The input text after `key`.
pub open spec fn input_after(f: Form, key: Key) -> Seq<char> {
    if f.selection == InputMode::Input {
        match key {
            Key::Char(_) | Key::Backspace => edited(key, f.cursor as int, f.input_text@),
            _ => f.input_text@,
        }
    } else {
        f.input_text@
    }
}

/// The cursor after `key`.
pub open spec fn cursor_after(f: Form, key: Key) -> int {
    let c = f.cursor as int;
    match f.selection {
        InputMode::Input => match key {
            Key::Left | Key::Backspace => if c > 0 {
                c - 1
            } else {
                c
            },
            Key::Right => if c < byte_len(f.input_text@) {
                c + 1
            } else {
                c
            },
            Key::Char(_) => c + 1,
            _ => c,
        },
        _ => match focused_text(f) {
            Some(t) => if moves_focus(key) {
                c
            } else {
                byte_len(t) as int
            },
            None => c,
        },
    }
}

fn moves_focus_exec(key: Key) -> (b: bool)
    ensures
        b == moves_focus(key),
{
    match key {
        Key::Tab | Key::Enter | Key::BackTab => true,
        _ => false,
    }
}

/// The field that has the focus after `key`.
pub fn next_mode_of(m: InputMode, key: Key) -> (r: InputMode)
    ensures
        r == next_mode(m, key),
{
    match m {
        InputMode::Input => match key {
            Key::Tab | Key::Enter => InputMode::Decider,
            Key::BackTab => InputMode::Load,
            _ => m,
        },
        InputMode::Decider => match key {
            Key::Tab | Key::Enter => InputMode::Mode,
            Key::BackTab => InputMode::Input,
            _ => m,
        },
        InputMode::Mode => match key {
            Key::Tab | Key::Enter => InputMode::Key,
            Key::BackTab => InputMode::Decider,
            _ => m,
        },
        InputMode::Key => match key {
            Key::Tab | Key::Enter => InputMode::Recursion,
            Key::BackTab => InputMode::Mode,
            _ => m,
        },
        InputMode::Recursion => match key {
            Key::Tab | Key::Enter => InputMode::Submit,
            Key::BackTab => InputMode::Key,
            _ => m,
        },
        InputMode::Submit => match key {
            Key::Tab | Key::Enter => InputMode::Save,
            Key::BackTab => InputMode::Recursion,
            _ => m,
        },
        InputMode::Save => match key {
            Key::Tab => InputMode::RawText,
            Key::BackTab => InputMode::Submit,
            _ => m,
        },
        InputMode::RawText => match key {
            Key::Tab => InputMode::Load,
            Key::BackTab => InputMode::Save,
            _ => m,
        },
        InputMode::Load => match key {
            Key::Tab => InputMode::Input,
            Key::BackTab => InputMode::RawText,
            _ => m,
        },
    }
}

/// Edits a short field at its end, and puts the cursor at its end first.
fn edit_field(key: Key, cursor: &mut usize, text: &mut String)
    requires
        byte_len(old(text)@) <= usize::MAX,
        edit_allowed(key, byte_len(old(text)@) as int, old(text)@),
    ensures
        *final(cursor) == byte_len(old(text)@),
        final(text)@ == edited(key, byte_len(old(text)@) as int, old(text)@),
{
    let len = byte_len_of(&chars_of(text));
    *cursor = len;
    handle_input(key, len, text);
}

/// Applies one key press to the form, and says what it asks of the
/// surrounding program.
pub fn step(form: &mut Form, key: Key) -> (e: Effect)
    requires
        step_allowed(*old(form), key),
    ensures
        e == effect_of(old(form).selection, key),
        final(form).selection == next_mode(old(form).selection, key),
        final(form).output@ == (if e == Effect::Submit {
            Seq::<char>::empty()
        } else {
            old(form).output@
        }),
        final(form).input_text@ == input_after(*old(form), key),
        final(form).decider@ == field_after(*old(form), InputMode::Decider, old(form).decider@, key),
        final(form).mode@ == field_after(*old(form), InputMode::Mode, old(form).mode@, key),
        final(form).key_text@ == field_after(*old(form), InputMode::Key, old(form).key_text@, key),
        final(form).recursion@ == field_after(
            *old(form),
            InputMode::Recursion,
            old(form).recursion@,
            key,
        ),
        final(form).cursor as int == cursor_after(*old(form), key),
{
    let sel = form.selection;
    let e = if key == Key::Enter {
        match sel {
            InputMode::Submit => Effect::Submit,
            InputMode::Save => Effect::SaveOutput,
            InputMode::RawText => Effect::ShowOutput,
            InputMode::Load => Effect::LoadInput,
            _ => Effect::Nothing,
        }
    } else {
        Effect::Nothing
    };
    form.selection = next_mode_of(sel, key);
    match sel {
        InputMode::Input => {
            match key {
                Key::Left => {
                    if form.cursor > 0 {
                        form.cursor = form.cursor - 1;
                    }
                },
                Key::Right => {
                    let len = byte_len_of(&chars_of(&form.input_text));
                    if form.cursor < len {
                        form.cursor = form.cursor + 1;
                    }
                },
                Key::Char(_) => {
                    handle_input(key, form.cursor, &mut form.input_text);
                    form.cursor = form.cursor + 1;
                },
                Key::Backspace => {
                    if form.cursor > 0 {
                        handle_input(key, form.cursor, &mut form.input_text);
                        form.cursor = form.cursor - 1;
                    }
                },
                _ => {},
            }
        },
        InputMode::Decider => {
            if !moves_focus_exec(key) {
                edit_field(key, &mut form.cursor, &mut form.decider);
            }
        },
        InputMode::Mode => {
            if !moves_focus_exec(key) {
                edit_field(key, &mut form.cursor, &mut form.mode);
            }
        },
        InputMode::Key => {
            if !moves_focus_exec(key) {
                edit_field(key, &mut form.cursor, &mut form.key_text);
            }
        },
        InputMode::Recursion => {
            if !moves_focus_exec(key) {
                edit_field(key, &mut form.cursor, &mut form.recursion);
            }
        },
        InputMode::Submit => {
            if key == Key::Enter {
                form.output = String::new();
            }
        },
        _ => {},
    }
    e
}

fn edit_allowed_exec(key: Key, cursor: usize, s: &Vec<char>) -> (b: bool)
    ensures
        b == edit_allowed(key, cursor as int, s@),
{
    match key {
        Key::Char(_) => find_boundary(s, cursor).is_some(),
        Key::Backspace => {
            if cursor == 0 {
                true
            } else {
                match find_boundary(s, cursor - 1) {
                    Some(i) => i < s.len(),
                    None => false,
                }
            }
        },
        _ => true,
    }
}

fn field_allowed(key: Key, text: &String) -> (b: bool)
    ensures
        b == (moves_focus(key) || (byte_len(text@) <= usize::MAX && edit_allowed(
            key,
            byte_len(text@) as int,
            text@,
        ))),
{
    if moves_focus_exec(key) {
        return true;
    }
    let s = chars_of(text);
    match byte_len_checked(&s) {
        None => false,
        Some(len) => edit_allowed_exec(key, len, &s),
    }
}

/// Whether `key` can be applied to `form` by `step`.
pub fn can_step(form: &Form, key: Key) -> (b: bool)
    ensures
        b == step_allowed(*form, key),
{
    match form.selection {
        InputMode::Input => match key {
            Key::Char(_) => {
                let s = chars_of(&form.input_text);
                find_boundary(&s, form.cursor).is_some() && form.cursor < usize::MAX
            },
            Key::Backspace => {
                let s = chars_of(&form.input_text);
                edit_allowed_exec(key, form.cursor, &s)
            },
            Key::Right => {
                let s = chars_of(&form.input_text);
                byte_len_checked(&s).is_some()
            },
            _ => true,
        },
        InputMode::Decider => field_allowed(key, &form.decider),
        InputMode::Mode => field_allowed(key, &form.mode),
        InputMode::Key => field_allowed(key, &form.key_text),
        InputMode::Recursion => field_allowed(key, &form.recursion),
        _ => true,
    }
}

/// `text` with a bar marking the cursor at byte `cursor`.
pub open spec fn marked(text: Seq<char>, cursor: int) -> Seq<char> {
    let i = boundary_index(text, cursor)->0 as int;
    text.take(i) + seq!['|'] + text.skip(i)
}

/// The input text as the form shows it while it has the focus: with a bar at
/// the cursor.
pub fn cursor_marked_text(text: &String, cursor: usize) -> (r: String)
    requires
        boundary_index(text@, cursor as int) is Some,
    ensures
        r@ == marked(text@, cursor as int),
{
    let mut t = text.clone();
    handle_input(Key::Char('|'), cursor, &mut t);
    t
}

/// `cursor_marked_text` can be called with `cursor` on `text`.
pub fn cursor_on_boundary(text: &String, cursor: usize) -> (b: bool)
    ensures
        b == (boundary_index(text@, cursor as int) is Some),
{
    find_boundary(&chars_of(text), cursor).is_some()
}

/// `x` reinterpreted as an `i16`, as `x as i16` wraps it.
pub open spec fn wrap_i16(x: int) -> int {
    let m = x % 65536;
    if m >= 32768 {
        m - 65536
    } else {
        m
    }
}

/// `a / b` rounded toward zero, as integer division does.
pub open spec fn div_toward_zero(a: int, b: int) -> int {
    let q = (if a < 0 { -a } else { a }) / (if b < 0 { -b } else { b });
    if (a < 0) != (b < 0) {
        -q
    } else {
        q
    }
}

/// The number of lines by which the input box scrolls: the line of the
/// cursor, counted in a box `width` wide with a border, less the lines that
/// the box shows, and never below zero; all in `i16` arithmetic. `None` where
/// that arithmetic aborts: a divisor of zero or a value outside `i16`.
pub open spec fn input_scroll_spec(cursor: int, width: int, height: int) -> Option<int> {
    let c = wrap_i16(cursor);
    let w = wrap_i16(width) - 2;
    let h = wrap_i16(height) - 4;
    if w < -32768 || w == 0 || (c == -32768 && w == -1) || h < -32768 {
        None
    } else {
        let x = div_toward_zero(c, w) - h;
        if x < -32768 || x > 32767 {
            None
        } else if x <= 0 {
            Some(0)
        } else {
            Some(x)
        }
    }
}

fn wrap_i16_exec(x: u64) -> (r: i64)
    ensures
        r == wrap_i16(x as int),
        -32768 <= r <= 32767,
{
    let m = x % 65536;
    if m >= 32768 {
        m as i64 - 65536
    } else {
        m as i64
    }
}

/// The scroll offset of the input box, as `input_scroll_spec`.
pub fn input_scroll(cursor: usize, width: u16, height: u16) -> (r: Option<u16>)
    ensures
        r matches Some(x) ==> input_scroll_spec(cursor as int, width as int, height as int) == Some(
            x as int,
        ),
        r is None ==> input_scroll_spec(cursor as int, width as int, height as int) is None,
{
    let c = wrap_i16_exec(cursor as u64);
    let w = wrap_i16_exec(width as u64) - 2;
    let h = wrap_i16_exec(height as u64) - 4;
    if w < -32768 || w == 0 || (c == -32768 && w == -1) || h < -32768 {
        return None;
    }
    let ac: u64 = if c < 0 {
        (-c) as u64
    } else {
        c as u64
    };
    let aw: u64 = if w < 0 {
        (-w) as u64
    } else {
        w as u64
    };
    let q0 = ac / aw;
    assert(q0 <= 32768) by (nonlinear_arith)
        requires
            q0 == ac / aw,
            ac <= 32768,
            aw >= 1,
    ;
    let q: i64 = if (c < 0) != (w < 0) {
        -(q0 as i64)
    } else {
        q0 as i64
    };
    let x = q - h;
    if x < -32768 || x > 32767 {
        None
    } else if x <= 0 {
        Some(0)
    } else {
        Some(x as u16)
    }
}

} // verus!
