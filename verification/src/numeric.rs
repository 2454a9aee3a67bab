//! Writing numbers as digits, reading them back, and trimming white space.
use vstd::prelude::*;
use crate::chars::{digit_char, digit_char_exec, digit_value, digit_value_exec, hex_char, hex_char_exec, is_whitespace, is_whitespace_exec};

verus! {

/// The decimal digits of `m`, without leading zeros.
pub open spec fn decimal_nat(m: nat) -> Seq<char>
    decreases m,
{
    if m < 10 {
        seq![digit_char(m as int)]
    } else {
        decimal_nat(m / 10).push(digit_char((m % 10) as int))
    }
}

/// `n` written in decimal, with a leading `-` when it is negative.
pub open spec fn decimal(n: int) -> Seq<char> {
    if n < 0 {
        seq!['-'] + decimal_nat((-n) as nat)
    } else {
        decimal_nat(n as nat)
    }
}

/// The upper-case hexadecimal digits of `m`, without leading zeros.
pub open spec fn hex_nat(m: nat) -> Seq<char>
    decreases m,
{
    if m < 16 {
        seq![hex_char(m as int)]
    } else {
        hex_nat(m / 16).push(hex_char((m % 16) as int))
    }
}

/// The value of a run of digits in the given radix, or `None` if one is no digit.
pub open spec fn digits_value(d: Seq<char>, radix: nat) -> Option<nat>
    decreases d.len(),
{
    if d.len() == 0 {
        Some(0)
    } else {
        match (digits_value(d.drop_last(), radix), digit_value(d.last(), radix)) {
            (Some(a), Some(b)) => Some(a * radix + b),
            _ => None,
        }
    }
}

/// The `i32` that `t` denotes in the given radix, as `i32::from_str_radix`
/// reads it: an optional sign, then at least one digit, and a value that fits.
pub open spec fn parse_int(t: Seq<char>, radix: nat) -> Option<int> {
    if t.len() == 0 {
        None
    } else {
        let neg = t[0] == '-';
        let body = if t[0] == '-' || t[0] == '+' {
            t.skip(1)
        } else {
            t
        };
        if body.len() == 0 {
            None
        } else {
            match digits_value(body, radix) {
                None => None,
                Some(v) => {
                    let x = if neg {
                        -v
                    } else {
                        v as int
                    };
                    if i32::MIN <= x <= i32::MAX {
                        Some(x)
                    } else {
                        None
                    }
                },
            }
        }
    }
}

/// `s` without its leading white space.
pub open spec fn trim_start(s: Seq<char>) -> Seq<char>
    decreases s.len(),
{
    if s.len() > 0 && is_whitespace(s[0]) {
        trim_start(s.skip(1))
    } else {
        s
    }
}

/// `s` without its trailing white space.
pub open spec fn trim_end(s: Seq<char>) -> Seq<char>
    decreases s.len(),
{
    if s.len() > 0 && is_whitespace(s.last()) {
        trim_end(s.drop_last())
    } else {
        s
    }
}

/// `s` without leading and trailing white space, as `str::trim` gives it.
pub open spec fn trim(s: Seq<char>) -> Seq<char> {
    trim_end(trim_start(s))
}

/// Appends the decimal digits of `m` to `out`.
pub fn push_decimal_nat(out: &mut Vec<char>, m: u32)
    ensures
        final(out)@ == old(out)@ + decimal_nat(m as nat),
    decreases m,
{
    if m >= 10 {
        push_decimal_nat(out, m / 10);
    }
    out.push(digit_char_exec(m % 10));
    assert(m >= 10 ==> decimal_nat(m as nat) == decimal_nat((m / 10) as nat).push(
        digit_char((m % 10) as int),
    ));
}

/// Appends `n` written in decimal to `out`.
pub fn push_decimal(out: &mut Vec<char>, n: i32)
    ensures
        final(out)@ == old(out)@ + decimal(n as int),
{
    if n < 0 {
        out.push('-');
        let m: i64 = -(n as i64);
        push_decimal_nat(out, m as u32);
        assert(final(out)@ =~= old(out)@ + decimal(n as int));
    } else {
        push_decimal_nat(out, n as u32);
    }
}

/// Appends the upper-case hexadecimal digits of `m` to `out`.
pub fn push_hex(out: &mut Vec<char>, m: u32)
    ensures
        final(out)@ == old(out)@ + hex_nat(m as nat),
    decreases m,
{
    if m >= 16 {
        push_hex(out, m / 16);
    }
    out.push(hex_char_exec(m % 16));
    assert(m >= 16 ==> hex_nat(m as nat) == hex_nat((m / 16) as nat).push(
        hex_char((m % 16) as int),
    ));
}

proof fn lemma_digits_value_grows(d: Seq<char>, radix: nat, i: int)
    requires
        0 <= i <= d.len(),
        radix >= 1,
        digits_value(d, radix) is Some,
    ensures
        digits_value(d.take(i), radix) is Some,
        digits_value(d.take(i), radix)->0 <= digits_value(d, radix)->0,
    decreases d.len(),
{
    if i < d.len() {
        assert(d.drop_last().take(i) == d.take(i));
        lemma_digits_value_grows(d.drop_last(), radix, i);
        let a = digits_value(d.drop_last(), radix)->0;
        assert(a * radix >= a) by (nonlinear_arith)
            requires
                radix >= 1,
        ;
    } else {
        assert(d.take(i) == d);
    }
}

/// Reads `t` as `i32::from_str_radix` does.
pub fn parse_i32(t: &[char], radix: u32) -> (r: Option<i32>)
    requires
        2 <= radix <= 36,
    ensures
        r matches Some(x) ==> parse_int(t@, radix as nat) == Some(x as int),
        r is None ==> parse_int(t@, radix as nat) is None,
{
    let n = t.len();
    if n == 0 {
        return None;
    }
    let neg = t[0] == '-';
    let start: usize = if t[0] == '-' || t[0] == '+' {
        1
    } else {
        0
    };
    if start == n {
        return None;
    }
    let ghost body = if t@[0] == '-' || t@[0] == '+' {
        t@.skip(1)
    } else {
        t@
    };
    assert(body == t@.skip(start as int));
    let mut acc: i64 = 0;
    let mut i: usize = start;
    while i < n
        invariant
            start <= i <= n,
            n == t@.len(),
            body == t@.skip(start as int),
            t@.len() > 0,
            body.len() > 0,
            body == (if t@[0] == '-' || t@[0] == '+' {
                t@.skip(1)
            } else {
                t@
            }),
            2 <= radix <= 36,
            0 <= acc <= 0x8000_0000,
            digits_value(body.take(i - start), radix as nat) == Some(acc as nat),
        decreases n - i,
    {
        let dv = match digit_value_exec(t[i], radix) {
            Some(v) => v,
            None => {
                proof {
                    assert(body.take(i + 1 - start).drop_last() == body.take(i - start));
                    assert(body.take(i + 1 - start).last() == t@[i as int]);
                    assert(digits_value(body.take(i + 1 - start), radix as nat) is None);
                    if digits_value(body, radix as nat) is Some {
                        lemma_digits_value_grows(body, radix as nat, i + 1 - start);
                    }
                }
                return None;
            },
        };
        proof {
            assert(body.take(i + 1 - start).drop_last() == body.take(i - start));
            assert(body.take(i + 1 - start).last() == t@[i as int]);
            assert(acc * radix <= 0x8000_0000 * 36) by (nonlinear_arith)
                requires
                    0 <= acc <= 0x8000_0000,
                    radix <= 36,
            ;
        }
        acc = acc * (radix as i64) + (dv as i64);
        i = i + 1;
        if acc > 0x8000_0000 {
            proof {
                if digits_value(body, radix as nat) is Some {
                    lemma_digits_value_grows(body, radix as nat, i - start);
                }
            }
            return None;
        }
    }
    assert(body.take(n - start) == body);
    if neg {
        Some((-acc) as i32)
    } else if acc <= 0x7fff_ffff {
        Some(acc as i32)
    } else {
        None
    }
}

/// `t` without leading and trailing white space.
pub fn trim_chars(t: &[char]) -> (r: Vec<char>)
    ensures
        r@ == trim(t@),
{
    let n = t.len();
    let mut i: usize = 0;
    assert(t@.skip(0) == t@);
    while i < n && is_whitespace_exec(t[i])
        invariant
            i <= n,
            n == t@.len(),
            trim_start(t@) == trim_start(t@.skip(i as int)),
        decreases n - i,
    {
        assert(t@.skip(i as int).skip(1) == t@.skip(i + 1));
        i = i + 1;
    }
    assert(trim_start(t@) == t@.skip(i as int));
    let mut j: usize = n;
    while j > i && is_whitespace_exec(t[j - 1])
        invariant
            i <= j <= n,
            n == t@.len(),
            trim(t@) == trim_end(t@.subrange(i as int, j as int)),
        decreases j,
    {
        assert(t@.subrange(i as int, j as int).drop_last() == t@.subrange(i as int, j - 1));
        j = j - 1;
    }
    let mut r: Vec<char> = Vec::new();
    let mut k: usize = i;
    while k < j
        invariant
            i <= k <= j <= n,
            n == t@.len(),
            r@ == t@.subrange(i as int, k as int),
        decreases j - k,
    {
        r.push(t[k]);
        assert(t@.subrange(i as int, k + 1) == t@.subrange(i as int, k as int).push(t@[k as int]));
        k = k + 1;
    }
    r
}

} // verus!
