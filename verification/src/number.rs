//! The grammar of floating-point literals: the strings that the standard
//! library reads as a floating-point number.

use vstd::prelude::*;

verus! {

pub open spec fn is_digit(c: char) -> bool {
    '0' <= c && c <= '9'
}

pub open spec fn is_sign(c: char) -> bool {
    c == '+' || c == '-'
}

/// The index just past the run of digits that begins at `i`.
pub open spec fn digits_end(s: Seq<char>, i: int) -> int
    decreases s.len() - i,
{
    if 0 <= i < s.len() && is_digit(s[i]) {
        digits_end(s, i + 1)
    } else {
        i
    }
}


/// `s[from..]` is `inf`, `nan` or `infinity`, in any mix of cases.
pub open spec fn is_special(s: Seq<char>, from: int) -> bool {
    let n = s.len() - from;
    ||| n == 3 && letter(s[from], 'i', 'I') && letter(s[from + 1], 'n', 'N') && letter(
        s[from + 2],
        'f',
        'F',
    )
    ||| n == 3 && letter(s[from], 'n', 'N') && letter(s[from + 1], 'a', 'A') && letter(
        s[from + 2],
        'n',
        'N',
    )
    ||| n == 8 && letter(s[from], 'i', 'I') && letter(s[from + 1], 'n', 'N') && letter(
        s[from + 2],
        'f',
        'F',
    ) && letter(s[from + 3], 'i', 'I') && letter(s[from + 4], 'n', 'N') && letter(
        s[from + 5],
        'i',
        'I',
    ) && letter(s[from + 6], 't', 'T') && letter(s[from + 7], 'y', 'Y')
}

pub open spec fn letter(c: char, lower: char, upper: char) -> bool {
    c == lower || c == upper
}

/// `s[from..]` is an exponent: `e` or `E`, an optional sign, one digit or more.
pub open spec fn is_exponent(s: Seq<char>, from: int) -> bool {
    &&& from < s.len()
    &&& letter(s[from], 'e', 'E')
    &&& {
        let d = if from + 1 < s.len() && is_sign(s[from + 1]) {
            from + 2
        } else {
            from + 1
        };
        d < s.len() && digits_end(s, d) == s.len()
    }
}

/// `s[from..]` is digits with at most one point among them, at least one
/// digit in all, and then nothing or an exponent.
pub open spec fn is_decimal(s: Seq<char>, from: int) -> bool {
    let a = digits_end(s, from);
    let pointed = a < s.len() && s[a] == '.';
    let b = if pointed {
        digits_end(s, a + 1)
    } else {
        a
    };
    let digits = if pointed {
        b - from - 1
    } else {
        b - from
    };
    digits > 0 && (b == s.len() || is_exponent(s, b))
}

/// Whether `s`, whole, is a floating-point literal: an optional sign, then
/// `inf`, `infinity`, `nan`, or a decimal number with an optional exponent.
pub open spec fn is_float_literal(s: Seq<char>) -> bool {
    let from: int = if s.len() > 0 && is_sign(s[0]) {
        1
    } else {
        0
    };
    is_special(s, from) || is_decimal(s, from)
}

fn digit(c: char) -> (r: bool)
    ensures
        r == is_digit(c),
{
    '0' <= c && c <= '9'
}

fn skip_digits(s: &Vec<char>, from: usize) -> (to: usize)
    requires
        from <= s@.len(),
    ensures
        to == digits_end(s@, from as int),
        from <= to <= s@.len(),
{
    let mut i: usize = from;
    while i < s.len() && digit(s[i])
        invariant
            from <= i <= s@.len(),
            digits_end(s@, i as int) == digits_end(s@, from as int),
        decreases s@.len() - i,
    {
        i += 1;
    }
    i
}

fn special(s: &Vec<char>, from: usize) -> (r: bool)
    requires
        from <= s@.len(),
    ensures
        r == is_special(s@, from as int),
{
    let n: usize = s.len() - from;
    if n == 3 {
        let a: char = s[from];
        let b: char = s[from + 1];
        let c: char = s[from + 2];
        ((a == 'i' || a == 'I') && (b == 'n' || b == 'N') && (c == 'f' || c == 'F')) || ((a == 'n'
            || a == 'N') && (b == 'a' || b == 'A') && (c == 'n' || c == 'N'))
    } else if n == 8 {
        (s[from] == 'i' || s[from] == 'I') && (s[from + 1] == 'n' || s[from + 1] == 'N') && (s[from
            + 2] == 'f' || s[from + 2] == 'F') && (s[from + 3] == 'i' || s[from + 3] == 'I') && (s[from
            + 4] == 'n' || s[from + 4] == 'N') && (s[from + 5] == 'i' || s[from + 5] == 'I') && (s[from
            + 6] == 't' || s[from + 6] == 'T') && (s[from + 7] == 'y' || s[from + 7] == 'Y')
    } else {
        false
    }
}

fn exponent(s: &Vec<char>, from: usize) -> (r: bool)
    requires
        from <= s@.len(),
    ensures
        r == is_exponent(s@, from as int),
{
    let n: usize = s.len();
    if from >= n || !(s[from] == 'e' || s[from] == 'E') {
        return false;
    }
    let d: usize = if from + 1 < n && (s[from + 1] == '+' || s[from + 1] == '-') {
        from + 2
    } else {
        from + 1
    };
    d < n && skip_digits(s, d) == n
}

/// Decides whether the characters are a floating-point literal.
pub fn float_literal(s: &Vec<char>) -> (r: bool)
    ensures
        r == is_float_literal(s@),
{
    let n: usize = s.len();
    let from: usize = if n > 0 && (s[0] == '+' || s[0] == '-') {
        1
    } else {
        0
    };
    if special(s, from) {
        return true;
    }
    let a: usize = skip_digits(s, from);
    let pointed: bool = a < n && s[a] == '.';
    let b: usize = if pointed {
        skip_digits(s, a + 1)
    } else {
        a
    };
    let digits: usize = if pointed {
        b - from - 1
    } else {
        b - from
    };
    digits > 0 && (b == n || exponent(s, b))
}

} // verus!
