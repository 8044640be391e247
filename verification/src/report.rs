//! The three lines that show an error under the line of text it is in.

use vstd::prelude::*;
use crate::chars::{to_chars, to_text};
use crate::rebuild::{is_part, placed, sits};
use crate::tokenize::{column_of, is_gap, line_of, Piece, Token};

verus! {

/// `n` times the character `c`.
pub open spec fn run_of(c: char, n: int) -> Seq<char> {
    Seq::new(
        if n > 0 {
            n as nat
        } else {
            0
        },
        |i: int| c,
    )
}

pub open spec fn digit_of(d: int) -> char {
    if d == 0 {
        '0'
    } else if d == 1 {
        '1'
    } else if d == 2 {
        '2'
    } else if d == 3 {
        '3'
    } else if d == 4 {
        '4'
    } else if d == 5 {
        '5'
    } else if d == 6 {
        '6'
    } else if d == 7 {
        '7'
    } else if d == 8 {
        '8'
    } else {
        '9'
    }
}

/// The decimal digits of `n`.
pub open spec fn decimal(n: nat) -> Seq<char>
    decreases n,
{
    if n < 10 {
        seq![digit_of(n as int)]
    } else {
        decimal(n / 10).push(digit_of((n % 10) as int))
    }
}

/// The index of the first line break at `from` or behind it, or the length
/// of the text where there is none.
pub open spec fn line_stop(text: Seq<char>, from: int) -> int
    decreases text.len() - from,
{
    if 0 <= from < text.len() && text[from] != '\n' {
        line_stop(text, from + 1)
    } else {
        from
    }
}

/// Where line `k` begins: at the front, or behind the `k`-th line break;
/// nowhere if the text has fewer line breaks.
pub open spec fn line_start(text: Seq<char>, k: nat) -> Option<int>
    decreases k,
{
    if k == 0 {
        Some(0)
    } else {
        match line_start(text, (k - 1) as nat) {
            None => None,
            Some(s) => {
                let e = line_stop(text, s);
                if e < text.len() {
                    Some(e + 1)
                } else {
                    None
                }
            },
        }
    }
}

/// Line `k` of the text, without its line break and without a carriage
/// return before the line break; none where no character of the text is at
/// or behind the beginning of the line.
pub open spec fn line_text(text: Seq<char>, k: nat) -> Option<Seq<char>> {
    match line_start(text, k) {
        None => None,
        Some(s) => if s >= text.len() {
            None
        } else {
            let e = line_stop(text, s);
            if s < e < text.len() && text[e - 1] == '\r' {
                Some(text.subrange(s, e - 1))
            } else {
                Some(text.subrange(s, e))
            }
        },
    }
}

/// The first line: the reason.
pub open spec fn heading(message: Seq<char>) -> Seq<char> {
    "     | Error: "@ + message + ":"@
}

/// The second line: the number of the line, to the right in four columns,
/// and the line itself, or as many question marks as the error's last
/// column where the text has no such line.
pub open spec fn quoted(text: Seq<char>, line: nat, end: int) -> Seq<char> {
    let number = decimal(line);
    let shown = match line_text(text, line) {
        Some(found) => found,
        None => run_of('?', end),
    };
    run_of(' ', 4 - number.len()) + number + " | "@ + shown
}

/// The third line: tildes under the columns from `start` up to `end`.
pub open spec fn marker(start: int, end: int) -> Seq<char> {
    "     | "@ + run_of(' ', start) + run_of('~', end - start)
}

fn digit_char(d: usize) -> (c: char)
    requires
        d < 10,
    ensures
        c == digit_of(d as int),
{
    match d {
        0 => '0',
        1 => '1',
        2 => '2',
        3 => '3',
        4 => '4',
        5 => '5',
        6 => '6',
        7 => '7',
        8 => '8',
        _ => '9',
    }
}

fn decimal_digits(n: usize) -> (out: Vec<char>)
    ensures
        out@ == decimal(n as nat),
    decreases n,
{
    if n < 10 {
        let mut out: Vec<char> = Vec::new();
        out.push(digit_char(n));
        assert(out@ =~= seq![digit_of(n as int)]);
        out
    } else {
        let mut out: Vec<char> = decimal_digits(n / 10);
        out.push(digit_char(n % 10));
        out
    }
}

fn push_run(out: &mut Vec<char>, c: char, n: usize)
    ensures
        final(out)@ == old(out)@ + run_of(c, n as int),
{
    let mut i: usize = 0;
    while i < n
        invariant
            i <= n,
            out@ =~= old(out)@ + run_of(c, i as int),
        decreases n - i,
    {
        out.push(c);
        i += 1;
    }
}

fn push_range(out: &mut Vec<char>, more: &Vec<char>, from: usize, to: usize)
    requires
        from <= to <= more@.len(),
    ensures
        final(out)@ == old(out)@ + more@.subrange(from as int, to as int),
{
    let mut i: usize = from;
    while i < to
        invariant
            from <= i <= to <= more@.len(),
            out@ =~= old(out)@ + more@.subrange(from as int, i as int),
        decreases to - i,
    {
        out.push(more[i]);
        i += 1;
    }
}

fn push_all(out: &mut Vec<char>, more: &Vec<char>)
    ensures
        final(out)@ == old(out)@ + more@,
{
    push_range(out, more, 0, more.len());
    assert(more@.subrange(0, more@.len() as int) =~= more@);
}

fn find_line_stop(text: &Vec<char>, from: usize) -> (e: usize)
    requires
        from <= text@.len(),
    ensures
        e == line_stop(text@, from as int),
        from <= e <= text@.len(),
{
    let mut e: usize = from;
    while e < text.len() && text[e] != '\n'
        invariant
            from <= e <= text@.len(),
            line_stop(text@, e as int) == line_stop(text@, from as int),
        decreases text@.len() - e,
    {
        e += 1;
    }
    e
}

/// Appends line `line` of the text to `out`, and says whether there is one.
fn push_line(out: &mut Vec<char>, text: &Vec<char>, line: usize) -> (found: bool)
    ensures
        match line_text(text@, line as nat) {
            Some(shown) => found && final(out)@ == old(out)@ + shown,
            None => !found && final(out)@ == old(out)@,
        },
{
    let n: usize = text.len();
    let mut s: usize = 0;
    let mut k: usize = 0;
    while k < line
        invariant
            k <= line,
            n == text@.len(),
            s <= n,
            line_start(text@, k as nat) == Some(s as int),
            out@ == old(out)@,
        decreases line - k,
    {
        let e: usize = find_line_stop(text, s);
        if e >= n {
            proof {
                lemma_no_later_line(text@, (k + 1) as nat, line as nat);
            }
            return false;
        }
        s = e + 1;
        k += 1;
    }
    if s >= n {
        return false;
    }
    let e: usize = find_line_stop(text, s);
    if s < e && e < n && text[e - 1] == '\r' {
        push_range(out, text, s, e - 1);
    } else {
        push_range(out, text, s, e);
    }
    true
}

/// A text without line `k` has no later line either.
proof fn lemma_no_later_line(text: Seq<char>, k: nat, later: nat)
    requires
        line_start(text, k) is None,
        k <= later,
    ensures
        line_start(text, later) is None,
    decreases later,
{
    if k < later {
        lemma_no_later_line(text, k, (later - 1) as nat);
    }
}

/// The three lines that show an error: the reason, the line of the text
/// that the token is on, and tildes under the token's columns.
pub fn error_lines(input: &String, message: &str, whence: &Token) -> (lines: Vec<String>)
    requires
        whence.line_pos.0 <= whence.line_pos.1,
    ensures
        lines@.len() == 3,
        lines@[0]@ == heading(message@),
        lines@[1]@ == quoted(input@, whence.line as nat, whence.line_pos.1 as int),
        lines@[2]@ == marker(whence.line_pos.0 as int, whence.line_pos.1 as int),
{
    let text: Vec<char> = to_chars(input.as_str());
    let start: usize = whence.line_pos.0;
    let end: usize = whence.line_pos.1;

    let mut first: Vec<char> = to_chars("     | Error: ");
    push_all(&mut first, &to_chars(message));
    push_all(&mut first, &to_chars(":"));

    let number: Vec<char> = decimal_digits(whence.line);
    let mut second: Vec<char> = Vec::new();
    if number.len() < 4 {
        push_run(&mut second, ' ', 4 - number.len());
    }
    push_all(&mut second, &number);
    push_all(&mut second, &to_chars(" | "));
    let ghost so_far = second@;
    assert(so_far =~= run_of(' ', 4 - number@.len()) + number@ + " | "@);
    if !push_line(&mut second, &text, whence.line) {
        push_run(&mut second, '?', end);
    }

    let mut third: Vec<char> = to_chars("     | ");
    push_run(&mut third, ' ', start);
    push_run(&mut third, '~', end - start);

    let mut lines: Vec<String> = Vec::new();
    lines.push(to_text(&first));
    lines.push(to_text(&second));
    lines.push(to_text(&third));
    lines
}

proof fn lemma_line_goes_on(text: Seq<char>, s: int, j: int)
    requires
        0 <= s <= j <= text.len(),
        forall|k: int| s <= k < j ==> #[trigger] text[k] != '\n',
    ensures
        line_stop(text, s) == line_stop(text, j),
        j <= line_stop(text, j) <= text.len(),
    decreases text.len() - s,
{
    if s < j {
        assert(text[s] != '\n');
        lemma_line_goes_on(text, s + 1, j);
    } else if j < text.len() && text[j] != '\n' {
        lemma_line_goes_on(text, j + 1, j + 1);
    }
}

/// The line of every position begins as many characters before it as its
/// column says, with no line break between.
proof fn lemma_line_of_position(text: Seq<char>, n: int)
    requires
        0 <= n <= text.len(),
    ensures
        0 <= line_of(text, n),
        0 <= column_of(text, n) <= n,
        line_start(text, line_of(text, n) as nat) == Some(n - column_of(text, n)),
        forall|k: int| n - column_of(text, n) <= k < n ==> #[trigger] text[k] != '\n',
    decreases n,
{
    if n > 0 {
        lemma_line_of_position(text, n - 1);
        if text[n - 1] == '\n' {
            let s = n - 1 - column_of(text, n - 1);
            lemma_line_goes_on(text, s, n - 1);
            assert(line_stop(text, n - 1) == n - 1);
            assert(line_start(text, line_of(text, n) as nat) == Some(n));
        }
    }
}

/// A piece of a text is found in the line that the report shows for it, at
/// its columns: the tildes of the marker stand under its characters.
pub proof fn lemma_piece_is_in_its_line(text: Seq<char>, p: Piece)
    requires
        placed(text, p),
    ensures
        match line_text(text, p.line as nat) {
            Some(shown) => {
                &&& 0 <= p.start <= p.end <= shown.len()
                &&& shown.subrange(p.start, p.end) == p.content
            },
            None => false,
        },
{
    let i = choose|i: int| sits(text, p, i);
    assert(sits(text, p, i));
    assert(is_part(p));
    let n = p.content.len() as int;
    let s = i - p.start;
    lemma_line_of_position(text, i);
    assert forall|k: int| s <= k < i + n implies #[trigger] text[k] != '\n' by {
        if k >= i {
            assert(text.subrange(i, i + n)[k - i] == p.content[k - i]);
            assert(!is_gap(p.content[k - i]));
        }
    }
    lemma_line_goes_on(text, s, i + n);
    let e = line_stop(text, s);
    let last = text.subrange(i, i + n)[n - 1];
    assert(last == p.content[n - 1]);
    assert(!is_gap(last));
    assert(last == text[i + n - 1]);
    let shown = line_text(text, p.line as nat)->Some_0;
    assert(shown.subrange(p.start, p.end) =~= p.content);
}

} // verus!
