//! Decimal numbers and small string helpers used by the textual formats.

use itertools::Itertools;
use vstd::prelude::*;

verus! {

/// The character of one decimal digit.
pub open spec fn digit_char(d: int) -> char {
    if d == 0 {
        '0'
    } else if d == 1 {
        '1'
    } else if d == 2 {
        '2'
    } else if d == 3 {
        '3'
    } else if d == 4 {
        '4'
    } else if d == 5 {
        '5'
    } else if d == 6 {
        '6'
    } else if d == 7 {
        '7'
    } else if d == 8 {
        '8'
    } else {
        '9'
    }
}

/// The value of a decimal digit character, if it is one.
pub open spec fn digit_value(c: char) -> Option<int> {
    if c == '0' {
        Some(0)
    } else if c == '1' {
        Some(1)
    } else if c == '2' {
        Some(2)
    } else if c == '3' {
        Some(3)
    } else if c == '4' {
        Some(4)
    } else if c == '5' {
        Some(5)
    } else if c == '6' {
        Some(6)
    } else if c == '7' {
        Some(7)
    } else if c == '8' {
        Some(8)
    } else if c == '9' {
        Some(9)
    } else {
        None
    }
}

/// The decimal rendering of a natural number, without leading zeros.
pub open spec fn decimal_text(n: nat) -> Seq<char>
    decreases n,
{
    if n < 10 {
        seq![digit_char(n as int)]
    } else {
        decimal_text(n / 10).push(digit_char((n % 10) as int))
    }
}

/// The number written by a non-empty run of decimal digits; `None` when
/// the run is empty or holds anything but digits.
pub open spec fn digits_value(s: Seq<char>) -> Option<nat>
    decreases s.len(),
{
    if s.len() == 0 {
        None
    } else if s.len() == 1 {
        match digit_value(s[0]) {
            Some(d) => Some(d as nat),
            None => None,
        }
    } else {
        match (digits_value(s.drop_last()), digit_value(s.last())) {
            (Some(h), Some(d)) => Some((10 * h + d) as nat),
            _ => None,
        }
    }
}

/// What an unsigned decimal field stands for: an optional `+`, then at
/// least one digit, with a value of at most `max`.
pub open spec fn unsigned_value(s: Seq<char>, max: nat) -> Option<nat> {
    let digits = if s.len() > 0 && s[0] == '+' {
        s.skip(1)
    } else {
        s
    };
    match digits_value(digits) {
        Some(v) => if v <= max {
            Some(v)
        } else {
            None
        },
        None => None,
    }
}

/// Appends one character to a string, as `String::push` does.
#[verifier::external_body]
pub(crate) fn push_char(s: &mut String, c: char)
    ensures
        final(s)@ == old(s)@.push(c),
{
    s.push(c)
}

fn digit_of(d: usize) -> (c: char)
    requires
        d < 10,
    ensures
        c == digit_char(d as int),
{
    if d == 0 {
        '0'
    } else if d == 1 {
        '1'
    } else if d == 2 {
        '2'
    } else if d == 3 {
        '3'
    } else if d == 4 {
        '4'
    } else if d == 5 {
        '5'
    } else if d == 6 {
        '6'
    } else if d == 7 {
        '7'
    } else if d == 8 {
        '8'
    } else {
        '9'
    }
}

fn value_of(c: char) -> (v: Option<usize>)
    ensures
        match digit_value(c) {
            Some(d) => v == Some(d as usize),
            None => v is None,
        },
{
    if c == '0' {
        Some(0)
    } else if c == '1' {
        Some(1)
    } else if c == '2' {
        Some(2)
    } else if c == '3' {
        Some(3)
    } else if c == '4' {
        Some(4)
    } else if c == '5' {
        Some(5)
    } else if c == '6' {
        Some(6)
    } else if c == '7' {
        Some(7)
    } else if c == '8' {
        Some(8)
    } else if c == '9' {
        Some(9)
    } else {
        None
    }
}

/// Appends the decimal rendering of `n` to `out`.
pub fn push_decimal(out: &mut String, n: usize)
    ensures
        final(out)@ == old(out)@ + decimal_text(n as nat),
    decreases n,
{
    if n >= 10 {
        push_decimal(out, n / 10);
    }
    push_char(out, digit_of(n % 10));
}

/// The characters of a string, in order: `str::chars` gathered into a
/// vector by `Itertools::collect_vec`, which keeps every item in the order
/// the iterator yields it.
#[verifier::external_body]
pub(crate) fn chars_of(s: &str) -> (out: Vec<char>)
    ensures
        out@ == s@,
{
    s.chars().collect_vec()
}

/// A run of digits that has a value keeps one when cut short, and the
/// shorter run's value is no larger.
pub proof fn lemma_digits_prefix(s: Seq<char>, k: int)
    requires
        1 <= k <= s.len(),
        digits_value(s) is Some,
    ensures
        digits_value(s.take(k)) is Some,
        digits_value(s.take(k)).unwrap() <= digits_value(s).unwrap(),
    decreases s.len(),
{
    if k == s.len() {
        assert(s.take(k) =~= s);
    } else {
        assert(s.len() >= 2);
        assert(s.drop_last().take(k) =~= s.take(k));
        lemma_digits_prefix(s.drop_last(), k);
    }
}

/// Reads the unsigned decimal number written in `chars[from..to]`.
pub fn parse_unsigned(chars: &Vec<char>, from: usize, to: usize) -> (r: Option<usize>)
    requires
        from <= to <= chars.len(),
    ensures
        match unsigned_value(chars@.subrange(from as int, to as int), usize::MAX as nat) {
            Some(v) => r == Some(v as usize),
            None => r is None,
        },
{
    let ghost field = chars@.subrange(from as int, to as int);
    let first: usize = if from < to && chars[from] == '+' {
        from + 1
    } else {
        from
    };
    let ghost digits = chars@.subrange(first as int, to as int);
    assert(digits =~= if field.len() > 0 && field[0] == '+' {
        field.skip(1)
    } else {
        field
    });
    if first == to {
        return None;
    }
    let mut acc: usize = 0;
    let mut i: usize = first;
    while i < to
        invariant
            first <= i <= to <= chars.len(),
            first < to,
            digits == chars@.subrange(first as int, to as int),
            field == chars@.subrange(from as int, to as int),
            digits == if field.len() > 0 && field[0] == '+' {
                field.skip(1)
            } else {
                field
            },
            i > first ==> digits_value(digits.take(i - first)) == Some(acc as nat),
            i == first ==> acc == 0,
        decreases to - i,
    {
        let ghost seen = digits.take(i - first + 1);
        assert(seen.last() == chars@[i as int]);
        assert(seen.drop_last() =~= digits.take(i - first));
        match value_of(chars[i]) {
            None => {
                proof {
                    if digits_value(digits) is Some {
                        lemma_digits_prefix(digits, i - first + 1);
                    }
                }
                return None;
            },
            Some(d) => {
                if acc > (usize::MAX - d) / 10 {
                    proof {
                        if digits_value(digits) is Some {
                            lemma_digits_prefix(digits, i - first + 1);
                        }
                    }
                    return None;
                }
                acc = acc * 10 + d;
            },
        }
        i += 1;
    }
    assert(digits.take(to - first) =~= digits);
    Some(acc)
}

/// Where `ch` first occurs in `s`; the length of `s` if it never does.
pub open spec fn first_index(s: Seq<char>, ch: char) -> nat
    decreases s.len(),
{
    if s.len() == 0 || s[0] == ch {
        0
    } else {
        1 + first_index(s.skip(1), ch)
    }
}

/// [`first_index`] is the one index with no `ch` before it and `ch`, or
/// the end of `s`, at it.
pub proof fn lemma_first_index(s: Seq<char>, ch: char, k: int)
    requires
        0 <= k <= s.len(),
        forall|j: int| 0 <= j < k ==> s[j] != ch,
        k == s.len() || s[k] == ch,
    ensures
        first_index(s, ch) == k,
    decreases k,
{
    if k > 0 {
        lemma_first_index(s.skip(1), ch, k - 1);
    }
}

/// A line without the carriage return that may end it.
pub open spec fn without_return(line: Seq<char>) -> Seq<char> {
    if line.len() > 0 && line.last() == '\r' {
        line.drop_last()
    } else {
        line
    }
}

/// The lines of a text. A line ends at a line feed, or at a carriage
/// return followed by one, and the ending is no part of it; the last line
/// needs no ending, and keeps a carriage return that no line feed follows.
pub open spec fn lines_of(s: Seq<char>) -> Seq<Seq<char>>
    decreases s.len(),
{
    if s.len() == 0 {
        Seq::empty()
    } else {
        let k = first_index(s, '\n');
        if k >= s.len() {
            seq![s]
        } else {
            seq![without_return(s.take(k as int))] + lines_of(s.skip(k as int + 1))
        }
    }
}

/// Where each line of `chars` starts and ends.
pub fn line_bounds(chars: &Vec<char>) -> (bounds: Vec<(usize, usize)>)
    ensures
        bounds@.len() == lines_of(chars@).len(),
        forall|i: int|
            0 <= i < bounds@.len() ==> {
                &&& (#[trigger] bounds@[i]).0 <= bounds@[i].1 <= chars@.len()
                &&& chars@.subrange(bounds@[i].0 as int, bounds@[i].1 as int) == lines_of(chars@)[i]
            },
{
    let mut bounds: Vec<(usize, usize)> = Vec::new();
    let mut start: usize = 0;
    let mut i: usize = 0;
    let n = chars.len();
    let ghost text = chars@;
    assert(text.skip(0) =~= text);
    while i < n
        invariant
            start <= i <= n,
            n == chars@.len(),
            text == chars@,
            forall|j: int| start <= j < i ==> text[j] != '\n',
            lines_of(text) == Seq::new(
                bounds@.len(),
                |k: int| text.subrange(bounds@[k].0 as int, bounds@[k].1 as int),
            ) + lines_of(text.skip(start as int)),
            forall|k: int|
                0 <= k < bounds@.len() ==> (#[trigger] bounds@[k]).0 <= bounds@[k].1 <= n,
        decreases n - i,
    {
        if chars[i] == '\n' {
            let ghost rest = text.skip(start as int);
            let ghost done = Seq::new(
                bounds@.len(),
                |k: int| text.subrange(bounds@[k].0 as int, bounds@[k].1 as int),
            );
            proof {
                lemma_first_index(rest, '\n', i - start);
                assert(rest.skip(i - start + 1) =~= text.skip(i + 1));
                assert(rest.take(i - start) =~= text.subrange(start as int, i as int));
            }
            let end: usize = if i > start && chars[i - 1] == '\r' {
                i - 1
            } else {
                i
            };
            assert(text.subrange(start as int, end as int) =~= without_return(
                text.subrange(start as int, i as int),
            ));
            bounds.push((start, end));
            assert(Seq::new(
                bounds@.len(),
                |k: int| text.subrange(bounds@[k].0 as int, bounds@[k].1 as int),
            ) =~= done + seq![text.subrange(start as int, end as int)]);
            assert(lines_of(text) =~= (done + seq![text.subrange(start as int, end as int)])
                + lines_of(text.skip(i + 1)));
            start = i + 1;
        }
        i += 1;
    }
    let ghost rest = text.skip(start as int);
    let ghost done = Seq::new(
        bounds@.len(),
        |k: int| text.subrange(bounds@[k].0 as int, bounds@[k].1 as int),
    );
    if start < n {
        proof {
            lemma_first_index(rest, '\n', n - start);
            assert(rest =~= text.subrange(start as int, n as int));
        }
        bounds.push((start, n));
        assert(Seq::new(
            bounds@.len(),
            |k: int| text.subrange(bounds@[k].0 as int, bounds@[k].1 as int),
        ) =~= done + seq![rest]);
    } else {
        assert(lines_of(rest) =~= Seq::<Seq<char>>::empty());
        assert(done + lines_of(rest) =~= done);
    }
    bounds
}

} // verus!
