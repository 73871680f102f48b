//! Character-level text handling: conversion between strings and character
//! vectors, splitting on a delimiter, splitting into lines, and signed decimal
//! numbers.

use vstd::prelude::*;

verus! {

/// `String::push` of the standard library: the character is appended at the
/// end of the string and nothing else changes.
pub assume_specification[ String::push ](s: &mut String, ch: char)
    ensures
        final(s)@ == old(s)@.push(ch),
;

/// The characters of each token of a list.
pub open spec fn token_views(tokens: Seq<Vec<char>>) -> Seq<Seq<char>> {
    Seq::new(tokens.len(), |i: int| tokens[i]@)
}

/// The characters of each string of a list.
pub open spec fn string_views(strings: Seq<String>) -> Seq<Seq<char>> {
    Seq::new(strings.len(), |i: int| strings[i]@)
}

/// The characters of `s`, in order.
pub fn chars_of(s: &str) -> (v: Vec<char>)
    ensures
        v@ == s@,
{
    let mut v: Vec<char> = Vec::new();
    for c in it: s.chars()
        invariant
            v@ == s@.take(it.index()),
            it.seq() == s@,
    {
        v.push(c);
    }
    v
}

/// The string made of the characters of `v`.
pub fn string_of(v: &Vec<char>) -> (s: String)
    ensures
        s@ == v@,
{
    let mut s = String::new();
    let mut i: usize = 0;
    while i < v.len()
        invariant
            i <= v.len(),
            s@ == v@.take(i as int),
        decreases v.len() - i,
    {
        s.push(v[i]);
        i += 1;
    }
    s
}

/// The string made of the characters of `v` from position `from` on.
pub fn string_from(v: &Vec<char>, from: usize) -> (s: String)
    requires
        from <= v.len(),
    ensures
        s@ == v@.skip(from as int),
{
    let mut s = String::new();
    let mut i: usize = from;
    while i < v.len()
        invariant
            from <= i <= v.len(),
            s@ == v@.subrange(from as int, i as int),
        decreases v.len() - i,
    {
        s.push(v[i]);
        i += 1;
    }
    s
}

/// The pieces of `text` between occurrences of `delimiter`. There is always at
/// least one piece: a text without the delimiter is its own single piece, and
/// each occurrence of the delimiter starts a new one.
pub open spec fn split_on(text: Seq<char>, delimiter: char) -> Seq<Seq<char>>
    decreases text.len(),
{
    if text.len() == 0 {
        seq![Seq::<char>::empty()]
    } else {
        let init = split_on(text.drop_last(), delimiter);
        if text.last() == delimiter {
            init.push(Seq::<char>::empty())
        } else {
            init.update(init.len() - 1, init.last().push(text.last()))
        }
    }
}

/// The pieces joined again, with the delimiter between neighbours.
pub open spec fn join_with(pieces: Seq<Seq<char>>, delimiter: char) -> Seq<char>
    decreases pieces.len(),
{
    if pieces.len() == 0 {
        Seq::<char>::empty()
    } else if pieces.len() == 1 {
        pieces[0]
    } else {
        join_with(pieces.drop_last(), delimiter).push(delimiter) + pieces.last()
    }
}

/// Splitting yields at least one piece, no piece holds the delimiter, and
/// joining the pieces with the delimiter gives the text back.
pub proof fn lemma_split_on(text: Seq<char>, delimiter: char)
    ensures
        split_on(text, delimiter).len() >= 1,
        forall|i: int, j: int|
            0 <= i < split_on(text, delimiter).len() && 0 <= j < split_on(text, delimiter)[i].len()
                ==> (#[trigger] split_on(text, delimiter)[i][j]) != delimiter,
        join_with(split_on(text, delimiter), delimiter) == text,
    decreases text.len(),
{
    if text.len() > 0 {
        let rest = text.drop_last();
        lemma_split_on(rest, delimiter);
        let init = split_on(rest, delimiter);
        let all = split_on(text, delimiter);
        if text.last() == delimiter {
            assert(all.drop_last() == init);
            assert(join_with(all, delimiter) == join_with(init, delimiter).push(delimiter)
                + Seq::<char>::empty());
            assert(rest.push(delimiter) == text);
        } else {
            let grown = init.last().push(text.last());
            assert(all.len() == init.len());
            assert(all.last() == grown);
            if init.len() == 1 {
                assert(init[0] == rest);
                assert(rest.push(text.last()) == text);
            } else {
                assert(all.drop_last() == init.drop_last());
                assert(join_with(init.drop_last(), delimiter).push(delimiter) + grown == (
                join_with(init.drop_last(), delimiter).push(delimiter) + init.last()).push(
                    text.last(),
                ));
                assert(rest.push(text.last()) == text);
            }
        }
    }
}

/// Splits `text` at every occurrence of `delimiter`.
pub fn split(text: &Vec<char>, delimiter: char) -> (tokens: Vec<Vec<char>>)
    ensures
        token_views(tokens@) == split_on(text@, delimiter),
{
    let mut tokens: Vec<Vec<char>> = Vec::new();
    let mut current: Vec<char> = Vec::new();
    let mut i: usize = 0;
    while i < text.len()
        invariant
            i <= text.len(),
            token_views(tokens@).push(current@) == split_on(text@.take(i as int), delimiter),
        decreases text.len() - i,
    {
        let c = text[i];
        proof {
            assert(text@.take(i + 1).drop_last() == text@.take(i as int));
            assert(text@.take(i + 1).last() == c);
        }
        let ghost before = token_views(tokens@).push(current@);
        if c == delimiter {
            tokens.push(current);
            current = Vec::new();
            assert(token_views(tokens@).push(current@) == before.push(Seq::<char>::empty()));
        } else {
            current.push(c);
            assert(token_views(tokens@).push(current@) == before.update(
                before.len() - 1,
                before.last().push(c),
            ));
        }
        i += 1;
    }
    let ghost before = token_views(tokens@).push(current@);
    tokens.push(current);
    assert(text@.take(text.len() as int) == text@);
    assert(token_views(tokens@) == before);
    tokens
}

/// A line without the carriage return that closes it, if there is one.
pub open spec fn strip_carriage_return(line: Seq<char>) -> Seq<char> {
    if line.len() > 0 && line.last() == '\r' {
        line.drop_last()
    } else {
        line
    }
}

/// The lines of `text`. A line ends at a line feed; a carriage return just
/// before that line feed belongs to the line ending. The last line needs no
/// line feed, and a text that ends in a line feed has no empty last line.
pub open spec fn lines_of(text: Seq<char>) -> Seq<Seq<char>> {
    let parts = split_on(text, '\n');
    let count = if parts.last().len() == 0 {
        parts.len() - 1
    } else {
        parts.len() as int
    };
    Seq::new(
        count as nat,
        |i: int|
            if i < parts.len() - 1 {
                strip_carriage_return(parts[i])
            } else {
                parts[i]
            },
    )
}

/// Splits `text` into its lines.
pub fn lines(text: &Vec<char>) -> (result: Vec<Vec<char>>)
    ensures
        token_views(result@) == lines_of(text@),
{
    let mut result: Vec<Vec<char>> = Vec::new();
    let mut current: Vec<char> = Vec::new();
    let mut i: usize = 0;
    while i < text.len()
        invariant
            i <= text.len(),
            split_on(text@.take(i as int), '\n').len() == result.len() + 1,
            split_on(text@.take(i as int), '\n').last() == current@,
            forall|k: int|
                0 <= k < result.len() ==> (#[trigger] result[k])@ == strip_carriage_return(
                    split_on(text@.take(i as int), '\n')[k],
                ),
        decreases text.len() - i,
    {
        let c = text[i];
        proof {
            assert(text@.take(i + 1).drop_last() == text@.take(i as int));
            assert(text@.take(i + 1).last() == c);
        }
        if c == '\n' {
            let n = current.len();
            if n > 0 && current[n - 1] == '\r' {
                current.pop();
            }
            result.push(current);
            current = Vec::new();
        } else {
            current.push(c);
        }
        i += 1;
    }
    assert(text@.take(text.len() as int) == text@);
    if current.len() > 0 {
        result.push(current);
    }
    assert(token_views(result@) =~= lines_of(text@));
    result
}

/// Whether `c` is one of the ten decimal digits.
pub open spec fn is_digit(c: char) -> bool {
    '0' <= c <= '9'
}

/// The number that a decimal digit stands for.
pub open spec fn digit_value(c: char) -> int {
    c as int - '0' as int
}

/// Whether every character of `s` is a decimal digit.
pub open spec fn all_digits(s: Seq<char>) -> bool {
    forall|i: int| 0 <= i < s.len() ==> is_digit(#[trigger] s[i])
}

/// The number written by a run of decimal digits, most significant first.
pub open spec fn digits_value(s: Seq<char>) -> int
    decreases s.len(),
{
    if s.len() == 0 {
        0
    } else {
        digits_value(s.drop_last()) * 10 + digit_value(s.last())
    }
}

/// The digits of a signed decimal number: the text without its sign.
pub open spec fn unsigned_part(s: Seq<char>) -> Seq<char> {
    if s.len() > 0 && (s[0] == '-' || s[0] == '+') {
        s.skip(1)
    } else {
        s
    }
}

/// The 64-bit signed number that `s` writes in decimal: an optional `+` or `-`,
/// then one or more digits and nothing else. `None` where `s` has another
/// form or the number does not fit.
pub open spec fn decimal_value(s: Seq<char>) -> Option<i64> {
    let body = unsigned_part(s);
    let magnitude = digits_value(body);
    let value = if s.len() > 0 && s[0] == '-' {
        -magnitude
    } else {
        magnitude
    };
    if body.len() > 0 && all_digits(body) && i64::MIN <= value <= i64::MAX {
        Some(value as i64)
    } else {
        None
    }
}

/// A run of digits never writes a negative number, and more digits never
/// write a smaller one.
pub proof fn lemma_digits_value_grows(s: Seq<char>, k: int)
    requires
        all_digits(s),
        0 <= k <= s.len(),
    ensures
        0 <= digits_value(s.take(k)) <= digits_value(s),
    decreases s.len(),
{
    if s.len() == 0 {
        assert(s.take(k) == s);
    } else if k == s.len() {
        assert(s.take(k) == s);
        lemma_digits_value_grows(s.drop_last(), 0);
        assert(is_digit(s.last()));
    } else {
        lemma_digits_value_grows(s.drop_last(), k);
        assert(s.drop_last().take(k) == s.take(k));
        assert(is_digit(s.last()));
    }
}

fn value_of_digit(c: char) -> (d: Option<u64>)
    ensures
        d is Some <==> is_digit(c),
        d matches Some(v) ==> v == digit_value(c),
{
    if c == '0' {
        Some(0)
    } else if c == '1' {
        Some(1)
    } else if c == '2' {
        Some(2)
    } else if c == '3' {
        Some(3)
    } else if c == '4' {
        Some(4)
    } else if c == '5' {
        Some(5)
    } else if c == '6' {
        Some(6)
    } else if c == '7' {
        Some(7)
    } else if c == '8' {
        Some(8)
    } else if c == '9' {
        Some(9)
    } else {
        None
    }
}

/// Reads a signed decimal number of 64 bits.
pub fn parse_i64(text: &Vec<char>) -> (result: Option<i64>)
    ensures
        result == decimal_value(text@),
{
    let n = text.len();
    if n == 0 {
        return None;
    }
    let negative = text[0] == '-';
    let start: usize = if text[0] == '-' || text[0] == '+' {
        1
    } else {
        0
    };
    if start == n {
        return None;
    }
    let ghost body = unsigned_part(text@);
    let limit: u64 = if negative {
        0x8000_0000_0000_0000
    } else {
        0x7fff_ffff_ffff_ffff
    };
    let mut magnitude: u64 = 0;
    let mut i: usize = start;
    while i < n
        invariant
            start <= i <= n,
            n == text.len(),
            body == text@.skip(start as int),
            body == unsigned_part(text@),
            n > 0,
            negative == (text@[0] == '-'),
            limit == if negative { 0x8000_0000_0000_0000u64 } else { 0x7fff_ffff_ffff_ffffu64 },
            all_digits(body.take(i - start)),
            magnitude == digits_value(body.take(i - start)),
            magnitude <= limit,
            0x7fff_ffff_ffff_ffff <= limit <= 0x8000_0000_0000_0000,
        decreases n - i,
    {
        let c = text[i];
        proof {
            assert(body.take(i - start + 1).drop_last() == body.take(i - start));
            assert(body.take(i - start + 1).last() == c);
            assert(body[i - start] == c);
        }
        let digit: u64 = match value_of_digit(c) {
            Some(d) => d,
            None => {
                assert(!is_digit(body[i - start]));
                return None;
            },
        };
        if magnitude > (limit - digit) / 10 {
            proof {
                if all_digits(body) {
                    lemma_digits_value_grows(body, i - start + 1);
                }
            }
            return None;
        }
        magnitude = magnitude * 10 + digit;
        i += 1;
    }
    assert(body.take(n - start) == body);
    if negative {
        if magnitude == 0x8000_0000_0000_0000 {
            Some(i64::MIN)
        } else {
            Some(-(magnitude as i64))
        }
    } else {
        Some(magnitude as i64)
    }
}

/// The character that writes a number below ten.
pub open spec fn digit_char(d: int) -> char {
    if d == 0 {
        '0'
    } else if d == 1 {
        '1'
    } else if d == 2 {
        '2'
    } else if d == 3 {
        '3'
    } else if d == 4 {
        '4'
    } else if d == 5 {
        '5'
    } else if d == 6 {
        '6'
    } else if d == 7 {
        '7'
    } else if d == 8 {
        '8'
    } else {
        '9'
    }
}

/// The decimal digits of a natural number, without leading zeros.
pub open spec fn natural_text(n: nat) -> Seq<char>
    decreases n,
{
    if n < 10 {
        seq![digit_char(n as int)]
    } else {
        natural_text(n / 10).push(digit_char((n % 10) as int))
    }
}

/// The decimal text of an integer: a `-` for a negative number, then the
/// digits of its magnitude.
pub open spec fn decimal_text(value: int) -> Seq<char> {
    if value < 0 {
        seq!['-'] + natural_text((-value) as nat)
    } else {
        natural_text(value as nat)
    }
}

fn digit_of(d: u64) -> (c: char)
    requires
        d < 10,
    ensures
        c == digit_char(d as int),
{
    if d == 0 {
        '0'
    } else if d == 1 {
        '1'
    } else if d == 2 {
        '2'
    } else if d == 3 {
        '3'
    } else if d == 4 {
        '4'
    } else if d == 5 {
        '5'
    } else if d == 6 {
        '6'
    } else if d == 7 {
        '7'
    } else if d == 8 {
        '8'
    } else {
        '9'
    }
}

/// Writes a 64-bit signed number in decimal.
pub fn format_i64(value: i64) -> (result: String)
    ensures
        result@ == decimal_text(value as int),
{
    let magnitude: u64 = if value < 0 {
        if value == i64::MIN {
            0x8000_0000_0000_0000
        } else {
            (-value) as u64
        }
    } else {
        value as u64
    };
    let mut reversed: Vec<char> = Vec::new();
    reversed.push(digit_of(magnitude % 10));
    let mut rest: u64 = magnitude / 10;
    assert(natural_text(magnitude as nat) == (if rest > 0 {
        natural_text(rest as nat)
    } else {
        Seq::<char>::empty()
    }) + reversed@.reverse());
    while rest > 0
        invariant
            reversed.len() > 0,
            natural_text(magnitude as nat) == (if rest > 0 {
                natural_text(rest as nat)
            } else {
                Seq::<char>::empty()
            }) + reversed@.reverse(),
        decreases rest,
    {
        let ghost before = reversed@;
        reversed.push(digit_of(rest % 10));
        assert(reversed@.reverse() == seq![digit_char((rest % 10) as int)] + before.reverse());
        rest = rest / 10;
    }
    let mut result = String::new();
    if value < 0 {
        result.push('-');
    }
    let ghost sign = result@;
    let mut i: usize = reversed.len();
    while i > 0
        invariant
            i <= reversed.len(),
            result@ == sign + reversed@.reverse().take(reversed.len() - i),
        decreases i,
    {
        i -= 1;
        result.push(reversed[i]);
        assert(reversed@.reverse().take(reversed.len() - i) == reversed@.reverse().take(
            reversed.len() - i - 1,
        ).push(reversed@[i as int]));
    }
    assert(reversed@.reverse().take(reversed.len() as int) == reversed@.reverse());
    result
}

/// The digits of a natural number are digits, at least one of them, and they
/// write that number.
pub proof fn lemma_natural_text(n: nat)
    ensures
        natural_text(n).len() >= 1,
        all_digits(natural_text(n)),
        digits_value(natural_text(n)) == n,
    decreases n,
{
    if n < 10 {
        let s = natural_text(n);
        assert(s.drop_last() == Seq::<char>::empty());
        assert(digits_value(s.drop_last()) == 0);
    } else {
        lemma_natural_text(n / 10);
        let s = natural_text(n);
        assert(s.drop_last() == natural_text(n / 10));
    }
}

/// Reading what was written gives the number back.
pub proof fn lemma_decimal_round_trip(value: i64)
    ensures
        decimal_value(decimal_text(value as int)) == Some(value),
{
    let s = decimal_text(value as int);
    if value < 0 {
        let digits = natural_text((-value) as nat);
        lemma_natural_text((-value) as nat);
        assert(s[0] == '-');
        assert(s.skip(1) == digits);
    } else {
        lemma_natural_text(value as nat);
        assert(is_digit(s[0]));
    }
}

} // verus!
