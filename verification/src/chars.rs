//! Text as sequences of characters: splitting into lines, trimming, and
//! decimal numbers.

use vstd::prelude::*;
use crate::names::names;

verus! {

/// Whether a character is white space as Unicode defines it: what
/// `char::is_whitespace` answers.
pub uninterp spec fn whitespace(c: char) -> bool;

/// `char::is_whitespace` tells whether the character has the Unicode
/// property `White_Space`; its answer depends on the character alone.
pub assume_specification[ char::is_whitespace ](c: char) -> (r: bool)
    ensures
        r == whitespace(c),
;

/// `String::push` appends the character to the end of the string.
pub assume_specification[ String::push ](s: &mut String, c: char)
    ensures
        final(s)@ == old(s)@.push(c),
;

/// The characters of a string.
pub fn to_chars(s: &str) -> (v: Vec<char>)
    ensures
        v@ == s@,
{
    let mut v: Vec<char> = Vec::new();
    for c in it: s.chars()
        invariant
            it.seq() == s@,
            v@ == s@.subrange(0, it.index() as int),
    {
        v.push(c);
    }
    v
}

/// The string that holds the characters `v[from..to]`.
pub fn to_string(v: &Vec<char>, from: usize, to: usize) -> (s: String)
    requires
        from <= to <= v@.len(),
    ensures
        s@ == v@.subrange(from as int, to as int),
{
    let mut s = String::new();
    let mut i: usize = from;
    while i < to
        invariant
            from <= i <= to,
            to <= v@.len(),
            s@ == v@.subrange(from as int, i as int),
        decreases to - i,
    {
        s.push(v[i]);
        assert(s@ =~= v@.subrange(from as int, i + 1));
        i += 1;
    }
    s
}

/// The position of the first line feed in `s`, or the length of `s` where it has none.
pub open spec fn first_newline(s: Seq<char>) -> int
    decreases s.len(),
{
    if s.len() == 0 {
        0
    } else if s[0] == '\n' {
        0
    } else {
        1 + first_newline(s.drop_first())
    }
}

/// `s` without a carriage return at its end.
pub open spec fn chomp(s: Seq<char>) -> Seq<char> {
    if s.len() > 0 && s.last() == '\r' {
        s.drop_last()
    } else {
        s
    }
}

/// The lines of a text. A line ends at a line feed; the line feed, and a
/// carriage return right before it, are not part of the line. What follows
/// the last line feed is a line too unless it is empty.
pub open spec fn split_lines(s: Seq<char>) -> Seq<Seq<char>>
    decreases s.len(),
    via split_lines_decreases
{
    if s.len() == 0 {
        Seq::empty()
    } else {
        let i = first_newline(s);
        if i >= s.len() {
            seq![s]
        } else {
            seq![chomp(s.subrange(0, i))] + split_lines(s.subrange(i + 1, s.len() as int))
        }
    }
}

#[via_fn]
proof fn split_lines_decreases(s: Seq<char>) {
    if s.len() > 0 {
        lemma_first_newline(s);
    }
}

/// `first_newline` finds the first line feed.
pub proof fn lemma_first_newline(s: Seq<char>)
    ensures
        0 <= first_newline(s) <= s.len(),
        first_newline(s) < s.len() ==> s[first_newline(s)] == '\n',
        forall|j: int| 0 <= j < first_newline(s) ==> s[j] != '\n',
    decreases s.len(),
{
    if s.len() > 0 && s[0] != '\n' {
        let rest = s.drop_first();
        lemma_first_newline(rest);
        assert forall|j: int| 0 <= j < first_newline(s) implies s[j] != '\n' by {
            if j > 0 {
                assert(s[j] == rest[j - 1]);
            }
        }
        if first_newline(s) < s.len() {
            assert(s[first_newline(s)] == rest[first_newline(rest)]);
        }
    }
}

/// The position of the first line feed of `v` from `from` on.
fn find_newline(v: &Vec<char>, from: usize) -> (i: usize)
    requires
        from <= v@.len(),
    ensures
        from <= i <= v@.len(),
        i - from == first_newline(v@.subrange(from as int, v@.len() as int)),
{
    let ghost rest = v@.subrange(from as int, v@.len() as int);
    let mut i: usize = from;
    while i < v.len() && v[i] != '\n'
        invariant
            from <= i <= v@.len(),
            rest == v@.subrange(from as int, v@.len() as int),
            forall|j: int| from <= j < i ==> v@[j] != '\n',
        decreases v@.len() - i,
    {
        i += 1;
    }
    proof {
        lemma_first_newline(rest);
        let f = first_newline(rest);
        if f < i - from {
            assert(rest[f] == v@[from + f]);
        }
        if f > i - from {
            assert(rest[i - from] == v@[i as int]);
        }
    }
    i
}

/// Splits a text into its lines.
pub fn lines_of(v: &Vec<char>) -> (lines: Vec<String>)
    ensures
        names(lines@) == split_lines(v@),
{
    let mut lines: Vec<String> = Vec::new();
    let mut from: usize = 0;
    let n = v.len();
    proof {
        assert(v@.subrange(0, n as int) =~= v@);
        assert(names(lines@) =~= Seq::<Seq<char>>::empty());
    }
    while from < n
        invariant
            from <= n,
            n == v@.len(),
            names(lines@) + split_lines(v@.subrange(from as int, n as int)) == split_lines(
                v@,
            ),
        decreases n - from,
    {
        let ghost rest = v@.subrange(from as int, n as int);
        let ghost before = names(lines@);
        let end = find_newline(v, from);
        let stop = if end < n && end > from && v[end - 1] == '\r' {
            end - 1
        } else {
            end
        };
        let line = to_string(v, from, stop);
        proof {
            let i = first_newline(rest);
            assert(rest.subrange(0, i) =~= v@.subrange(from as int, end as int));
            if end < n {
                assert(chomp(rest.subrange(0, i)) =~= line@);
                assert(rest.subrange(i + 1, rest.len() as int) =~= v@.subrange(end + 1, n as int));
            } else {
                assert(line@ =~= rest);
                assert(v@.subrange(n as int, n as int) =~= Seq::<char>::empty());
            }
        }
        lines.push(line);
        proof {
            assert(names(lines@) =~= before.push(line@));
            if end < n {
                assert(before.push(line@) + split_lines(v@.subrange(end + 1, n as int)) =~= before + (
                seq![line@] + split_lines(v@.subrange(end + 1, n as int))));
            } else {
                assert(before.push(line@) + split_lines(v@.subrange(n as int, n as int)) =~= before
                    + seq![line@]);
            }
        }
        from = if end < n {
            end + 1
        } else {
            n
        };
    }
    proof {
        assert(v@.subrange(n as int, n as int) =~= Seq::<char>::empty());
        assert(names(lines@) + Seq::<Seq<char>>::empty() =~= names(
            lines@,
        ));
    }
    lines
}

/// `s` without the white space at its start.
pub open spec fn trim_start(s: Seq<char>) -> Seq<char>
    decreases s.len(),
{
    if s.len() > 0 && whitespace(s[0]) {
        trim_start(s.drop_first())
    } else {
        s
    }
}

/// `s` without the white space at its end.
pub open spec fn trim_end(s: Seq<char>) -> Seq<char>
    decreases s.len(),
{
    if s.len() > 0 && whitespace(s.last()) {
        trim_end(s.drop_last())
    } else {
        s
    }
}

/// `s` without the white space at its start and at its end.
pub open spec fn trimmed(s: Seq<char>) -> Seq<char> {
    trim_end(trim_start(s))
}

/// The text without the white space at its start and at its end.
pub fn trim(s: &str) -> (r: String)
    ensures
        r@ == trimmed(s@),
{
    let v = to_chars(s);
    let n = v.len();
    let mut from: usize = 0;
    proof {
        assert(v@.subrange(0, n as int) =~= v@);
    }
    while from < n && v[from].is_whitespace()
        invariant
            from <= n,
            n == v@.len(),
            trim_start(v@) == trim_start(v@.subrange(from as int, n as int)),
        decreases n - from,
    {
        proof {
            let rest = v@.subrange(from as int, n as int);
            assert(rest[0] == v@[from as int]);
            assert(rest.drop_first() =~= v@.subrange(from + 1, n as int));
        }
        from += 1;
    }
    let ghost core = v@.subrange(from as int, n as int);
    assert(trim_start(v@) == core) by {
        if from < n {
            assert(core[0] == v@[from as int]);
        }
    }
    let mut to: usize = n;
    while to > from && v[to - 1].is_whitespace()
        invariant
            from <= to <= n,
            n == v@.len(),
            trim_end(core) == trim_end(v@.subrange(from as int, to as int)),
        decreases to,
    {
        proof {
            let part = v@.subrange(from as int, to as int);
            assert(part.last() == v@[to - 1]);
            assert(part.drop_last() =~= v@.subrange(from as int, to - 1));
        }
        to -= 1;
    }
    proof {
        let part = v@.subrange(from as int, to as int);
        if to > from {
            assert(part.last() == v@[to - 1]);
        }
        assert(trim_end(part) == part);
    }
    to_string(&v, from, to)
}

/// Whether the character is one of the digits `0` to `9`.
pub open spec fn is_digit(c: char) -> bool {
    '0' <= c && c <= '9'
}

/// Whether the text starts with one of the digits `0` to `9`.
pub open spec fn starts_with_digit(s: Seq<char>) -> bool {
    s.len() > 0 && is_digit(s[0])
}

/// Whether the text starts with one of the digits `0` to `9`.
pub fn has_leading_digit(s: &str) -> (r: bool)
    ensures
        r == starts_with_digit(s@),
{
    for c in it: s.chars()
        invariant
            it.seq() == s@,
            it.index() == 0,
    {
        return c >= '0' && c <= '9';
    }
    false
}

/// The number that a text of digits stands for in base ten, or `None`
/// where the text is empty or holds another character.
pub open spec fn decimal_value(s: Seq<char>) -> Option<nat>
    decreases s.len(),
{
    if s.len() == 0 {
        None
    } else if !is_digit(s.last()) {
        None
    } else if s.len() == 1 {
        Some((s.last() as int - '0' as int) as nat)
    } else {
        match decimal_value(s.drop_last()) {
            Some(v) => Some((v * 10 + (s.last() as int - '0' as int)) as nat),
            None => None,
        }
    }
}

/// Reads a number in base ten. Returns `None` where the text is no such
/// number or the number does not fit.
pub fn parse_decimal_wide(s: &str) -> (r: Option<u128>)
    ensures
        r == match decimal_value(s@) {
            Some(v) => if v <= u128::MAX {
                Some(v as u128)
            } else {
                None
            },
            None => None,
        },
{
    let v = to_chars(s);
    let n = v.len();
    if n == 0 {
        return None;
    }
    let mut value: u128 = 0;
    let mut i: usize = 0;
    while i < n
        invariant
            i <= n,
            n == v@.len(),
            n > 0,
            v@ == s@,
            i > 0 ==> decimal_value(v@.subrange(0, i as int)) == Some(value as nat),
            i == 0 ==> value == 0,
        decreases n - i,
    {
        let c = v[i];
        let ghost part = v@.subrange(0, i + 1);
        proof {
            assert(part.last() == c);
            assert(part.drop_last() =~= v@.subrange(0, i as int));
        }
        if !(c >= '0' && c <= '9') {
            proof {
                lemma_decimal_prefix(v@, i + 1);
                assert(v@.subrange(0, n as int) =~= v@);
            }
            return None;
        }
        let d: u128 = ((c as u32) - ('0' as u32)) as u128;
        let next = match value.checked_mul(10) {
            Some(m) => m.checked_add(d),
            None => None,
        };
        match next {
            Some(x) => {
                value = x;
            },
            None => {
                proof {
                    assert(decimal_value(part) == Some((value * 10 + d) as nat));
                    lemma_decimal_grows(v@, i + 1);
                    assert(v@.subrange(0, n as int) =~= v@);
                }
                return None;
            },
        }
        i += 1;
    }
    assert(v@.subrange(0, n as int) =~= v@);
    Some(value)
}

/// Reads a number in base ten. Returns `None` where the text is no such
/// number or the number does not fit.
pub fn parse_decimal(s: &str) -> (r: Option<usize>)
    ensures
        r == match decimal_value(s@) {
            Some(v) => if v <= usize::MAX {
                Some(v as usize)
            } else {
                None
            },
            None => None,
        },
{
    match parse_decimal_wide(s) {
        Some(v) => if v <= usize::MAX as u128 {
            Some(v as usize)
        } else {
            None
        },
        None => None,
    }
}

/// A text with a prefix that is no number is no number.
proof fn lemma_decimal_prefix(s: Seq<char>, m: int)
    requires
        1 <= m <= s.len(),
        decimal_value(s.subrange(0, m)) is None,
    ensures
        decimal_value(s) is None,
    decreases s.len() - m,
{
    if m < s.len() {
        let part = s.subrange(0, m + 1);
        assert(part.drop_last() =~= s.subrange(0, m));
        lemma_decimal_prefix(s, m + 1);
    } else {
        assert(s.subrange(0, m) =~= s);
    }
}

/// A number is at least as large as the number that a prefix of its text stands for.
proof fn lemma_decimal_grows(s: Seq<char>, m: int)
    requires
        1 <= m <= s.len(),
        decimal_value(s.subrange(0, m)) is Some,
    ensures
        decimal_value(s) matches Some(v) ==> v >= decimal_value(s.subrange(0, m))->0,
    decreases s.len() - m,
{
    if m < s.len() {
        let part = s.subrange(0, m + 1);
        assert(part.drop_last() =~= s.subrange(0, m));
        if decimal_value(part) is Some {
            lemma_decimal_grows(s, m + 1);
        } else {
            lemma_decimal_prefix(s, m + 1);
        }
    } else {
        assert(s.subrange(0, m) =~= s);
    }
}

/// The digit that stands for a number below ten.
pub open spec fn digit_char(d: nat) -> char {
    if d == 0 {
        '0'
    } else if d == 1 {
        '1'
    } else if d == 2 {
        '2'
    } else if d == 3 {
        '3'
    } else if d == 4 {
        '4'
    } else if d == 5 {
        '5'
    } else if d == 6 {
        '6'
    } else if d == 7 {
        '7'
    } else if d == 8 {
        '8'
    } else {
        '9'
    }
}

/// A number in base ten, without leading zeros.
pub open spec fn digits_of(n: nat) -> Seq<char>
    decreases n,
{
    if n < 10 {
        seq![digit_char(n)]
    } else {
        digits_of(n / 10).push(digit_char(n % 10))
    }
}

/// A whole number in base ten, with a minus sign where it is negative.
pub open spec fn signed_digits_of(n: int) -> Seq<char> {
    if n < 0 {
        seq!['-'] + digits_of((-n) as nat)
    } else {
        digits_of(n as nat)
    }
}

/// Reading a number that was written in base ten gives the number back.
pub proof fn lemma_digits_round_trip(n: nat)
    ensures
        decimal_value(digits_of(n)) == Some(n),
        digits_of(n).len() >= 1,
    decreases n,
{
    if n >= 10 {
        lemma_digits_round_trip(n / 10);
        assert(digits_of(n).drop_last() =~= digits_of(n / 10));
        assert(digits_of(n).last() == digit_char(n % 10));
    }
}

fn digit(d: u8) -> (c: char)
    requires
        d < 10,
    ensures
        c == digit_char(d as nat),
{
    if d == 0 {
        '0'
    } else if d == 1 {
        '1'
    } else if d == 2 {
        '2'
    } else if d == 3 {
        '3'
    } else if d == 4 {
        '4'
    } else if d == 5 {
        '5'
    } else if d == 6 {
        '6'
    } else if d == 7 {
        '7'
    } else if d == 8 {
        '8'
    } else {
        '9'
    }
}

/// Appends a number in base ten to a string.
pub fn push_decimal(s: &mut String, n: u128)
    ensures
        final(s)@ == old(s)@ + digits_of(n as nat),
    decreases n,
{
    if n >= 10 {
        push_decimal(s, n / 10);
    }
    let ghost before = s@;
    s.push(digit((n % 10) as u8));
    proof {
        if n >= 10 {
            assert(s@ =~= old(s)@ + digits_of(n as nat));
        } else {
            assert(s@ =~= old(s)@ + digits_of(n as nat));
        }
    }
}

/// Appends a whole number in base ten to a string, with a minus sign where it is negative.
pub fn push_signed_decimal(s: &mut String, n: i128)
    ensures
        final(s)@ == old(s)@ + signed_digits_of(n as int),
{
    if n < 0 {
        s.push('-');
        let magnitude: u128 = if n == i128::MIN {
            0x8000_0000_0000_0000_0000_0000_0000_0000u128
        } else {
            (-n) as u128
        };
        push_decimal(s, magnitude);
        assert(s@ =~= old(s)@ + signed_digits_of(n as int));
    } else {
        push_decimal(s, n as u128);
    }
}

} // verus!
