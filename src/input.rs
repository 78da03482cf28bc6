//! Puzzle inputs: two whitespace-separated integers, or a sequence and a
//! motif on two lines, or a single sequence in either case.

use vstd::prelude::*;
use crate::chars::{chars_of, is_space, string_from_chars, to_upper, upper_of, white_space};
use crate::nucleotide::{DNA, parse_chars, is_dna_text, bases_of, first_invalid};

verus! {

/// The whitespace-separated words of `s`, in order.
pub open spec fn words(s: Seq<char>) -> Seq<Seq<char>>
    decreases s.len(),
{
    if s.len() == 0 {
        Seq::empty()
    } else {
        let ws = words(s.drop_last());
        let c = s.last();
        if white_space(c) {
            ws
        } else if s.len() >= 2 && !white_space(s[s.len() - 2]) && ws.len() > 0 {
            ws.drop_last().push(ws.last().push(c))
        } else {
            ws.push(seq![c])
        }
    }
}

pub open spec fn is_digit(c: char) -> bool {
    '0' <= c <= '9'
}

/// The value of a string of decimal digits.
pub open spec fn decimal_value(s: Seq<char>) -> nat
    decreases s.len(),
{
    if s.len() == 0 {
        0
    } else {
        decimal_value(s.drop_last()) * 10 + (s.last() as nat - '0' as nat) as nat
    }
}

/// The digits of a number with an optional leading `+`.
pub open spec fn unsigned_digits(s: Seq<char>) -> Seq<char> {
    if s.len() > 0 && s[0] == '+' { s.drop_first() } else { s }
}

pub open spec fn all_digits(d: Seq<char>) -> bool {
    forall|i: int| 0 <= i < d.len() ==> is_digit(#[trigger] d[i])
}

/// An unsigned decimal number: an optional `+`, then at least one digit,
/// with a value that fits in a `u128`.
pub open spec fn decimal_u128(s: Seq<char>) -> Option<u128> {
    let d = unsigned_digits(s);
    if d.len() > 0 && all_digits(d) && decimal_value(d) <= u128::MAX {
        Some(decimal_value(d) as u128)
    } else {
        None
    }
}

proof fn lemma_decimal_grows(s: Seq<char>, n: int)
    requires
        0 <= n <= s.len(),
        forall|i: int| 0 <= i < s.len() ==> is_digit(#[trigger] s[i]),
    ensures
        decimal_value(s.take(n)) <= decimal_value(s),
    decreases s.len() - n,
{
    if n < s.len() {
        lemma_decimal_grows(s, n + 1);
        assert(s.take(n + 1).drop_last() =~= s.take(n));
    } else {
        assert(s.take(n) =~= s);
    }
}

/// Reads an unsigned decimal number; `None` when `s` is not one or the value
/// does not fit in a `u128`.
pub fn parse_decimal(s: &Vec<char>) -> (r: Option<u128>)
    ensures
        r == decimal_u128(s@),
{
    let start: usize = if s.len() > 0 && s[0] == '+' { 1 } else { 0 };
    let ghost d = unsigned_digits(s@);
    assert(d =~= s@.subrange(start as int, s@.len() as int));
    if start >= s.len() {
        return None;
    }
    let mut value: u128 = 0;
    let mut i: usize = start;
    while i < s.len()
        invariant
            start <= i <= s@.len(),
            d == s@.subrange(start as int, s@.len() as int),
            d == unsigned_digits(s@),
            forall|j: int| 0 <= j < i - start ==> is_digit(#[trigger] d[j]),
            value == decimal_value(d.take(i - start)),
        decreases s@.len() - i,
    {
        let c = s[i];
        let ghost k = i - start;
        assert(d[k] == c);
        if !('0' <= c && c <= '9') {
            assert(!is_digit(d[k]));
            return None;
        }
        assert(d.take(k + 1).drop_last() =~= d.take(k));
        assert(d.take(k + 1).last() == c);
        let digit = (c as u32 - '0' as u32) as u128;
        let tens = match value.checked_mul(10) {
            Some(v) => v,
            None => {
                assert(decimal_value(d.take(k + 1)) == value * 10 + digit);
                proof {
                    if forall|j: int| 0 <= j < d.len() ==> is_digit(#[trigger] d[j]) {
                        lemma_decimal_grows(d, k + 1);
                    }
                }
                return None;
            },
        };
        let next = match tens.checked_add(digit) {
            Some(v) => v,
            None => {
                assert(decimal_value(d.take(k + 1)) == value * 10 + digit);
                proof {
                    if forall|j: int| 0 <= j < d.len() ==> is_digit(#[trigger] d[j]) {
                        lemma_decimal_grows(d, k + 1);
                    }
                }
                return None;
            },
        };
        value = next;
        i = i + 1;
    }
    assert(d.take(i - start) =~= d);
    Some(value)
}

/// Splits text into its whitespace-separated words.
fn split_words(cs: &Vec<char>) -> (r: Vec<Vec<char>>)
    ensures
        r@.len() == words(cs@).len(),
        forall|j: int| 0 <= j < r@.len() ==> #[trigger] r@[j]@ == words(cs@)[j],
{
    let mut toks: Vec<Vec<char>> = Vec::new();
    let mut i: usize = 0;
    while i < cs.len()
        invariant
            i <= cs@.len(),
            toks@.len() == words(cs@.take(i as int)).len(),
            forall|j: int| 0 <= j < toks@.len() ==> #[trigger] toks@[j]@ == words(cs@.take(i as int))[j],
        decreases cs@.len() - i,
    {
        let ghost pre = cs@.take(i as int);
        let ghost next = cs@.take(i + 1);
        assert(next.drop_last() =~= pre);
        let c = cs[i];
        if is_space(c) {
        } else if i >= 1 && !is_space(cs[i - 1]) && toks.len() > 0 {
            assert(next[next.len() - 2] == cs@[i - 1]);
            let mut last = toks.pop().unwrap();
            last.push(c);
            toks.push(last);
        } else {
            if i >= 1 {
                assert(next[next.len() - 2] == cs@[i - 1]);
            }
            let mut w: Vec<char> = Vec::new();
            w.push(c);
            toks.push(w);
            assert(toks@.last()@ =~= seq![c]);
        }
        i = i + 1;
    }
    assert(cs@.take(i as int) =~= cs@);
    toks
}

/// The first two whitespace-separated words of `text` as numbers; words
/// after them are ignored. `None` when there are fewer than two words or
/// one of the two is not an unsigned decimal number that fits in a `u128`.
pub fn parse_number_pair(text: &str) -> (r: Option<(u128, u128)>)
    ensures
        r is Some <==> words(text@).len() >= 2 && decimal_u128(words(text@)[0]) is Some && decimal_u128(
            words(text@)[1],
        ) is Some,
        r matches Some(p) ==> Some(p.0) == decimal_u128(words(text@)[0]) && Some(p.1) == decimal_u128(
            words(text@)[1],
        ),
{
    let cs = chars_of(text);
    let toks = split_words(&cs);
    if toks.len() < 2 {
        return None;
    }
    let a = parse_decimal(&toks[0]);
    let b = parse_decimal(&toks[1]);
    match (a, b) {
        (Some(x), Some(y)) => Some((x, y)),
        _ => None,
    }
}

/// `s.subrange(a, b)` is `s` without its leading and trailing white space.
pub open spec fn is_trim_of(s: Seq<char>, a: int, b: int) -> bool {
    &&& 0 <= a <= b <= s.len()
    &&& forall|i: int| 0 <= i < a ==> white_space(#[trigger] s[i])
    &&& forall|i: int| b <= i < s.len() ==> white_space(#[trigger] s[i])
    &&& a < b ==> !white_space(s[a]) && !white_space(s[b - 1])
}

/// `s` without leading and trailing white space.
pub open spec fn trimmed(s: Seq<char>) -> Seq<char> {
    let (a, b) = choose|a: int, b: int| is_trim_of(s, a, b);
    s.subrange(a, b)
}

/// The pieces of `s` between line feeds, empty ones included.
pub open spec fn split_lines(s: Seq<char>) -> Seq<Seq<char>>
    decreases s.len(),
{
    if s.len() == 0 {
        seq![Seq::empty()]
    } else {
        let ls = split_lines(s.drop_last());
        if s.last() == '\n' {
            ls.push(Seq::empty())
        } else {
            ls.drop_last().push(ls.last().push(s.last()))
        }
    }
}

proof fn lemma_split_lines_nonempty(s: Seq<char>)
    ensures
        split_lines(s).len() > 0,
    decreases s.len(),
{
    if s.len() > 0 {
        lemma_split_lines_nonempty(s.drop_last());
    }
}

proof fn lemma_trim_unique(s: Seq<char>, a: int, b: int)
    requires
        is_trim_of(s, a, b),
    ensures
        trimmed(s) == s.subrange(a, b),
{
    let (a2, b2) = choose|a2: int, b2: int| is_trim_of(s, a2, b2);
    assert(is_trim_of(s, a2, b2));
    if a < b {
        if a2 < b2 {
            if a2 < a {
                assert(white_space(s[a2]));
            }
            if a < a2 {
                assert(white_space(s[a]));
            }
            if b2 < b {
                assert(white_space(s[b - 1]));
            }
            if b < b2 {
                assert(white_space(s[b2 - 1]));
            }
        } else {
            if a < a2 {
                assert(white_space(s[a]));
            } else {
                assert(b2 <= a);
                assert(white_space(s[a]));
            }
        }
    } else if a2 < b2 {
        if a2 < a {
            assert(white_space(s[a2]));
        } else {
            assert(white_space(s[a2]));
        }
    }
    assert(s.subrange(a, b) =~= s.subrange(a2, b2));
}

/// Where `cs` starts and ends once white space is cut off both ends.
fn trim_bounds(cs: &Vec<char>) -> (r: (usize, usize))
    ensures
        is_trim_of(cs@, r.0 as int, r.1 as int),
{
    let mut a: usize = 0;
    while a < cs.len() && is_space(cs[a])
        invariant
            a <= cs@.len(),
            forall|i: int| 0 <= i < a ==> white_space(#[trigger] cs@[i]),
        decreases cs@.len() - a,
    {
        a = a + 1;
    }
    let mut b: usize = cs.len();
    while b > a && is_space(cs[b - 1])
        invariant
            a <= b <= cs@.len(),
            forall|i: int| b <= i < cs@.len() ==> white_space(#[trigger] cs@[i]),
        decreases b - a,
    {
        b = b - 1;
    }
    (a, b)
}

/// `s` without the white space at either end.
pub fn trim_chars(s: &Vec<char>) -> (r: Vec<char>)
    ensures
        r@ == trimmed(s@),
{
    let (a, b) = trim_bounds(s);
    proof {
        lemma_trim_unique(s@, a as int, b as int);
    }
    let mut out: Vec<char> = Vec::new();
    let mut i: usize = a;
    while i < b
        invariant
            a <= i <= b <= s@.len(),
            out@ == s@.subrange(a as int, i as int),
        decreases b - i,
    {
        out.push(s[i]);
        assert(s@.subrange(a as int, i + 1) =~= s@.subrange(a as int, i as int).push(s@[i as int]));
        i = i + 1;
    }
    out
}

/// The text of a single-sequence input: upper-cased, then trimmed of white
/// space at both ends.
pub fn normalize_text(text: &str) -> (r: String)
    ensures
        r@ == trimmed(upper_of(text@)),
{
    let up = to_upper(text);
    let cs = chars_of(up.as_str());
    let t = trim_chars(&cs);
    string_from_chars(&t)
}

/// The lines of a motif-search input: the text trimmed of white space at
/// both ends, then split at line feeds.
pub open spec fn input_lines(s: Seq<char>) -> Seq<Seq<char>> {
    split_lines(trimmed(s))
}

/// Why a motif-search input was not accepted.
#[derive(PartialEq, Eq, Structural, Debug, Clone, Copy)]
pub enum SubstringInputError {
    /// The trimmed text does not hold exactly two lines.
    LineCount,
    /// A line holds a character that is not a base letter.
    InvalidSymbol(char),
}

/// The error for input lines that are not two lines of DNA text.
pub open spec fn input_error(ls: Seq<Seq<char>>) -> SubstringInputError {
    if ls.len() != 2 {
        SubstringInputError::LineCount
    } else if !is_dna_text(ls[0]) {
        SubstringInputError::InvalidSymbol(first_invalid(ls[0]))
    } else {
        SubstringInputError::InvalidSymbol(first_invalid(ls[1]))
    }
}

/// Splits characters at line feeds.
fn split_at_newlines(cs: &Vec<char>, a: usize, b: usize) -> (r: Vec<Vec<char>>)
    requires
        a <= b <= cs@.len(),
    ensures
        r@.len() == split_lines(cs@.subrange(a as int, b as int)).len(),
        forall|j: int| 0 <= j < r@.len() ==> #[trigger] r@[j]@ == split_lines(cs@.subrange(a as int, b as int))[j],
{
    let ghost t = cs@.subrange(a as int, b as int);
    let mut ls: Vec<Vec<char>> = Vec::new();
    ls.push(Vec::new());
    assert(t.take(0) =~= Seq::<char>::empty());
    let mut i: usize = a;
    while i < b
        invariant
            a <= i <= b <= cs@.len(),
            t == cs@.subrange(a as int, b as int),
            ls@.len() == split_lines(t.take(i - a)).len(),
            forall|j: int| 0 <= j < ls@.len() ==> #[trigger] ls@[j]@ == split_lines(t.take(i - a))[j],
        decreases b - i,
    {
        let ghost k = i - a;
        assert(t.take(k + 1).drop_last() =~= t.take(k));
        assert(t.take(k + 1).last() == cs@[i as int]);
        proof {
            lemma_split_lines_nonempty(t.take(k));
        }
        let c = cs[i];
        if c == '\n' {
            ls.push(Vec::new());
        } else {
            let mut last = ls.pop().unwrap();
            last.push(c);
            ls.push(last);
        }
        i = i + 1;
    }
    assert(t.take(i - a) =~= t);
    ls
}

/// Reads a sequence and a motif, one per line, from text trimmed of white
/// space at both ends. Fails unless there are exactly two lines, then on
/// the first character that is not a base letter.
pub fn parse_substring_input(text: &str) -> (r: Result<(DNA, DNA), SubstringInputError>)
    ensures
        r is Ok <==> input_lines(text@).len() == 2 && is_dna_text(input_lines(text@)[0]) && is_dna_text(
            input_lines(text@)[1],
        ),
        r matches Ok(p) ==> p.0@ == bases_of(input_lines(text@)[0]) && p.1@ == bases_of(input_lines(text@)[1]),
        r matches Err(e) ==> e == input_error(input_lines(text@)),
{
    let cs = chars_of(text);
    let (a, b) = trim_bounds(&cs);
    proof {
        lemma_trim_unique(cs@, a as int, b as int);
    }
    let lines = split_at_newlines(&cs, a, b);
    let ghost ls = input_lines(text@);
    if lines.len() != 2 {
        return Err(SubstringInputError::LineCount);
    }
    let main = match parse_chars(&lines[0]) {
        Ok(d) => d,
        Err(e) => {
            return Err(SubstringInputError::InvalidSymbol(e.symbol));
        },
    };
    let motif = match parse_chars(&lines[1]) {
        Ok(d) => d,
        Err(e) => {
            return Err(SubstringInputError::InvalidSymbol(e.symbol));
        },
    };
    Ok((main, motif))
}

} // verus!
