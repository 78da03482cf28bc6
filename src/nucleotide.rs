//! The DNA alphabet, sequences of it, and their text form.

use vstd::prelude::*;
use crate::chars::{chars_of, string_from_chars};

verus! {

/// One of the four DNA bases.
#[derive(PartialEq, Eq, Structural, Hash, Debug, Clone, Copy)]
pub enum DnaNucleotide {
    A,
    C,
    G,
    T,
}

/// A DNA sequence: the bases in order.
pub type DNA = Vec<DnaNucleotide>;

/// Watson-Crick pairing: A with T, C with G.
pub open spec fn complement_of(b: DnaNucleotide) -> DnaNucleotide {
    match b {
        DnaNucleotide::A => DnaNucleotide::T,
        DnaNucleotide::T => DnaNucleotide::A,
        DnaNucleotide::C => DnaNucleotide::G,
        DnaNucleotide::G => DnaNucleotide::C,
    }
}

/// The canonical upper-case letter of a base.
pub open spec fn char_of(b: DnaNucleotide) -> char {
    match b {
        DnaNucleotide::A => 'A',
        DnaNucleotide::C => 'C',
        DnaNucleotide::G => 'G',
        DnaNucleotide::T => 'T',
    }
}

/// The base that an upper-case letter stands for, if any.
pub open spec fn base_of(c: char) -> Option<DnaNucleotide> {
    if c == 'A' {
        Some(DnaNucleotide::A)
    } else if c == 'C' {
        Some(DnaNucleotide::C)
    } else if c == 'G' {
        Some(DnaNucleotide::G)
    } else if c == 'T' {
        Some(DnaNucleotide::T)
    } else {
        None
    }
}

pub open spec fn is_base_char(c: char) -> bool {
    base_of(c) is Some
}

/// Text made of the four base letters only.
pub open spec fn is_dna_text(s: Seq<char>) -> bool {
    forall|i: int| 0 <= i < s.len() ==> #[trigger] is_base_char(s[i])
}

/// The bases that DNA text spells.
pub open spec fn bases_of(s: Seq<char>) -> Seq<DnaNucleotide> {
    s.map_values(|c: char| base_of(c)->0)
}

/// The text of a sequence, one letter per base.
pub open spec fn text_of(s: Seq<DnaNucleotide>) -> Seq<char> {
    s.map_values(|b: DnaNucleotide| char_of(b))
}

/// `k` is the first position of `s` that holds no base letter.
pub open spec fn first_invalid_at(s: Seq<char>, k: int) -> bool {
    &&& 0 <= k < s.len()
    &&& !is_base_char(s[k])
    &&& forall|j: int| 0 <= j < k ==> #[trigger] is_base_char(s[j])
}

/// The first character of `s` that is not a base letter.
pub open spec fn first_invalid(s: Seq<char>) -> char {
    s[choose|k: int| first_invalid_at(s, k)]
}

proof fn lemma_first_invalid(s: Seq<char>, k: int)
    requires
        first_invalid_at(s, k),
    ensures
        first_invalid(s) == s[k],
{
    let k2 = choose|k: int| first_invalid_at(s, k);
    assert(first_invalid_at(s, k2));
    if k2 < k {
        assert(is_base_char(s[k2]));
    } else if k2 > k {
        assert(is_base_char(s[k]));
    }
}

/// Complementing a base twice gives the base back.
pub proof fn lemma_complement_involution(b: DnaNucleotide)
    ensures
        complement_of(complement_of(b)) == b,
{
}

/// Parsing DNA text and writing the sequence out again gives the same text.
pub proof fn lemma_text_round_trip(s: Seq<char>)
    requires
        is_dna_text(s),
    ensures
        text_of(bases_of(s)) == s,
{
    assert forall|i: int| 0 <= i < s.len() implies text_of(bases_of(s))[i] == s[i] by {
        assert(is_base_char(s[i]));
    }
    assert(text_of(bases_of(s)) =~= s);
}

/// Writing a sequence out and parsing the text gives the same sequence.
pub proof fn lemma_sequence_round_trip(d: Seq<DnaNucleotide>)
    ensures
        is_dna_text(text_of(d)),
        bases_of(text_of(d)) == d,
{
    assert(bases_of(text_of(d)) =~= d);
}

/// A symbol that is not one of the four base letters.
#[derive(PartialEq, Eq, Structural, Debug, Clone, Copy)]
pub struct InvalidSymbol {
    pub symbol: char,
}

/// A kind of nucleotide that pairs with a complementary one.
pub trait Nucleotide: Sized {
    fn complement(&self) -> Self;
}

impl Nucleotide for DnaNucleotide {
    fn complement(&self) -> (r: DnaNucleotide)
        ensures
            r == complement_of(*self),
    {
        match self {
            DnaNucleotide::A => DnaNucleotide::T,
            DnaNucleotide::T => DnaNucleotide::A,
            DnaNucleotide::C => DnaNucleotide::G,
            DnaNucleotide::G => DnaNucleotide::C,
        }
    }
}

/// A sequence type with a text form, one character per item.
pub trait StringParsable: Sized {
    type Item;

    /// The texts that `parse_string` accepts.
    spec fn parsable(seq: Seq<char>) -> bool;

    fn parse_string(seq: &str) -> Self
        requires
            Self::parsable(seq@),
    ;

    fn to_string(&self) -> String;

    fn to_char(base: &Self::Item) -> char;
}

/// Parses DNA text given as characters; fails on the first non-base letter.
pub fn parse_chars(s: &Vec<char>) -> (r: Result<DNA, InvalidSymbol>)
    ensures
        r is Ok <==> is_dna_text(s@),
        r matches Ok(d) ==> d@ == bases_of(s@),
        r matches Err(e) ==> e.symbol == first_invalid(s@),
{
    let mut out: DNA = Vec::new();
    let mut i: usize = 0;
    while i < s.len()
        invariant
            i <= s@.len(),
            is_dna_text(s@.take(i as int)),
            out@ == bases_of(s@.take(i as int)),
        decreases s@.len() - i,
    {
        let c = s[i];
        let b = if c == 'A' {
            DnaNucleotide::A
        } else if c == 'C' {
            DnaNucleotide::C
        } else if c == 'G' {
            DnaNucleotide::G
        } else if c == 'T' {
            DnaNucleotide::T
        } else {
            assert(first_invalid_at(s@, i as int)) by {
                assert forall|j: int| 0 <= j < i implies #[trigger] is_base_char(s@[j]) by {
                    assert(is_base_char(s@.take(i as int)[j]));
                }
            }
            proof {
                lemma_first_invalid(s@, i as int);
            }
            return Err(InvalidSymbol { symbol: c });
        };
        out.push(b);
        assert(s@.take(i + 1) =~= s@.take(i as int).push(c));
        assert(bases_of(s@.take(i + 1)) =~= bases_of(s@.take(i as int)).push(b));
        i = i + 1;
    }
    assert(s@.take(i as int) =~= s@);
    Ok(out)
}

/// Parses DNA text; fails on the first character that is not A, C, G or T.
pub fn parse_dna(seq: &str) -> (r: Result<DNA, InvalidSymbol>)
    ensures
        r is Ok <==> is_dna_text(seq@),
        r matches Ok(d) ==> d@ == bases_of(seq@),
        r matches Err(e) ==> e.symbol == first_invalid(seq@),
{
    let cs = chars_of(seq);
    parse_chars(&cs)
}

/// The letter of a base.
pub fn base_char(base: &DnaNucleotide) -> (r: char)
    ensures
        r == char_of(*base),
{
    match base {
        DnaNucleotide::A => 'A',
        DnaNucleotide::C => 'C',
        DnaNucleotide::G => 'G',
        DnaNucleotide::T => 'T',
    }
}

/// The text of a sequence, one letter per base.
pub fn dna_text(d: &DNA) -> (r: String)
    ensures
        r@ == text_of(d@),
{
    let mut cs: Vec<char> = Vec::new();
    let mut i: usize = 0;
    while i < d.len()
        invariant
            i <= d@.len(),
            cs@ == text_of(d@.take(i as int)),
        decreases d@.len() - i,
    {
        let c = base_char(&d[i]);
        cs.push(c);
        assert(text_of(d@.take(i + 1)) =~= text_of(d@.take(i as int)).push(c));
        i = i + 1;
    }
    assert(d@.take(i as int) =~= d@);
    string_from_chars(&cs)
}

impl StringParsable for DNA {
    type Item = DnaNucleotide;

    open spec fn parsable(seq: Seq<char>) -> bool {
        is_dna_text(seq)
    }

    /// Parses DNA text; the text must hold base letters only (see `parse_dna`).
    fn parse_string(seq: &str) -> (r: DNA)
        ensures
            r@ == bases_of(seq@),
    {
        match parse_dna(seq) {
            Ok(d) => d,
            Err(_) => Vec::new(),
        }
    }

    fn to_string(&self) -> (r: String)
        ensures
            r@ == text_of(self@),
    {
        dna_text(self)
    }

    fn to_char(base: &DnaNucleotide) -> (r: char)
        ensures
            r == char_of(*base),
    {
        base_char(base)
    }
}

} // verus!
