//! How often each base occurs in a sequence.

use vstd::prelude::*;
use crate::nucleotide::DnaNucleotide;

verus! {

/// The number of positions of `s` that hold `b`.
pub open spec fn count_of(s: Seq<DnaNucleotide>, b: DnaNucleotide) -> nat
    decreases s.len(),
{
    if s.len() == 0 {
        0
    } else {
        count_of(s.drop_last(), b) + if s.last() == b { 1nat } else { 0nat }
    }
}

proof fn lemma_count_of_bounded(s: Seq<DnaNucleotide>, b: DnaNucleotide)
    ensures
        count_of(s, b) <= s.len(),
    decreases s.len(),
{
    if s.len() > 0 {
        lemma_count_of_bounded(s.drop_last(), b);
    }
}

/// The occurrences of each of the four bases in a sequence.
#[derive(PartialEq, Eq, Structural, Debug, Clone, Copy)]
pub struct BaseCounts {
    pub a: u32,
    pub c: u32,
    pub g: u32,
    pub t: u32,
}

impl BaseCounts {
    pub open spec fn count(&self, b: DnaNucleotide) -> u32 {
        match b {
            DnaNucleotide::A => self.a,
            DnaNucleotide::C => self.c,
            DnaNucleotide::G => self.g,
            DnaNucleotide::T => self.t,
        }
    }

    /// The count of base `b`, or `None` when `b` does not occur.
    pub fn get(&self, b: &DnaNucleotide) -> (r: Option<u32>)
        ensures
            r == (if self.count(*b) > 0 { Some(self.count(*b)) } else { None }),
    {
        let n = match b {
            DnaNucleotide::A => self.a,
            DnaNucleotide::C => self.c,
            DnaNucleotide::G => self.g,
            DnaNucleotide::T => self.t,
        };
        if n > 0 {
            Some(n)
        } else {
            None
        }
    }
}

/// Counts the occurrences of each base in `seq`.
pub fn base_counts(seq: &[DnaNucleotide]) -> (r: BaseCounts)
    requires
        seq@.len() <= u32::MAX,
    ensures
        forall|b: DnaNucleotide| #[trigger] r.count(b) == count_of(seq@, b),
{
    let mut r = BaseCounts { a: 0, c: 0, g: 0, t: 0 };
    let mut i: usize = 0;
    while i < seq.len()
        invariant
            i <= seq@.len(),
            seq@.len() <= u32::MAX,
            forall|b: DnaNucleotide| #[trigger] r.count(b) == count_of(seq@.take(i as int), b),
        decreases seq@.len() - i,
    {
        let ghost pre = seq@.take(i as int);
        assert(seq@.take(i + 1).drop_last() =~= pre);
        proof {
            lemma_count_of_bounded(pre, DnaNucleotide::A);
            lemma_count_of_bounded(pre, DnaNucleotide::C);
            lemma_count_of_bounded(pre, DnaNucleotide::G);
            lemma_count_of_bounded(pre, DnaNucleotide::T);
            assert(r.count(DnaNucleotide::A) == count_of(pre, DnaNucleotide::A));
            assert(r.count(DnaNucleotide::C) == count_of(pre, DnaNucleotide::C));
            assert(r.count(DnaNucleotide::G) == count_of(pre, DnaNucleotide::G));
            assert(r.count(DnaNucleotide::T) == count_of(pre, DnaNucleotide::T));
        }
        match seq[i] {
            DnaNucleotide::A => r.a = r.a + 1,
            DnaNucleotide::C => r.c = r.c + 1,
            DnaNucleotide::G => r.g = r.g + 1,
            DnaNucleotide::T => r.t = r.t + 1,
        }
        i = i + 1;
        assert forall|b: DnaNucleotide| #[trigger] r.count(b) == count_of(seq@.take(i as int), b) by {
            match b {
                DnaNucleotide::A => {},
                DnaNucleotide::C => {},
                DnaNucleotide::G => {},
                DnaNucleotide::T => {},
            }
        }
    }
    assert(seq@.take(i as int) =~= seq@);
    r
}

} // verus!
