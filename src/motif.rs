//! Positions at which a motif occurs in a longer sequence.

use vstd::prelude::*;
use crate::nucleotide::{DnaNucleotide, DNA};

verus! {

/// `motif` occurs in `main` starting at the 0-based position `p`.
pub open spec fn occurs_at(main: Seq<DnaNucleotide>, motif: Seq<DnaNucleotide>, p: int) -> bool {
    &&& 0 <= p
    &&& p + motif.len() <= main.len()
    &&& main.subrange(p, p + motif.len()) == motif
}

/// Whether `motif` matches `main` at `p`, compared base by base.
fn matches_at(main: &DNA, motif: &DNA, p: usize) -> (r: bool)
    requires
        p + motif@.len() <= main@.len(),
        main@.len() <= usize::MAX,
    ensures
        r == occurs_at(main@, motif@, p as int),
{
    let mut k: usize = 0;
    while k < motif.len()
        invariant
            k <= motif@.len(),
            p + motif@.len() <= main@.len(),
            main@.len() <= usize::MAX,
            forall|j: int| 0 <= j < k ==> main@[p + j] == motif@[j],
        decreases motif@.len() - k,
    {
        if main[p + k] != motif[k] {
            assert(main@.subrange(p as int, p + motif@.len())[k as int] != motif@[k as int]);
            return false;
        }
        k = k + 1;
    }
    assert(main@.subrange(p as int, p + motif@.len()) =~= motif@);
    true
}

/// The 1-based positions at which `motif` occurs in `main`, overlapping
/// occurrences included, in ascending order. A motif longer than `main`
/// occurs nowhere; the empty motif occurs at every position.
pub fn is_substring(main: DNA, motif: DNA) -> (r: Vec<usize>)
    requires
        main@.len() < usize::MAX,
    ensures
        forall|i: int| 0 <= i < r@.len() ==> 1 <= #[trigger] r@[i] && occurs_at(main@, motif@, r@[i] - 1),
        forall|i: int, j: int| 0 <= i < j < r@.len() ==> r@[i] < r@[j],
        forall|p: int| occurs_at(main@, motif@, p) ==> r@.contains((p + 1) as usize),
{
    let mut out: Vec<usize> = Vec::new();
    if motif.len() > main.len() {
        return out;
    }
    let last = main.len() - motif.len();
    let mut p: usize = 0;
    while p <= last
        invariant
            last == main@.len() - motif@.len(),
            main@.len() < usize::MAX,
            p <= last + 1,
            forall|i: int| 0 <= i < out@.len() ==> 1 <= #[trigger] out@[i] <= p && occurs_at(main@, motif@, out@[i] - 1),
            forall|i: int, j: int| 0 <= i < j < out@.len() ==> out@[i] < out@[j],
            forall|q: int| 0 <= q < p && occurs_at(main@, motif@, q) ==> out@.contains((q + 1) as usize),
        decreases last + 1 - p,
    {
        if matches_at(&main, &motif, p) {
            let ghost prev = out@;
            out.push(p + 1);
            assert(out@[out@.len() - 1] == p + 1);
            assert forall|q: int| 0 <= q < p + 1 && occurs_at(main@, motif@, q) implies out@.contains((q + 1) as usize) by {
                if q < p {
                    assert(prev.contains((q + 1) as usize));
                    let w = choose|w: int| 0 <= w < prev.len() && prev[w] == (q + 1) as usize;
                    assert(out@[w] == (q + 1) as usize);
                } else {
                    assert(out@[out@.len() - 1] == (q + 1) as usize);
                }
            }
        }
        p = p + 1;
    }
    out
}

} // verus!
