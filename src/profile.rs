//! Profile matrices of equal-length sequences, and the consensus they give.

use vstd::prelude::*;
use crate::nucleotide::{DnaNucleotide, DNA};
use crate::fasta::{FASTA, dna_seqs};

verus! {

/// How many of `seqs` hold base `b` at position `i`.
pub open spec fn count_at(seqs: Seq<Seq<DnaNucleotide>>, i: int, b: DnaNucleotide) -> nat
    decreases seqs.len(),
{
    if seqs.len() == 0 {
        0
    } else {
        count_at(seqs.drop_last(), i, b) + if seqs.last()[i] == b { 1nat } else { 0nat }
    }
}

/// Every sequence has the length of the first.
pub open spec fn same_lengths(seqs: Seq<Seq<DnaNucleotide>>) -> bool {
    forall|k: int| 0 <= k < seqs.len() ==> #[trigger] seqs[k].len() == seqs[0].len()
}

/// The common length of the sequences (none: zero).
pub open spec fn common_len(seqs: Seq<Seq<DnaNucleotide>>) -> nat {
    if seqs.len() == 0 { 0 } else { seqs[0].len() }
}

/// Per-position counts of each base over a set of sequences.
#[derive(PartialEq, Eq, Debug, Clone)]
pub struct ProfileMatrix {
    pub a: Vec<usize>,
    pub c: Vec<usize>,
    pub g: Vec<usize>,
    pub t: Vec<usize>,
}

/// The sequences given to a profile differ in length.
#[derive(PartialEq, Eq, Structural, Debug, Clone, Copy)]
pub struct LengthMismatch;

impl ProfileMatrix {
    /// The counts of base `b`, one per position.
    pub open spec fn row(&self, b: DnaNucleotide) -> Seq<usize> {
        match b {
            DnaNucleotide::A => self.a@,
            DnaNucleotide::C => self.c@,
            DnaNucleotide::G => self.g@,
            DnaNucleotide::T => self.t@,
        }
    }

    /// `self` is the profile of `seqs`.
    pub open spec fn is_profile_of(&self, seqs: Seq<Seq<DnaNucleotide>>) -> bool {
        forall|b: DnaNucleotide|
            {
                &&& #[trigger] self.row(b).len() == common_len(seqs)
                &&& forall|i: int|
                    0 <= i < common_len(seqs) ==> #[trigger] self.row(b)[i] == count_at(seqs, i, b)
            }
    }

    /// The counts of base `b`, one per position; every base has a row.
    pub fn get(&self, b: &DnaNucleotide) -> (r: Option<&Vec<usize>>)
        ensures
            r matches Some(v) && v@ == self.row(*b),
    {
        match b {
            DnaNucleotide::A => Some(&self.a),
            DnaNucleotide::C => Some(&self.c),
            DnaNucleotide::G => Some(&self.g),
            DnaNucleotide::T => Some(&self.t),
        }
    }
}

proof fn lemma_count_bounded(seqs: Seq<Seq<DnaNucleotide>>, i: int, b: DnaNucleotide)
    ensures
        count_at(seqs, i, b) <= seqs.len(),
    decreases seqs.len(),
{
    if seqs.len() > 0 {
        lemma_count_bounded(seqs.drop_last(), i, b);
    }
}

/// At each position of equal-length sequences, the four base counts add up
/// to the number of sequences.
pub proof fn lemma_counts_sum(seqs: Seq<Seq<DnaNucleotide>>, i: int)
    requires
        same_lengths(seqs),
        0 <= i < common_len(seqs),
    ensures
        count_at(seqs, i, DnaNucleotide::A) + count_at(seqs, i, DnaNucleotide::C)
            + count_at(seqs, i, DnaNucleotide::G) + count_at(seqs, i, DnaNucleotide::T)
            == seqs.len(),
    decreases seqs.len(),
{
    assert(seqs[seqs.len() - 1].len() == seqs[0].len());
    let rest = seqs.drop_last();
    if rest.len() > 0 {
        assert(rest[0] == seqs[0]);
        assert forall|k: int| 0 <= k < rest.len() implies #[trigger] rest[k].len() == rest[0].len() by {
            assert(rest[k] == seqs[k]);
        }
        lemma_counts_sum(rest, i);
    } else {
        assert(count_at(rest, i, DnaNucleotide::A) == 0);
        assert(count_at(rest, i, DnaNucleotide::C) == 0);
        assert(count_at(rest, i, DnaNucleotide::G) == 0);
        assert(count_at(rest, i, DnaNucleotide::T) == 0);
    }
}

/// The profile of a sequence set has one row per base, each as long as the
/// sequences, and at every position the four counts add up to the number of
/// sequences.
pub proof fn lemma_profile_shape(p: ProfileMatrix, seqs: Seq<Seq<DnaNucleotide>>, i: int)
    requires
        same_lengths(seqs),
        p.is_profile_of(seqs),
        0 <= i < common_len(seqs),
    ensures
        p.a@.len() == common_len(seqs),
        p.c@.len() == common_len(seqs),
        p.g@.len() == common_len(seqs),
        p.t@.len() == common_len(seqs),
        p.a@[i] + p.c@[i] + p.g@[i] + p.t@[i] == seqs.len(),
{
    assert(p.row(DnaNucleotide::A) == p.a@);
    assert(p.row(DnaNucleotide::C) == p.c@);
    assert(p.row(DnaNucleotide::G) == p.g@);
    assert(p.row(DnaNucleotide::T) == p.t@);
    assert(p.row(DnaNucleotide::A)[i] == count_at(seqs, i, DnaNucleotide::A));
    assert(p.row(DnaNucleotide::C)[i] == count_at(seqs, i, DnaNucleotide::C));
    assert(p.row(DnaNucleotide::G)[i] == count_at(seqs, i, DnaNucleotide::G));
    assert(p.row(DnaNucleotide::T)[i] == count_at(seqs, i, DnaNucleotide::T));
    lemma_counts_sum(seqs, i);
}

/// Counts, for each base, the records whose sequence holds it at `pos`.
fn column_counts(seqs: &FASTA, pos: usize) -> (r: (usize, usize, usize, usize))
    requires
        forall|k: int| 0 <= k < seqs@.len() ==> pos < #[trigger] seqs@[k].dna@.len(),
    ensures
        r.0 == count_at(dna_seqs(seqs@), pos as int, DnaNucleotide::A),
        r.1 == count_at(dna_seqs(seqs@), pos as int, DnaNucleotide::C),
        r.2 == count_at(dna_seqs(seqs@), pos as int, DnaNucleotide::G),
        r.3 == count_at(dna_seqs(seqs@), pos as int, DnaNucleotide::T),
{
    let ghost all = dna_seqs(seqs@);
    let ghost i = pos as int;
    let mut ca: usize = 0;
    let mut cc: usize = 0;
    let mut cg: usize = 0;
    let mut ct: usize = 0;
    let mut k: usize = 0;
    while k < seqs.len()
        invariant
            k <= seqs@.len(),
            all == dna_seqs(seqs@),
            i == pos,
            forall|j: int| 0 <= j < seqs@.len() ==> pos < #[trigger] seqs@[j].dna@.len(),
            ca == count_at(all.take(k as int), i, DnaNucleotide::A),
            cc == count_at(all.take(k as int), i, DnaNucleotide::C),
            cg == count_at(all.take(k as int), i, DnaNucleotide::G),
            ct == count_at(all.take(k as int), i, DnaNucleotide::T),
        decreases seqs@.len() - k,
    {
        let ghost pre = all.take(k as int);
        let ghost next = all.take(k + 1);
        assert(next.drop_last() =~= pre);
        assert(next.last() == seqs@[k as int].dna@);
        proof {
            lemma_count_bounded(pre, i, DnaNucleotide::A);
            lemma_count_bounded(pre, i, DnaNucleotide::C);
            lemma_count_bounded(pre, i, DnaNucleotide::G);
            lemma_count_bounded(pre, i, DnaNucleotide::T);
        }
        match seqs[k].dna[pos] {
            DnaNucleotide::A => ca = ca + 1,
            DnaNucleotide::C => cc = cc + 1,
            DnaNucleotide::G => cg = cg + 1,
            DnaNucleotide::T => ct = ct + 1,
        }
        k = k + 1;
    }
    assert(all.take(k as int) =~= all);
    (ca, cc, cg, ct)
}

/// Builds the profile matrix of the records' sequences: for each position and
/// base, how many sequences hold that base there. Fails when the sequences
/// differ in length; no records give four empty rows.
pub fn generate_profile_matrix(seqs: FASTA) -> (r: Result<ProfileMatrix, LengthMismatch>)
    ensures
        r is Ok <==> same_lengths(dna_seqs(seqs@)),
        r matches Ok(p) ==> p.is_profile_of(dna_seqs(seqs@)),
{
    let ghost all = dna_seqs(seqs@);
    let len: usize = if seqs.len() == 0 { 0 } else { seqs[0].dna.len() };
    let mut k: usize = 0;
    while k < seqs.len()
        invariant
            k <= seqs@.len(),
            all == dna_seqs(seqs@),
            len == common_len(all),
            forall|j: int| 0 <= j < k ==> #[trigger] seqs@[j].dna@.len() == len,
        decreases seqs@.len() - k,
    {
        if seqs[k].dna.len() != len {
            assert(all[k as int].len() != all[0].len());
            return Err(LengthMismatch);
        }
        k = k + 1;
    }
    assert(same_lengths(all)) by {
        assert forall|j: int| 0 <= j < all.len() implies #[trigger] all[j].len() == all[0].len() by {
            assert(all[j] == seqs@[j].dna@);
        }
    }
    let mut a: Vec<usize> = Vec::new();
    let mut c: Vec<usize> = Vec::new();
    let mut g: Vec<usize> = Vec::new();
    let mut t: Vec<usize> = Vec::new();
    let mut i: usize = 0;
    while i < len
        invariant
            i <= len,
            all == dna_seqs(seqs@),
            len == common_len(all),
            forall|j: int| 0 <= j < seqs@.len() ==> #[trigger] seqs@[j].dna@.len() == len,
            a@.len() == i && c@.len() == i && g@.len() == i && t@.len() == i,
            forall|j: int| 0 <= j < i ==> #[trigger] a@[j] == count_at(all, j, DnaNucleotide::A),
            forall|j: int| 0 <= j < i ==> #[trigger] c@[j] == count_at(all, j, DnaNucleotide::C),
            forall|j: int| 0 <= j < i ==> #[trigger] g@[j] == count_at(all, j, DnaNucleotide::G),
            forall|j: int| 0 <= j < i ==> #[trigger] t@[j] == count_at(all, j, DnaNucleotide::T),
        decreases len - i,
    {
        let (na, nc, ng, nt) = column_counts(&seqs, i);
        a.push(na);
        c.push(nc);
        g.push(ng);
        t.push(nt);
        i = i + 1;
    }
    let p = ProfileMatrix { a, c, g, t };
    assert(p.is_profile_of(all)) by {
        assert forall|b: DnaNucleotide| #[trigger] p.row(b).len() == common_len(all) && (forall|j: int|
            0 <= j < common_len(all) ==> #[trigger] p.row(b)[j] == count_at(all, j, b)) by {
            match b {
                DnaNucleotide::A => {},
                DnaNucleotide::C => {},
                DnaNucleotide::G => {},
                DnaNucleotide::T => {},
            }
        }
    }
    Ok(p)
}

/// The consensus base of one position's counts: the base with the largest
/// count, ties going to the first of A, C, G, T.
pub open spec fn consensus_base(a: int, c: int, g: int, t: int) -> DnaNucleotide {
    if a >= c && a >= g && a >= t {
        DnaNucleotide::A
    } else if c >= g && c >= t {
        DnaNucleotide::C
    } else if g >= t {
        DnaNucleotide::G
    } else {
        DnaNucleotide::T
    }
}

/// The number of positions that all four rows cover.
pub open spec fn aligned_len(p: ProfileMatrix) -> int {
    let m1 = if p.a@.len() <= p.c@.len() { p.a@.len() } else { p.c@.len() };
    let m2 = if p.g@.len() <= p.t@.len() { p.g@.len() } else { p.t@.len() };
    if m1 <= m2 { m1 as int } else { m2 as int }
}

/// The consensus sequence of a profile: at each position that all four rows
/// cover, the base with the largest count; ties go to the first of A, C, G, T.
pub fn get_consensus_string(profile_matrix: &ProfileMatrix) -> (r: DNA)
    ensures
        r@.len() == aligned_len(*profile_matrix),
        forall|i: int| 0 <= i < r@.len() ==> #[trigger] r@[i] == consensus_base(
            profile_matrix.a@[i] as int,
            profile_matrix.c@[i] as int,
            profile_matrix.g@[i] as int,
            profile_matrix.t@[i] as int,
        ),
{
    let p = profile_matrix;
    let m1 = if p.a.len() <= p.c.len() { p.a.len() } else { p.c.len() };
    let m2 = if p.g.len() <= p.t.len() { p.g.len() } else { p.t.len() };
    let n = if m1 <= m2 { m1 } else { m2 };
    let mut out: DNA = Vec::new();
    let mut i: usize = 0;
    while i < n
        invariant
            i <= n,
            n == aligned_len(*p),
            out@.len() == i,
            forall|j: int| 0 <= j < i ==> #[trigger] out@[j] == consensus_base(
                p.a@[j] as int,
                p.c@[j] as int,
                p.g@[j] as int,
                p.t@[j] as int,
            ),
        decreases n - i,
    {
        let (a, c, g, t) = (p.a[i], p.c[i], p.g[i], p.t[i]);
        let b = if a >= c && a >= g && a >= t {
            DnaNucleotide::A
        } else if c >= g && c >= t {
            DnaNucleotide::C
        } else if g >= t {
            DnaNucleotide::G
        } else {
            DnaNucleotide::T
        };
        out.push(b);
        i = i + 1;
    }
    out
}

} // verus!
