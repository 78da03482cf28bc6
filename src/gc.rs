//! GC content of sequences, and the record of a collection with the most.

use vstd::prelude::*;
use crate::chars::{chars_of, string_from_chars};
use crate::nucleotide::{DnaNucleotide, DNA};
use crate::fasta::{FastaError, FASTA, dna_seqs, fasta_outcome, fasta_records, fasta_map, line_views, record_views, parse_fasta,
    lemma_map_of_distinct, lemma_parsed_nonempty};

verus! {

pub open spec fn is_gc(b: DnaNucleotide) -> bool {
    b == DnaNucleotide::C || b == DnaNucleotide::G
}

/// The number of C and G bases in `s`.
pub open spec fn gc_count_of(s: Seq<DnaNucleotide>) -> nat
    decreases s.len(),
{
    if s.len() == 0 {
        0
    } else {
        gc_count_of(s.drop_last()) + if is_gc(s.last()) { 1nat } else { 0nat }
    }
}

proof fn lemma_gc_count_bounded(s: Seq<DnaNucleotide>)
    ensures
        gc_count_of(s) <= s.len(),
    decreases s.len(),
{
    if s.len() > 0 {
        lemma_gc_count_bounded(s.drop_last());
    }
}

/// A sequence of C and G only has GC content 1 (all its bases count); one of
/// A and T only has GC content 0.
pub proof fn lemma_gc_extremes(s: Seq<DnaNucleotide>)
    ensures
        (forall|i: int| 0 <= i < s.len() ==> is_gc(#[trigger] s[i])) ==> gc_count_of(s) == s.len(),
        (forall|i: int| 0 <= i < s.len() ==> !is_gc(#[trigger] s[i])) ==> gc_count_of(s) == 0,
    decreases s.len(),
{
    if s.len() > 0 {
        let rest = s.drop_last();
        lemma_gc_extremes(rest);
        if forall|i: int| 0 <= i < s.len() ==> is_gc(#[trigger] s[i]) {
            assert forall|i: int| 0 <= i < rest.len() implies is_gc(#[trigger] rest[i]) by {
                assert(rest[i] == s[i]);
            }
            assert(is_gc(s[s.len() - 1]));
        }
        if forall|i: int| 0 <= i < s.len() ==> !is_gc(#[trigger] s[i]) {
            assert forall|i: int| 0 <= i < rest.len() implies !is_gc(#[trigger] rest[i]) by {
                assert(rest[i] == s[i]);
            }
            assert(!is_gc(s[s.len() - 1]));
        }
    }
}

/// GC content as the fraction `gc / total`: C and G bases over all bases.
#[derive(PartialEq, Eq, Structural, Debug, Clone, Copy)]
pub struct GcContent {
    pub gc: usize,
    pub total: usize,
}

/// GC content `g1 / n1` is strictly above `g2 / n2`; an empty sequence has
/// the lowest GC content of all.
pub open spec fn gc_above(g1: int, n1: int, g2: int, n2: int) -> bool {
    n1 > 0 && (n2 == 0 || g1 * n2 > g2 * n1)
}

proof fn lemma_gc_chain(gx: int, nx: int, gy: int, ny: int, gz: int, nz: int)
    requires
        0 <= nx && 0 <= ny && 0 <= nz,
        !gc_above(gx, nx, gy, ny),
        gc_above(gz, nz, gy, ny),
    ensures
        gc_above(gz, nz, gx, nx),
        !gc_above(gx, nx, gz, nz),
{
    if nx > 0 {
        assert(ny > 0 && gx * ny <= gy * nx);
        assert(gx * ny * nz <= gy * nx * nz) by (nonlinear_arith)
            requires
                gx * ny <= gy * nx,
                nz > 0,
        ;
        assert(gy * nz * nx < gz * ny * nx) by (nonlinear_arith)
            requires
                gz * ny > gy * nz,
                nx > 0,
        ;
        assert(gx * nz < gz * nx) by (nonlinear_arith)
            requires
                gx * ny * nz <= gy * nx * nz,
                gy * nz * nx < gz * ny * nx,
                ny > 0,
        ;
    }
}

/// The GC content of a sequence, as C and G bases over all bases.
pub fn get_gc_percentage(seq: &DNA) -> (r: GcContent)
    ensures
        r.gc == gc_count_of(seq@),
        r.total == seq@.len(),
{
    let mut gc: usize = 0;
    let mut i: usize = 0;
    while i < seq.len()
        invariant
            i <= seq@.len(),
            gc == gc_count_of(seq@.take(i as int)),
        decreases seq@.len() - i,
    {
        let ghost pre = seq@.take(i as int);
        assert(seq@.take(i + 1).drop_last() =~= pre);
        proof {
            lemma_gc_count_bounded(pre);
        }
        match seq[i] {
            DnaNucleotide::C | DnaNucleotide::G => gc = gc + 1,
            DnaNucleotide::A | DnaNucleotide::T => {},
        }
        i = i + 1;
    }
    assert(seq@.take(i as int) =~= seq@);
    GcContent { gc, total: seq.len() }
}

/// `k` holds the highest GC content of `seqs`, and no record before it has as much.
pub open spec fn is_first_highest(seqs: Seq<Seq<DnaNucleotide>>, k: int) -> bool {
    &&& 0 <= k < seqs.len()
    &&& forall|j: int| 0 <= j < seqs.len() ==> !gc_above(
        gc_count_of(#[trigger] seqs[j]) as int,
        seqs[j].len() as int,
        gc_count_of(seqs[k]) as int,
        seqs[k].len() as int,
    )
    &&& forall|j: int| 0 <= j < k ==> gc_above(
        gc_count_of(seqs[k]) as int,
        seqs[k].len() as int,
        gc_count_of(#[trigger] seqs[j]) as int,
        seqs[j].len() as int,
    )
}

/// Whether `x` is strictly above `y`, compared without division.
fn content_above(x: GcContent, y: GcContent) -> (r: bool)
    requires
        x.gc <= x.total,
        y.gc <= y.total,
    ensures
        r == gc_above(x.gc as int, x.total as int, y.gc as int, y.total as int),
{
    if x.total == 0 {
        false
    } else if y.total == 0 {
        true
    } else {
        assert(x.gc as int <= 0xffff_ffff_ffff_ffff && y.gc as int <= 0xffff_ffff_ffff_ffff);
        assert(x.total as int <= 0xffff_ffff_ffff_ffff && y.total as int <= 0xffff_ffff_ffff_ffff);
        assert((x.gc as u128) * (y.total as u128) <= 0xffff_ffff_ffff_fffe_0000_0000_0000_0001u128) by (nonlinear_arith)
            requires
                x.gc as int <= 0xffff_ffff_ffff_ffff,
                y.total as int <= 0xffff_ffff_ffff_ffff,
        ;
        assert((y.gc as u128) * (x.total as u128) <= 0xffff_ffff_ffff_fffe_0000_0000_0000_0001u128) by (nonlinear_arith)
            requires
                y.gc as int <= 0xffff_ffff_ffff_ffff,
                x.total as int <= 0xffff_ffff_ffff_ffff,
        ;
        let lhs = (x.gc as u128) * (y.total as u128);
        let rhs = (y.gc as u128) * (x.total as u128);
        lhs > rhs
    }
}

/// The index of the record with the highest GC content; ties go to the
/// first such record. `None` for an empty collection.
pub fn highest_gc(seqs: &FASTA) -> (r: Option<usize>)
    ensures
        r is None <==> seqs@.len() == 0,
        r matches Some(k) ==> is_first_highest(dna_seqs(seqs@), k as int),
{
    let ghost all = dna_seqs(seqs@);
    if seqs.len() == 0 {
        return None;
    }
    let mut best: usize = 0;
    let mut best_gc = get_gc_percentage(&seqs[0].dna);
    proof {
        lemma_gc_count_bounded(all[0]);
    }
    let mut i: usize = 1;
    while i < seqs.len()
        invariant
            1 <= i <= seqs@.len(),
            all == dna_seqs(seqs@),
            best < i,
            best_gc.gc == gc_count_of(all[best as int]),
            best_gc.total == all[best as int].len(),
            best_gc.gc <= best_gc.total,
            forall|j: int| 0 <= j < i ==> !gc_above(
                gc_count_of(#[trigger] all[j]) as int,
                all[j].len() as int,
                best_gc.gc as int,
                best_gc.total as int,
            ),
            forall|j: int| 0 <= j < best ==> gc_above(
                best_gc.gc as int,
                best_gc.total as int,
                gc_count_of(#[trigger] all[j]) as int,
                all[j].len() as int,
            ),
        decreases seqs@.len() - i,
    {
        let cur = get_gc_percentage(&seqs[i].dna);
        assert(all[i as int] == seqs@[i as int].dna@);
        proof {
            lemma_gc_count_bounded(all[i as int]);
        }
        if content_above(cur, best_gc) {
            assert forall|j: int| 0 <= j < i implies !gc_above(
                gc_count_of(#[trigger] all[j]) as int,
                all[j].len() as int,
                cur.gc as int,
                cur.total as int,
            ) && gc_above(
                cur.gc as int,
                cur.total as int,
                gc_count_of(all[j]) as int,
                all[j].len() as int,
            ) by {
                lemma_gc_chain(
                    gc_count_of(all[j]) as int,
                    all[j].len() as int,
                    best_gc.gc as int,
                    best_gc.total as int,
                    cur.gc as int,
                    cur.total as int,
                );
            }
            best = i;
            best_gc = cur;
        }
        i = i + 1;
    }
    Some(best)
}

/// `name` and `content` describe a record of `m` whose GC content no record of `m` exceeds.
pub open spec fn is_highest_entry(m: Map<Seq<char>, Seq<DnaNucleotide>>, name: Seq<char>, content: GcContent) -> bool {
    exists|id: Seq<char>| {
        &&& #[trigger] m.contains_key(id)
        &&& id.len() > 0
        &&& name == id.drop_first()
        &&& content.gc == gc_count_of(m[id])
        &&& content.total == m[id].len()
        &&& forall|other: Seq<char>| #[trigger] m.contains_key(other) ==> !gc_above(
            gc_count_of(m[other]) as int,
            m[other].len() as int,
            content.gc as int,
            content.total as int,
        )
    }
}

/// Record `k` of `rs` is the first with the highest GC content, and `name`
/// and `content` are its identifier without the marker and its GC content.
pub open spec fn names_first_highest(
    rs: Seq<(Seq<char>, Seq<DnaNucleotide>)>,
    k: int,
    name: Seq<char>,
    content: GcContent,
) -> bool {
    &&& is_first_highest(rs.map_values(|p: (Seq<char>, Seq<DnaNucleotide>)| p.1), k)
    &&& rs[k].0.len() > 0
    &&& name == rs[k].0.drop_first()
    &&& content.gc == gc_count_of(rs[k].1)
    &&& content.total == rs[k].1.len()
}

/// Some record of `rs` is the first with the highest GC content, named by
/// `name` and `content`.
pub open spec fn names_first_highest_of(rs: Seq<(Seq<char>, Seq<DnaNucleotide>)>, name: Seq<char>, content: GcContent) -> bool {
    exists|k: int| #[trigger] names_first_highest(rs, k, name, content)
}

/// Reads FASTA lines and names the record with the highest GC content: its
/// identifier without the leading marker, and its GC content.
pub fn gc(lines: &Vec<String>) -> (r: Result<(String, GcContent), FastaError>)
    ensures
        r matches Err(e) ==> fasta_outcome(line_views(lines@)) == Err::<Map<Seq<char>, Seq<DnaNucleotide>>, FastaError>(e),
        r matches Ok((name, content)) ==> fasta_outcome(line_views(lines@)) matches Ok(m) && is_highest_entry(m, name@, content),
        r matches Err(e) ==> fasta_records(line_views(lines@)) == Err::<Seq<(Seq<char>, Seq<DnaNucleotide>)>, FastaError>(e),
        r is Ok ==> fasta_records(line_views(lines@)) is Ok,
        r matches Ok(p) ==> names_first_highest_of(fasta_records(line_views(lines@))->Ok_0, p.0@, p.1),
{
    let f = match parse_fasta(lines) {
        Err(e) => return Err(e),
        Ok(f) => f,
    };
    proof {
        lemma_parsed_nonempty(line_views(lines@), f@);
    }
    let k = match highest_gc(&f) {
        Some(k) => k,
        None => return Err(FastaError::NoRecords),
    };
    let content = get_gc_percentage(&f[k].dna);
    let id = chars_of(f[k].id.as_str());
    let mut name: Vec<char> = Vec::new();
    let mut j: usize = 1;
    while j < id.len()
        invariant
            1 <= j <= id@.len() || id@.len() == 0,
            id@.len() > 0 ==> name@ == id@.subrange(1, j as int),
        decreases id@.len() - j,
    {
        name.push(id[j]);
        assert(id@.subrange(1, j + 1) =~= id@.subrange(1, j as int).push(id@[j as int]));
        j = j + 1;
    }
    let s = string_from_chars(&name);
    proof {
        let ghost m = fasta_map(f@);
        let ghost all = dna_seqs(f@);
        let ghost rv = record_views(f@);
        assert(id@.len() > 0);
        assert(rv.map_values(|p: (Seq<char>, Seq<DnaNucleotide>)| p.1) =~= all);
        assert(names_first_highest(rv, k as int, s@, content));
        assert(names_first_highest(fasta_records(line_views(lines@))->Ok_0, k as int, s@, content));
        assert(id@.drop_first() =~= id@.subrange(1, j as int));
        assert forall|a: int, b: int| 0 <= a < b < rv.len() implies rv[a].0 != rv[b].0 by {}
        lemma_map_of_distinct(rv);
        assert(rv[k as int].0 == id@);
        assert(m.contains_key(id@));
        assert(m[id@] == all[k as int]);
        assert forall|other: Seq<char>| #[trigger] m.contains_key(other) implies !gc_above(
            gc_count_of(m[other]) as int,
            m[other].len() as int,
            content.gc as int,
            content.total as int,
        ) by {
            let w = choose|w: int| 0 <= w < rv.len() && rv[w].0 == other;
            assert(m[other] == all[w]);
        }
    }
    assert(names_first_highest_of(fasta_records(line_views(lines@))->Ok_0, s@, content));
    Ok((s, content))
}

} // verus!
