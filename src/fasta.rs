//! FASTA text: a header line that starts with `>` names a record, and the
//! lines after it, up to the next header, spell its sequence.

use vstd::prelude::*;
use crate::chars::chars_of;
use crate::nucleotide::{DnaNucleotide, DNA, is_dna_text, bases_of, first_invalid, parse_chars};

verus! {

/// One named sequence; the identifier is the whole header line, marker included.
#[derive(PartialEq, Eq, Debug, Clone)]
pub struct FastaRecord {
    pub id: String,
    pub dna: DNA,
}

/// A FASTA collection: records with pairwise distinct identifiers.
pub type FASTA = Vec<FastaRecord>;

/// Why FASTA text was not accepted.
#[derive(PartialEq, Eq, Structural, Debug, Clone, Copy)]
pub enum FastaError {
    /// Sequence text stands before the first header line.
    MissingHeader,
    /// The text holds no header line at all.
    NoRecords,
    /// A sequence holds a character that is not a base letter.
    InvalidSymbol(char),
}

pub open spec fn is_header(line: Seq<char>) -> bool {
    line.len() > 0 && line[0] == '>'
}

/// The records of FASTA lines as (header, sequence text), in order; `None`
/// when a non-empty line comes before the first header.
pub open spec fn raw_records(lines: Seq<Seq<char>>) -> Option<Seq<(Seq<char>, Seq<char>)>>
    decreases lines.len(),
{
    if lines.len() == 0 {
        Some(Seq::empty())
    } else {
        let line = lines.last();
        match raw_records(lines.drop_last()) {
            None => None,
            Some(rs) => if is_header(line) {
                Some(rs.push((line, Seq::empty())))
            } else if rs.len() == 0 {
                if line.len() == 0 { Some(rs) } else { None }
            } else {
                Some(rs.drop_last().push((rs.last().0, rs.last().1 + line)))
            },
        }
    }
}

/// The records with their sequences parsed, or the first invalid character
/// over all records in order.
pub open spec fn parse_records(rs: Seq<(Seq<char>, Seq<char>)>) -> Result<Seq<(Seq<char>, Seq<DnaNucleotide>)>, char>
    decreases rs.len(),
{
    if rs.len() == 0 {
        Ok(Seq::empty())
    } else {
        match parse_records(rs.drop_last()) {
            Err(c) => Err(c),
            Ok(ps) => if is_dna_text(rs.last().1) {
                Ok(ps.push((rs.last().0, bases_of(rs.last().1))))
            } else {
                Err(first_invalid(rs.last().1))
            },
        }
    }
}

/// Identifier to sequence; a later record replaces an earlier one of the same name.
pub open spec fn map_of(ps: Seq<(Seq<char>, Seq<DnaNucleotide>)>) -> Map<Seq<char>, Seq<DnaNucleotide>>
    decreases ps.len(),
{
    if ps.len() == 0 {
        Map::empty()
    } else {
        map_of(ps.drop_last()).insert(ps.last().0, ps.last().1)
    }
}

/// What the FASTA lines describe: the map from identifier to sequence, or the error.
pub open spec fn fasta_outcome(lines: Seq<Seq<char>>) -> Result<Map<Seq<char>, Seq<DnaNucleotide>>, FastaError> {
    match raw_records(lines) {
        None => Err(FastaError::MissingHeader),
        Some(rs) => if rs.len() == 0 {
            Err(FastaError::NoRecords)
        } else {
            match parse_records(rs) {
                Err(c) => Err(FastaError::InvalidSymbol(c)),
                Ok(ps) => Ok(map_of(ps)),
            }
        },
    }
}

/// The records in order of first appearance of each identifier; a later
/// record with an identifier already seen replaces that entry's sequence.
pub open spec fn collect_records(ps: Seq<(Seq<char>, Seq<DnaNucleotide>)>) -> Seq<(Seq<char>, Seq<DnaNucleotide>)>
    decreases ps.len(),
{
    if ps.len() == 0 {
        Seq::empty()
    } else {
        let acc = collect_records(ps.drop_last());
        let x = ps.last();
        if exists|j: int| 0 <= j < acc.len() && acc[j].0 == x.0 {
            acc.update(choose|j: int| 0 <= j < acc.len() && acc[j].0 == x.0, x)
        } else {
            acc.push(x)
        }
    }
}

/// What the FASTA lines describe, as records in order: the collected
/// records, or the error.
pub open spec fn fasta_records(lines: Seq<Seq<char>>) -> Result<Seq<(Seq<char>, Seq<DnaNucleotide>)>, FastaError> {
    match raw_records(lines) {
        None => Err(FastaError::MissingHeader),
        Some(rs) => if rs.len() == 0 {
            Err(FastaError::NoRecords)
        } else {
            match parse_records(rs) {
                Err(c) => Err(FastaError::InvalidSymbol(c)),
                Ok(ps) => Ok(collect_records(ps)),
            }
        },
    }
}

pub open spec fn line_views(lines: Seq<String>) -> Seq<Seq<char>> {
    lines.map_values(|l: String| l@)
}

pub open spec fn record_views(f: Seq<FastaRecord>) -> Seq<(Seq<char>, Seq<DnaNucleotide>)> {
    f.map_values(|r: FastaRecord| (r.id@, r.dna@))
}

/// The map from identifier to sequence that a collection holds.
pub open spec fn fasta_map(f: Seq<FastaRecord>) -> Map<Seq<char>, Seq<DnaNucleotide>> {
    map_of(record_views(f))
}

/// Every identifier is a header line.
pub open spec fn all_headers(f: Seq<FastaRecord>) -> bool {
    forall|i: int| 0 <= i < f.len() ==> is_header(#[trigger] f[i].id@)
}

pub open spec fn unique_ids(f: Seq<FastaRecord>) -> bool {
    forall|i: int, j: int| 0 <= i < j < f.len() ==> f[i].id@ != f[j].id@
}

/// The sequences of a collection, in its order.
pub open spec fn dna_seqs(f: Seq<FastaRecord>) -> Seq<Seq<DnaNucleotide>> {
    f.map_values(|r: FastaRecord| r.dna@)
}

proof fn lemma_missing_header_persists(lines: Seq<Seq<char>>, i: int)
    requires
        0 <= i <= lines.len(),
        raw_records(lines.take(i)) is None,
    ensures
        raw_records(lines) is None,
    decreases lines.len() - i,
{
    if i < lines.len() {
        assert(lines.take(i + 1).drop_last() =~= lines.take(i));
        lemma_missing_header_persists(lines, i + 1);
    } else {
        assert(lines.take(i) =~= lines);
    }
}

proof fn lemma_parse_error_persists(rs: Seq<(Seq<char>, Seq<char>)>, k: int, c: char)
    requires
        0 <= k <= rs.len(),
        parse_records(rs.take(k)) == Err::<Seq<(Seq<char>, Seq<DnaNucleotide>)>, char>(c),
    ensures
        parse_records(rs) == Err::<Seq<(Seq<char>, Seq<DnaNucleotide>)>, char>(c),
    decreases rs.len() - k,
{
    if k < rs.len() {
        assert(rs.take(k + 1).drop_last() =~= rs.take(k));
        lemma_parse_error_persists(rs, k + 1, c);
    } else {
        assert(rs.take(k) =~= rs);
    }
}

/// In a collection with distinct identifiers, each record's identifier maps
/// to its sequence, and every key of the map is some record's identifier.
pub proof fn lemma_map_of_distinct(ps: Seq<(Seq<char>, Seq<DnaNucleotide>)>)
    requires
        forall|a: int, b: int| 0 <= a < b < ps.len() ==> ps[a].0 != ps[b].0,
    ensures
        forall|k: int| 0 <= k < ps.len() ==> #[trigger] map_of(ps).contains_key(ps[k].0) && map_of(ps)[ps[k].0] == ps[k].1,
        forall|key: Seq<char>| #[trigger] map_of(ps).contains_key(key) ==> exists|k: int| 0 <= k < ps.len() && ps[k].0 == key,
    decreases ps.len(),
{
    if ps.len() > 0 {
        let rest = ps.drop_last();
        assert forall|a: int, b: int| 0 <= a < b < rest.len() implies rest[a].0 != rest[b].0 by {
            assert(rest[a] == ps[a] && rest[b] == ps[b]);
        }
        lemma_map_of_distinct(rest);
        assert forall|k: int| 0 <= k < ps.len() implies #[trigger] map_of(ps).contains_key(ps[k].0) && map_of(ps)[ps[k].0] == ps[k].1 by {
            if k < ps.len() - 1 {
                assert(rest[k] == ps[k]);
                assert(map_of(rest).contains_key(rest[k].0));
                assert(ps[k].0 != ps[ps.len() - 1].0);
            } else {
                assert(ps[k] == ps.last());
            }
        }
        assert forall|key: Seq<char>| #[trigger] map_of(ps).contains_key(key) implies exists|k: int| 0 <= k < ps.len() && ps[k].0 == key by {
            if key != ps.last().0 {
                assert(map_of(rest).contains_key(key));
                let k = choose|k: int| 0 <= k < rest.len() && rest[k].0 == key;
                assert(ps[k] == rest[k]);
            } else {
                assert(ps[ps.len() - 1].0 == key);
            }
        }
    }
}

/// Parsing keeps one entry per record.
proof fn lemma_parse_records_len(rs: Seq<(Seq<char>, Seq<char>)>)
    requires
        parse_records(rs) is Ok,
    ensures
        parse_records(rs)->Ok_0.len() == rs.len(),
    decreases rs.len(),
{
    if rs.len() > 0 {
        lemma_parse_records_len(rs.drop_last());
    }
}

/// A successful parse holds at least one record.
pub proof fn lemma_parsed_nonempty(lines: Seq<Seq<char>>, f: Seq<FastaRecord>)
    requires
        fasta_outcome(lines) == Ok::<Map<Seq<char>, Seq<DnaNucleotide>>, FastaError>(fasta_map(f)),
    ensures
        f.len() > 0,
{
    let rs = raw_records(lines)->Some_0;
    lemma_parse_records_len(rs);
    let ps = parse_records(rs)->Ok_0;
    assert(map_of(ps).contains_key(ps.last().0));
    if f.len() == 0 {
        assert(record_views(f).len() == 0);
        assert(fasta_map(f) == Map::<Seq<char>, Seq<DnaNucleotide>>::empty());
    }
}

proof fn lemma_map_of_update(ps: Seq<(Seq<char>, Seq<DnaNucleotide>)>, j: int, x: (Seq<char>, Seq<DnaNucleotide>))
    requires
        0 <= j < ps.len(),
        ps[j].0 == x.0,
        forall|a: int, b: int| 0 <= a < b < ps.len() ==> ps[a].0 != ps[b].0,
    ensures
        map_of(ps.update(j, x)) == map_of(ps).insert(x.0, x.1),
    decreases ps.len(),
{
    let us = ps.update(j, x);
    if j == ps.len() - 1 {
        assert(us.drop_last() =~= ps.drop_last());
        assert(map_of(us) =~= map_of(ps).insert(x.0, x.1));
    } else {
        let rest = ps.drop_last();
        assert(us.drop_last() =~= rest.update(j, x));
        assert forall|a: int, b: int| 0 <= a < b < rest.len() implies rest[a].0 != rest[b].0 by {
            assert(rest[a] == ps[a] && rest[b] == ps[b]);
        }
        lemma_map_of_update(rest, j, x);
        assert(ps.last().0 != x.0) by {
            assert(ps[j].0 != ps[ps.len() - 1].0);
        }
        assert(map_of(us) =~= map_of(ps).insert(x.0, x.1));
    }
}

/// Reads FASTA lines (line terminators already removed) into a collection
/// keyed by header line. Empty lines before the first header are skipped;
/// a later record replaces an earlier one with the same identifier.
pub fn parse_fasta(lines: &Vec<String>) -> (r: Result<FASTA, FastaError>)
    ensures
        r matches Ok(f) ==> all_headers(f@) && unique_ids(f@) && fasta_outcome(line_views(lines@)) == Ok::<Map<Seq<char>, Seq<DnaNucleotide>>, FastaError>(fasta_map(f@)),
        r matches Ok(f) ==> fasta_records(line_views(lines@)) == Ok::<Seq<(Seq<char>, Seq<DnaNucleotide>)>, FastaError>(record_views(f@)),
        r matches Err(e) ==> fasta_outcome(line_views(lines@)) == Err::<Map<Seq<char>, Seq<DnaNucleotide>>, FastaError>(e),
        r matches Err(e) ==> fasta_records(line_views(lines@)) == Err::<Seq<(Seq<char>, Seq<DnaNucleotide>)>, FastaError>(e),
{
    let ghost lv = line_views(lines@);
    let mut ids: Vec<String> = Vec::new();
    let mut texts: Vec<Vec<char>> = Vec::new();
    let mut i: usize = 0;
    while i < lines.len()
        invariant
            i <= lines@.len(),
            lv == line_views(lines@),
            ids@.len() == texts@.len(),
            forall|j: int| 0 <= j < ids@.len() ==> is_header(#[trigger] ids@[j]@),
            raw_records(lv.take(i as int)) == Some(Seq::new(ids@.len(), |j: int| (ids@[j]@, texts@[j]@))),
        decreases lines@.len() - i,
    {
        let ghost pre = Seq::new(ids@.len(), |j: int| (ids@[j]@, texts@[j]@));
        assert(lv.take(i + 1).drop_last() =~= lv.take(i as int));
        assert(lv.take(i + 1).last() == lines@[i as int]@);
        let mut cs = chars_of(lines[i].as_str());
        if cs.len() > 0 && cs[0] == '>' {
            ids.push(lines[i].clone());
            texts.push(Vec::new());
            assert(Seq::new(ids@.len(), |j: int| (ids@[j]@, texts@[j]@)) =~= pre.push((lines@[i as int]@, Seq::empty())));
        } else if ids.len() == 0 {
            if cs.len() != 0 {
                proof {
                    lemma_missing_header_persists(lv, i + 1);
                }
                return Err(FastaError::MissingHeader);
            }
            assert(Seq::new(ids@.len(), |j: int| (ids@[j]@, texts@[j]@)) =~= pre);
        } else {
            let mut last = texts.pop().unwrap();
            last.append(&mut cs);
            texts.push(last);
            assert(Seq::new(ids@.len(), |j: int| (ids@[j]@, texts@[j]@)) =~= pre.drop_last().push(
                (pre.last().0, pre.last().1 + lines@[i as int]@),
            ));
        }
        i = i + 1;
    }
    assert(lv.take(i as int) =~= lv);
    let ghost rs = Seq::new(ids@.len(), |j: int| (ids@[j]@, texts@[j]@));
    assert(raw_records(lv) == Some(rs));
    if ids.len() == 0 {
        return Err(FastaError::NoRecords);
    }
    let mut out: FASTA = Vec::new();
    let mut k: usize = 0;
    while k < ids.len()
        invariant
            k <= ids@.len(),
            ids@.len() == texts@.len(),
            forall|j: int| 0 <= j < ids@.len() ==> is_header(#[trigger] ids@[j]@),
            rs == Seq::new(ids@.len(), |j: int| (ids@[j]@, texts@[j]@)),
            lv == line_views(lines@),
            raw_records(lv) == Some(rs),
            parse_records(rs.take(k as int)) is Ok,
            fasta_map(out@) == map_of(parse_records(rs.take(k as int))->Ok_0),
            record_views(out@) == collect_records(parse_records(rs.take(k as int))->Ok_0),
            unique_ids(out@),
            all_headers(out@),
        decreases ids@.len() - k,
    {
        let ghost ps = parse_records(rs.take(k as int))->Ok_0;
        assert(rs.take(k + 1).drop_last() =~= rs.take(k as int));
        assert(rs.take(k + 1).last() == (ids@[k as int]@, texts@[k as int]@));
        match parse_chars(&texts[k]) {
            Err(e) => {
                proof {
                    assert(!is_dna_text(rs.take(k + 1).last().1));
                    assert(parse_records(rs.take(k + 1)) == Err::<Seq<(Seq<char>, Seq<DnaNucleotide>)>, char>(e.symbol));
                    lemma_parse_error_persists(rs, k + 1, e.symbol);
                    assert(raw_records(lv) == Some(rs));
                }
                return Err(FastaError::InvalidSymbol(e.symbol));
            },
            Ok(d) => {
                let ghost x = (ids@[k as int]@, d@);
                assert(parse_records(rs.take(k + 1)) == Ok::<Seq<(Seq<char>, Seq<DnaNucleotide>)>, char>(ps.push(x)));
                let rec = FastaRecord { id: ids[k].clone(), dna: d };
                let mut j: usize = 0;
                let mut found = false;
                while j < out.len()
                    invariant_except_break
                        !found,
                    invariant
                        j <= out@.len(),
                        forall|m: int| 0 <= m < j ==> out@[m].id@ != rec.id@,
                    ensures
                        found ==> j < out@.len() && out@[j as int].id@ == rec.id@,
                        !found ==> j == out@.len(),
                    decreases out@.len() - j,
                {
                    if out[j].id == rec.id {
                        found = true;
                        break;
                    }
                    j = j + 1;
                }
                assert(record_views(out@.push(rec)) =~= record_views(out@).push(x));
                assert(ps.push(x).drop_last() =~= ps);
                assert(record_views(out@).push(x).drop_last() =~= record_views(out@));
                let ghost acc = record_views(out@);
                if found {
                    assert(record_views(out@.update(j as int, rec)) =~= record_views(out@).update(j as int, x));
                    proof {
                        lemma_map_of_update(record_views(out@), j as int, x);
                        assert(acc[j as int].0 == x.0);
                        let jj = choose|jj: int| 0 <= jj < acc.len() && acc[jj].0 == x.0;
                        assert(0 <= jj < acc.len() && acc[jj].0 == x.0);
                        if jj != j as int {
                            if jj < j as int {
                                assert(out@[jj].id@ != out@[j as int].id@);
                            } else {
                                assert(out@[j as int].id@ != out@[jj].id@);
                            }
                        }
                        assert(collect_records(ps.push(x)) == acc.update(j as int, x));
                    }
                    out.set(j, rec);
                } else {
                    proof {
                        assert forall|jj: int| 0 <= jj < acc.len() implies acc[jj].0 != x.0 by {
                            assert(acc[jj].0 == out@[jj].id@);
                        }
                        assert(collect_records(ps.push(x)) == acc.push(x));
                    }
                    out.push(rec);
                }
                k = k + 1;
            },
        }
    }
    assert(rs.take(k as int) =~= rs);
    Ok(out)
}

} // verus!
