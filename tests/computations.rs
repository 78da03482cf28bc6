use rosalind::{
    gc, generate_profile_matrix, get_consensus_string, get_gc_percentage, highest_gc, next_generation,
    parse_fasta, rabbits, DnaNucleotide, FastaError, FastaRecord, GcContent, LengthMismatch, ProfileMatrix,
    StringParsable, DNA, FASTA,
};

fn lines(text: &[&str]) -> Vec<String> {
    text.iter().map(|l| l.to_string()).collect()
}

fn records(seqs: &[&str]) -> FASTA {
    seqs.iter()
        .enumerate()
        .map(|(i, s)| FastaRecord { id: format!(">Rosalind_{}", i + 1), dna: DNA::parse_string(s) })
        .collect()
}

fn cons_records() -> FASTA {
    records(&["ATCCAGCT", "GGGCAACT", "ATGGATCT", "AAGCAACC", "TTGGAACT", "ATGCCATT", "ATGGCACT"])
}

#[test]
fn it_works() {
    assert_eq!(rabbits(5, 3), 19);
}

#[test]
fn rabbits_small_and_wide() {
    assert_eq!(rabbits(1, 3), 1);
    assert_eq!(rabbits(2, 3), 1);
    assert_eq!(rabbits(3, 3), 4);
    assert_eq!(rabbits(6, 1), 8);
    assert_eq!(rabbits(28, 2), 89478485);
    assert_eq!(rabbits(10, 0), 1);
    assert_eq!(next_generation(4, 1, 3), 7);
}

#[test]
fn test_generate_profile_matrix() {
    let data = cons_records();
    let answer = ProfileMatrix {
        a: vec![5, 1, 0, 0, 5, 5, 0, 0],
        c: vec![0, 0, 1, 4, 2, 0, 6, 1],
        g: vec![1, 1, 6, 3, 0, 1, 0, 0],
        t: vec![1, 5, 0, 0, 0, 1, 1, 6],
    };
    let test_answer = generate_profile_matrix(data).unwrap();
    assert_eq!(test_answer, answer);
}

#[test]
fn test_get_consensus_string() {
    let data = cons_records();
    let profile_matrix = generate_profile_matrix(data).unwrap();
    let test_answer = get_consensus_string(&profile_matrix);
    assert_eq!(test_answer, DNA::parse_string("ATGCAACT"));
}

#[test]
fn profile_and_consensus_of_second_set() {
    let data = records(&["ATCCAGCT", "GGGCAACT", "ATGGATCT", "AAGCAACC", "TTGGAACT", "AGGCAACT", "CAGCTCAT"]);
    let p = generate_profile_matrix(data).unwrap();
    assert_eq!(p.a, vec![4, 2, 0, 0, 6, 4, 1, 0]);
    assert_eq!(p.c, vec![1, 0, 1, 5, 0, 1, 6, 1]);
    assert_eq!(p.g, vec![1, 2, 6, 2, 0, 1, 0, 0]);
    assert_eq!(p.t, vec![1, 3, 0, 0, 1, 1, 0, 6]);
    assert_eq!(get_consensus_string(&p), DNA::parse_string("ATGCAACT"));
}

#[test]
fn profile_columns_sum_to_record_count() {
    let p = generate_profile_matrix(cons_records()).unwrap();
    for b in [DnaNucleotide::A, DnaNucleotide::C, DnaNucleotide::G, DnaNucleotide::T] {
        assert_eq!(p.get(&b).unwrap().len(), 8);
    }
    for i in 0..8 {
        assert_eq!(p.a[i] + p.c[i] + p.g[i] + p.t[i], 7);
    }
}

#[test]
fn profile_rejects_unequal_lengths() {
    let mut data = cons_records();
    data.push(FastaRecord { id: ">short".to_string(), dna: DNA::parse_string("ACG") });
    assert_eq!(generate_profile_matrix(data), Err(LengthMismatch));
}

#[test]
fn profile_of_no_records_is_empty() {
    let p = generate_profile_matrix(Vec::new()).unwrap();
    assert!(p.a.is_empty() && p.c.is_empty() && p.g.is_empty() && p.t.is_empty());
    assert_eq!(get_consensus_string(&p), Vec::new());
}

#[test]
fn consensus_ties_go_to_first_base() {
    let p = ProfileMatrix { a: vec![1, 0, 0, 2], c: vec![1, 2, 0, 0], g: vec![0, 2, 1, 0], t: vec![0, 0, 1, 3] };
    assert_eq!(get_consensus_string(&p), DNA::parse_string("ACGT"));
    let short = ProfileMatrix { a: vec![1, 1], c: vec![0], g: vec![0, 0], t: vec![0, 0] };
    assert_eq!(get_consensus_string(&short).len(), 1);
}

#[test]
fn test_gc_content() {
    let result = get_gc_percentage(&DNA::parse_string("AGCTATAG"));
    assert_eq!(result.gc as f64 / result.total as f64, 0.375);
}

#[test]
fn gc_content_extremes() {
    let all_gc = get_gc_percentage(&DNA::parse_string("GCCGGC"));
    assert_eq!(all_gc.gc as f64 / all_gc.total as f64, 1.0);
    let no_gc = get_gc_percentage(&DNA::parse_string("ATTA"));
    assert_eq!(no_gc.gc as f64 / no_gc.total as f64, 0.0);
}

#[test]
fn test_read_fasta() {
    let h = parse_fasta(&lines(&[
        ">Rosalind_6404",
        "CCTGCGGAAGATCGGCACTAGAATAGCCAGAACCGTTTCTCTGAGGCTTCCGGCCTTCCC",
        "TCCCACTAATAATTCTGAGG",
        ">Rosalind_0808",
        "CCACCCTCGTGGTATGGCTAGGCATTCAGGAACCGGAGAACGCTTCAGACCAGCCCGGAC",
        "TGGGAACCTGCGGGCAGTAGGTGGAAT",
    ]))
    .unwrap();
    let rec = h.iter().find(|r| r.id == ">Rosalind_0808").unwrap();
    assert_eq!(
        rec.dna,
        DNA::parse_string("CCACCCTCGTGGTATGGCTAGGCATTCAGGAACCGGAGAACGCTTCAGACCAGCCCGGACTGGGAACCTGCGGGCAGTAGGTGGAAT")
    );
    assert_eq!(h.len(), 2);
}

#[test]
fn fasta_keeps_final_record_and_replaces_duplicates() {
    let h = parse_fasta(&lines(&["", ">a", "AC", ">b", "GG", ">a", "T", "T"])).unwrap();
    assert_eq!(h.len(), 2);
    let a = h.iter().find(|r| r.id == ">a").unwrap();
    assert_eq!(a.dna, DNA::parse_string("TT"));
    let b = h.iter().find(|r| r.id == ">b").unwrap();
    assert_eq!(b.dna, DNA::parse_string("GG"));
}

#[test]
fn fasta_errors() {
    assert_eq!(parse_fasta(&lines(&["ACGT", ">a", "A"])), Err(FastaError::MissingHeader));
    assert_eq!(parse_fasta(&lines(&[])), Err(FastaError::NoRecords));
    assert_eq!(parse_fasta(&lines(&["", ""])), Err(FastaError::NoRecords));
    assert_eq!(parse_fasta(&lines(&[">a", "AC", ">b", "GxN"])), Err(FastaError::InvalidSymbol('x')));
}

#[test]
fn highest_gc_first_of_ties() {
    let recs: FASTA = vec![
        FastaRecord { id: ">x".to_string(), dna: DNA::parse_string("AT") },
        FastaRecord { id: ">y".to_string(), dna: DNA::parse_string("GA") },
        FastaRecord { id: ">z".to_string(), dna: DNA::parse_string("CCAT") },
        FastaRecord { id: ">w".to_string(), dna: DNA::parse_string("") },
    ];
    assert_eq!(highest_gc(&recs), Some(1));
    assert_eq!(highest_gc(&Vec::new()), None);
}

#[test]
fn gc_names_best_record_without_marker() {
    let r = gc(&lines(&[">Rosalind_1", "ATAT", ">Rosalind_2", "GCGA", "T", ">Rosalind_3", "GGAT"])).unwrap();
    assert_eq!(r, ("Rosalind_2".to_string(), GcContent { gc: 3, total: 5 }));
    assert_eq!(gc(&lines(&["GG"])), Err(FastaError::MissingHeader));
}

#[test]
fn gc_names_first_of_tied_records() {
    let r = gc(&lines(&[">first", "GA", ">second", "AATT", ">third", "CT", ">fourth", "AG"])).unwrap();
    assert_eq!(r, ("first".to_string(), GcContent { gc: 1, total: 2 }));
    let r = gc(&lines(&[">e", "", ">a", "AT"])).unwrap();
    assert_eq!(r, ("a".to_string(), GcContent { gc: 0, total: 2 }));
}
