use rosalind::nucleotide::parse_chars;
use rosalind::{base_counts, is_substring, parse_dna, DnaNucleotide, InvalidSymbol, Nucleotide, StringParsable, DNA};

#[test]
fn test_is_substring() {
    let v = is_substring(DNA::parse_string("AGCAG"), DNA::parse_string("AG"));
    assert_eq!(v, vec![1, 4])
}

#[test]
fn test_base_counts() {
    let seq = DNA::parse_string(
        &"AGCTTTTCATTCTGACTGCAACGGGCAATATGTCTCTGTGTGGATTAAAAAAAGAGTGTCTGATAGCAGC".to_string(),
    );
    let answer = base_counts(&seq);
    let answer = [
        answer.get(&DnaNucleotide::A).unwrap().to_owned(),
        answer.get(&DnaNucleotide::C).unwrap().to_owned(),
        answer.get(&DnaNucleotide::G).unwrap().to_owned(),
        answer.get(&DnaNucleotide::T).unwrap().to_owned(),
    ];
    assert_eq!(answer, [20, 12, 17, 21]);
}

#[test]
fn parse_then_text_gives_text_back() {
    for text in ["", "A", "GATTACA", "TTTTCCCCGGGGAAAA"] {
        let d = DNA::parse_string(text);
        assert_eq!(d.len(), text.len());
        assert_eq!(d.to_string(), text);
    }
}

#[test]
fn parse_maps_each_letter() {
    let d = DNA::parse_string("ACGT");
    assert_eq!(d, vec![DnaNucleotide::A, DnaNucleotide::C, DnaNucleotide::G, DnaNucleotide::T]);
    assert_eq!(DNA::to_char(&DnaNucleotide::G), 'G');
}

#[test]
fn parse_rejects_first_invalid_symbol() {
    assert_eq!(parse_dna("ACxGTN"), Err(InvalidSymbol { symbol: 'x' }));
    assert_eq!(parse_dna("acgt"), Err(InvalidSymbol { symbol: 'a' }));
    assert_eq!(parse_dna("GAT"), Ok(vec![DnaNucleotide::G, DnaNucleotide::A, DnaNucleotide::T]));
    assert_eq!(parse_chars(&vec!['A', 'U']), Err(InvalidSymbol { symbol: 'U' }));
}

#[test]
fn complement_pairs_and_is_involution() {
    assert_eq!(DnaNucleotide::A.complement(), DnaNucleotide::T);
    assert_eq!(DnaNucleotide::C.complement(), DnaNucleotide::G);
    for b in [DnaNucleotide::A, DnaNucleotide::C, DnaNucleotide::G, DnaNucleotide::T] {
        assert_ne!(b.complement(), b);
        assert_eq!(b.complement().complement(), b);
    }
}

#[test]
fn base_counts_of_empty_sequence() {
    let c = base_counts(&[]);
    for b in [DnaNucleotide::A, DnaNucleotide::C, DnaNucleotide::G, DnaNucleotide::T] {
        assert_eq!(c.get(&b), None);
    }
    assert_eq!(c.a + c.c + c.g + c.t, 0);
    let c = base_counts(&DNA::parse_string("GGA"));
    assert_eq!(c.get(&DnaNucleotide::G), Some(2));
    assert_eq!(c.get(&DnaNucleotide::A), Some(1));
    assert_eq!(c.get(&DnaNucleotide::C), None);
}

#[test]
fn substring_overlapping_matches() {
    let v = is_substring(DNA::parse_string("GATATATGCATATACTT"), DNA::parse_string("ATAT"));
    assert_eq!(v, vec![2, 4, 10]);
}

#[test]
fn substring_motif_longer_or_empty() {
    assert_eq!(is_substring(DNA::parse_string("AG"), DNA::parse_string("AGC")), Vec::<usize>::new());
    assert_eq!(is_substring(DNA::parse_string("AG"), DNA::parse_string("")), vec![1, 2, 3]);
    assert_eq!(is_substring(DNA::parse_string("AG"), DNA::parse_string("AG")), vec![1]);
    assert_eq!(is_substring(DNA::parse_string("CCC"), DNA::parse_string("G")), Vec::<usize>::new());
}
