use rosalind::{normalize_text, parse_number_pair, parse_substring_input, trim_chars, StringParsable, SubstringInputError, DNA};

#[test]
fn test_read_input() {
    let (one, two) = parse_number_pair("28 2\n").unwrap();
    assert_eq!(one, 28);
    assert_eq!(two, 2);
}

#[test]
fn number_pair_whitespace_and_extra_words() {
    assert_eq!(parse_number_pair("  \t5\n\n3 99 x"), Some((5, 3)));
    assert_eq!(parse_number_pair("7\u{3000}+8"), Some((7, 8)));
    assert_eq!(parse_number_pair("340282366920938463463374607431768211455 0"), Some((u128::MAX, 0)));
}

#[test]
fn number_pair_rejections() {
    assert_eq!(parse_number_pair("5"), None);
    assert_eq!(parse_number_pair(""), None);
    assert_eq!(parse_number_pair("5 x3"), None);
    assert_eq!(parse_number_pair("-5 3"), None);
    assert_eq!(parse_number_pair("+ 3"), None);
    assert_eq!(parse_number_pair("340282366920938463463374607431768211456 1"), None);
}

#[test]
fn test_read_subs() {
    let (a, b) = parse_substring_input("GATATATGCATATACTT\nATAT\n").unwrap();
    assert_eq!(a, DNA::parse_string("GATATATGCATATACTT"));
    assert_eq!(b, DNA::parse_string("ATAT"));
}

#[test]
fn substring_input_trims_and_counts_lines() {
    let (a, b) = parse_substring_input("\n  AC\nG \t").unwrap();
    assert_eq!(a, DNA::parse_string("AC"));
    assert_eq!(b, DNA::parse_string("G"));
    assert_eq!(parse_substring_input("ACGT"), Err(SubstringInputError::LineCount));
    assert_eq!(parse_substring_input("ACG\n"), Err(SubstringInputError::LineCount));
    assert_eq!(parse_substring_input("A\nC\nG"), Err(SubstringInputError::LineCount));
    assert_eq!(parse_substring_input("A\n\nC"), Err(SubstringInputError::LineCount));
    assert_eq!(parse_substring_input("   "), Err(SubstringInputError::LineCount));
}

#[test]
fn substring_input_invalid_symbols() {
    assert_eq!(parse_substring_input("AC\r\nGT"), Err(SubstringInputError::InvalidSymbol('\r')));
    assert_eq!(parse_substring_input("AC\nGu"), Err(SubstringInputError::InvalidSymbol('u')));
    assert_eq!(parse_substring_input("xC\nGu"), Err(SubstringInputError::InvalidSymbol('x')));
}

#[test]
fn trim_chars_cuts_white_space_at_both_ends() {
    assert_eq!(trim_chars(&vec![' ', '\t', 'A', ' ', 'C', '\n', '\u{3000}']), vec!['A', ' ', 'C']);
    assert_eq!(trim_chars(&vec![' ', '\n']), Vec::<char>::new());
    assert_eq!(trim_chars(&vec![]), Vec::<char>::new());
}

#[test]
fn normalize_text_upper_cases_and_trims() {
    assert_eq!(normalize_text("  gattaca\n"), "GATTACA");
    assert_eq!(normalize_text("AcGt"), "ACGT");
    assert_eq!(normalize_text("\n\n"), "");
}
