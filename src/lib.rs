//! DNA sequences over the four-letter alphabet, FASTA records, and the small
//! computations built on them: base counts, GC content, profile matrices and
//! consensus strings, motif search and a rabbit-population recurrence.

mod chars;
pub mod counts;
pub mod fasta;
pub mod gc;
pub mod input;
pub mod motif;
pub mod nucleotide;
pub mod population;
pub mod profile;

pub use counts::{BaseCounts, base_counts};
pub use fasta::{FastaError, FastaRecord, FASTA, parse_fasta};
pub use gc::{GcContent, gc, get_gc_percentage, highest_gc};
pub use input::{SubstringInputError, normalize_text, parse_number_pair, parse_substring_input, trim_chars};
pub use motif::is_substring;
pub use nucleotide::{DnaNucleotide, InvalidSymbol, Nucleotide, StringParsable, DNA, parse_dna};
pub use population::{next_generation, rabbits, rabbits_checked};
pub use profile::{LengthMismatch, ProfileMatrix, generate_profile_matrix, get_consensus_string};
