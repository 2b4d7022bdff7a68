//! A line-buffered text scanner.
//!
//! A [`LineReadScanner`] holds a source text, buffers one line of it at a
//! time, and consumes structured tokens from the current line: literal or
//! single-character matches, single characters, fixed-length substrings,
//! substrings up to a delimiter, and values parsed from text.  The
//! [`Scanner`] trait states the behaviour of every operation over a
//! mathematical model of the scanner state.

mod parse;
mod pattern;
mod scanner;
mod state;
mod text;

pub use scanner::{
    expect_post, has_next_post, lemma_buffered_implies_unread, lemma_has_next_idempotent,
    lemma_next_failure_exhausts, lemma_scan_to_consumes_delimiter, next_post, scan_post, scan_str,
    scan_str_post, scan_str_to_post, scan_to_post, LineReadScanner, Scanner,
};

pub use parse::{
    all_digits, dec_val, digit_val, is_digit, parse_u32, u32_digits, u32_text_val, u32_text_valid,
    FromText,
};
pub use pattern::{
    first_match, first_match_from, lemma_first_match_found, lemma_first_match_is_match, match_at,
    Pattern,
};
pub use state::{
    canonical, initial, lemma_canonical_props, lemma_next_content_shift,
    lemma_same_view_same_canonical, lemma_trailing_newline_transparent, line_end, next_content,
    ready, remainder, st_wf, tail, ScanState,
};
