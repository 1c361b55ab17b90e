//! Anchored pattern matching over character sequences.
//!
//! A pattern is parsed into a tree of [`State`] tokens by [`Parser`]; the tokens are then
//! matched greedily, without backtracking, against an input by [`match_states`].
//! Every contract is stated over the mathematical model [`Token`].
pub mod matcher;
pub mod models;
pub mod parser;

pub use matcher::{lemma_empty_pattern_matches, match_length, match_states, once_end, seq_end, token_end};
pub use models::{ParseError, Quantifier, State, Token};
pub use parser::{
    is_operator, lemma_leading_close_rejected, lemma_plain_pattern_tokens, parse, parse_pattern,
    parsed, plain_token, scan, Parser,
};
