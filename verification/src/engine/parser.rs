//! Parsing of pattern text into an abstract syntax tree.

mod error;
mod parse;

pub use error::ParseError;
pub use parse::{parse, Ast};
pub use parse::{
    ast_view, collapse_spec, escape_spec, finalize_spec, init_state, is_empty_cat, is_meta,
    lemma_seq_view_props, make_or_spec, or_core_spec, parse_spec, pstep, psq_node, res_view,
    scan_spec, seq_view, AstS, PState, Psq,
};
pub use parse::{lemma_invalid_escape_rejected, lemma_trailing_or_rejected, lemma_unclosed_group_rejected};
