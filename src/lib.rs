//! Parser for indented delimiter markup languages.
//!
//! A document is a sequence of nodes; each node starts on a line with an
//! optional indentation, the document-wide delimiter character and a name,
//! followed by free-form content that runs up to the next node line.
//! Nesting is expressed by indentation only.
//!
//! [tokenize] turns a text into tokens, [parse_tokens] folds tokens into a
//! tree of [Node]s, and [Node::document] writes a tree back as text. The
//! dialects of the markup (fixed or detected delimiter, tab indentation,
//! characters of names) are told apart by a [Dialect]. Joining the tokens
//! gives back the text ([lemma_token_round_trip]); writing the tree with the
//! document's own indentation gives back the text ([lemma_round_trip]); and
//! parsing a written tree again gives the same tree ([lemma_reparse]).

mod defs;
mod errors;
mod laws;
mod lines;
mod node;
mod parser;
mod rescan;
mod text;
mod tokenizer;

pub use defs::{NULL, TAB, WS};
pub use errors::{
    err_empty_input, err_expected_indentation, err_expected_node_content, err_expected_node_name,
    err_inconsistent_indentation, err_malformed_indentation, err_unexpected_character,
    err_unexpected_end, message_of, IdmlError,
};
pub use laws::{first_unit, indented_with, lemma_reparse, lemma_round_trip};
pub use lines::{annotations, AnnotatedChar, LineEnding};
pub use node::{document_of, is_root_tree, lower_of, tag_of, trimmed, upper_of, Node, TagCase, Tree};
pub use parser::{
    forest, items_from, parse, parse_in, parse_tokens, parsed, parsed_in, tree_of_tokens, Parser,
};
pub use tokenizer::{
    default_dialect, joined, join_tokens, lemma_mixed_run_rejected, lemma_token_round_trip,
    tokenize, tokenize_in, tokens_in, tokens_of, Dialect, NameChars, Token, TokenView, Tokenizer,
    TokenizerState,
};
