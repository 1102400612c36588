//! Induction of context-free grammar statistics from bracket-notated
//! constituency parse trees: a tokenizer and recursive-descent parser for
//! the bracket notation, a tree type with preorder traversal, a
//! left-factoring rewrite that binarizes wide expansions, and extraction of
//! rule frequencies and conditional probabilities from a parsed forest.
pub mod factor;
pub mod parse;
pub mod render;
pub mod stats;
pub mod textops;
pub mod token;
pub mod tree;

pub use parse::ParseErr;
pub use stats::extract_rules;
pub use stats::get_all_trees;
pub use stats::grammar_report;
pub use token::parse_tokens;
pub use token::Token;
pub use tree::Node;
pub use tree::TreeIter;
pub use tree::TreeV;
