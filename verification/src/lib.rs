//! Front end for device-tree source text: a tokenizer and event parser,
//! a verified tree model addressed by structural paths and labels, and a
//! builder that applies parsed events to the tree.

pub mod builder;
pub mod dt_lexer;
pub mod dt_node;
pub mod laws;
pub mod root;
