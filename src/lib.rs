//! An interpreter for a small language of rewrite rules over a one-dimensional
//! tape of cells, each of which trades values with its two neighbours until the
//! tape stops changing.
pub mod literal;
pub mod bindings;
pub mod errors;
pub mod expression;
pub mod pattern;
pub mod pattern_list;
pub mod text;
pub mod attributes;
pub mod parser;
pub mod interpreter;
pub mod tokenizer;
pub mod lexer;
pub mod checker;
pub mod parse_expression;
pub mod parse_pattern;
pub mod parse_attribute;
pub mod render;
