//! Reading schemas from their text form.
//!
//! The language uses significant whitespace (four spaces) for indentation, distinguishes
//! between files and directories by the presence of a `/`, and symlinks by the presence of
//! `->` (followed by the target path expression).
pub mod builder;
pub mod lexical;
pub mod line;
pub mod parse;
pub mod tree;

pub use self::parse::{
    blank_line_of, comment, def_header, end_of_lines, expression_of, operator, parse_schema,
    ErrorEntry, ParseError, SyntaxError,
};
pub use self::tree::Operator;
