//! A small JSON reader: a lexer that cuts text into tokens, a parser that
//! builds a value tree from tokens, and a printer that writes a value back
//! as text.
pub mod value;
pub mod text;
pub mod lexer;
pub mod parser;
pub mod display;
pub mod laws;
pub mod joining;

pub use value::{JsonValue, LexError, ParseError, Token};
pub use lexer::{Lexer, tokenize};
pub use parser::{Parser, parse};
pub use display::display;
