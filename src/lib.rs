use vstd::prelude::*;

pub mod error;
pub mod laws;
pub mod lexer;
pub mod position;
pub mod scan;
pub mod tokens;

pub use error::{Error, ErrorPosition, FloatErrorKind, IntErrorKind};
pub use lexer::{run_lexer, Lexer};
pub use position::LexerPosition;
pub use tokens::{Delimiter, Operator, Side, Token};

verus! {

} // verus!
