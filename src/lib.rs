//! Lexical core of a GameBoy assembler: a byte cursor, a raw token scanner,
//! a context-sensitive token classifier and a shunting-yard expression builder.

pub mod base_lexer;
pub mod charset;
pub mod expression;
pub mod lexer;
pub mod operator;
pub mod source;
pub mod source_file;
pub mod token;

pub use expression::Expression;
pub use operator::Operator;
pub use base_lexer::BaseLexer;
pub use lexer::Lexer;
pub use source_file::{Linker, SourceFile};
pub use token::{Number, Token, TokenType};
pub use source::{SourceIter, SourceString};
