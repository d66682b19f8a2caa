pub mod ast;
pub mod tokenizer;

pub use ast::statement::{Node, Statement};
pub use ast::value::Value;
pub use ast::{decode_escapes, ParseError, AST};
pub use tokenizer::direction::Direction;
pub use tokenizer::lexer_error::LexerError;
pub use tokenizer::lexer_options::LexerOptions;
pub use tokenizer::source_cursor::SourceCursor;
pub use tokenizer::to_direction::ToDirection;
pub use tokenizer::token::{Span, Token, TokenKind};
pub use tokenizer::Tokenizer;

use vstd::prelude::*;
use vstd::utf8::encode_utf8;

use tokenizer::source_cursor::char_at;

verus! {

/// The library's entry point for tokenizing query text.
pub struct QL;

impl QL {
    /// Tokenizes `payload`; the same as [`Tokenizer::lexer`].
    pub fn lexer(payload: &str) -> (r: Result<Vec<Token>, LexerError>)
        ensures
            match tokenizer::model::tokenize(encode_utf8(payload@)) {
                Ok(ls) => r is Ok && tokenizer::token::views(r->Ok_0@) == ls,
                Err(p) => r == Err::<Vec<Token>, LexerError>(
                    LexerError::SymbolInvalid(p as usize, Some(char_at(encode_utf8(payload@), p))),
                ),
            },
            r is Ok ==> tokenizer::token::faithful(r->Ok_0@, encode_utf8(payload@)),
            r is Ok ==> tokenizer::laws::joined(encode_utf8(payload@), tokenizer::token::views(r->Ok_0@))
                == encode_utf8(payload@),
    {
        Tokenizer::lexer(payload)
    }
}

} // verus!
