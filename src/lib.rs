//! A whitespace tokenizer: it splits a text on ASCII whitespace and hands out
//! each maximal run of other bytes as a token, with its byte offsets and its
//! ordinal position.

pub mod scan;
pub mod token;
pub mod tokenizers;

pub use token::Token;
pub use tokenizers::WhitespacePuncTokenizer;
pub use tokenizers::WhitespacePuncTokenStream;
