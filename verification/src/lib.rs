//! Front end of an indentation-sensitive markup lexer: a character stream that
//! tracks positions and folds line endings, and the tokenizer built on it.

pub mod parser;
