//! A terminal source-code pretty-printer core: a byte-class lexical scanner
//! that turns raw bytes into positioned tokens, and a stateful single-pass
//! highlighter that assigns each token a color tag from a declarative grammar
//! of standalone regex rules and begin/end region rules.

pub mod config;
pub mod highlighting;
pub mod language_pattern;
pub mod logger;
pub mod token;
pub mod tokenizer;
