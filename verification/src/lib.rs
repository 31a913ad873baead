//! A compiler from a compact textual music notation to a MIDI-style event
//! timeline: tokenizer, recursive-descent parser and timeline generator.

pub mod grammar;
pub mod lexer;
pub mod midi;
pub mod parser;
pub mod syntax;
