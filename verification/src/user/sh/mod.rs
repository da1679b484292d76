//! The shell: from a line of text to the commands that it asks for.

pub mod command;
pub mod parser;
pub mod render;
pub mod spelling;
pub mod tokenizer;
