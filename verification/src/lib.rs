//! A structure editor's core: coordinates, text, a small stack machine, key
//! handling and a JSON reader, each with its contracts.

pub mod strings;
pub mod coord;
pub mod stack;
pub mod interpreter;
pub mod text;
pub mod key;
pub mod construct;
pub mod parse_error;
pub mod json_tokenizer;
pub mod json_parser;
pub mod preprocess;
pub mod screen_buf;
pub mod infra;
pub mod synless_error;
pub mod experimental_tree;
pub mod term_input;
pub mod forest;
pub mod grammar;
pub mod command;
pub mod typed_construct;
pub mod language;
pub mod keymap;
pub mod notation_set;
pub mod json_tree;
