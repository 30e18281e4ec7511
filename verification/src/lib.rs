//! A small local inference runtime: a word tokenizer, a keyword rule model and a
//! Markov text model behind one engine, with the command line, configuration,
//! history and task bookkeeping around them.

pub mod text;
pub mod tokenizer;
pub mod inference;
pub mod cli;
pub mod config;
pub mod history;
pub mod model;
pub mod runtime;
pub mod scheduler;
