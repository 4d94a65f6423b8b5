//! A verified core for a subtitle-driven text generator: markup
//! sanitization, locale-aware tokenization, an order-k Markov chain with
//! weighted sampling, bracket/quote balancing, line rendering, and the
//! training and generation passes that tie them together.
//!
//! File and model I/O, subtitle container parsing and command-line handling
//! live outside this crate; the functions here work on plain values.

pub mod balance;
pub mod chain;
pub mod error;
pub mod generate;
pub mod opts;
pub mod render;
pub mod sanitize;
pub mod text;
pub mod tokenize;
pub mod train;

pub use balance::balance_symbols;
pub use chain::Chain;
pub use error::{Error, ErrorIter, ResultExt};
pub use generate::{generate_line, generate_lines, generate_subtitle_file};
pub use opts::{parse_duration_ms, Generate, Opts, Screenshots, Train};
pub use render::write_tokens;
pub use sanitize::{sanitize, strip_comment_lines};
pub use tokenize::{is_cjk, tokenize};
pub use train::train_entries;
