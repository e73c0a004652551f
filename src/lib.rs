//! An order-N Markov chain over arbitrary tokens, with a text specialisation.
//!
//! A chain learns how often each window of `order` tokens is followed by a
//! given next token, and generates new sequences by a weighted random walk
//! over what it has learnt. For text, a tokenizer splits input into words and
//! punctuation and sentences are generated and joined with natural spacing.
pub mod assoc;
pub mod chain;
pub mod laws;
pub mod model;
mod random;
pub mod store;
pub mod text;
mod token;

pub use chain::Chain;
pub use store::{Link, Node};
pub use text::{is_break, split_sentences, tokenize};
pub use token::Chainable;
