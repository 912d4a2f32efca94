//! Segmentation of multi-script text (Pali in Latin, Myanmar, Thai or
//! Devanagari script, and mixtures) into sentences and classified tokens.
//!
//! The entry point is [`process_text`]. What it returns is laid down by the
//! spec function [`segmenter::segment`], so that callers can reason about a
//! segmentation without running it.
//!
//! The modules, from the ground up:
//! - [`text`]: texts as sequences of characters, positions in them as byte
//!   offsets;
//! - [`unicode`]: properties of characters, and trimming;
//! - [`bounds`]: the sentence and word boundaries of UAX #29, which come
//!   from `unicode_segmentation`;
//! - [`types`]: the result of a segmentation;
//! - [`classify`]: the kind of a segment;
//! - [`balance`]: the depth of brackets and quotes;
//! - [`markers`]: list markers and abbreviations;
//! - [`tokenizer`]: the tokens of a sentence;
//! - [`sentences`]: the sentences of a document;
//! - [`segmenter`]: the whole, and what holds of every segmentation.

pub mod balance;
pub mod bounds;
pub mod classify;
pub mod markers;
pub mod segmenter;
pub mod sentences;
pub mod text;
pub mod tokenizer;
pub mod types;
pub mod unicode;

pub use segmenter::process_text;
pub use types::{SegResult, Sentence, Token, TokenKind};
