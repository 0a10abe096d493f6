//! Text preparation for a sequence model: segmentation, vocabularies,
//! tokenizers, windowed training examples and their batches.

pub mod bpe;
pub mod dataset;
pub mod listing;
pub mod order;
pub mod segment;
pub mod spacing;
pub mod tokenizer;
pub mod vocab;

pub use listing::{Listing, ListingError, ListingOutcome, E2_1, L2_1};
