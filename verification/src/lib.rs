//! Subword tokenization: a verified WordPiece vocabulary and matcher —
//! greedy longest-match splitting with continuation-piece marking — and the
//! verified decision core of an adapter over an external sentence-model
//! segmentation engine.

mod sentence;
mod wordpiece;

pub use sentence::EncodedPiece;
pub use sentence::SentenceError;
pub use sentence::SentencePieceProcessor;
pub use sentence::encoding_ids;
pub use sentence::encoding_pieces;
pub use sentence::unzip_encoding;
pub use wordpiece::BuildError;
pub use wordpiece::WordPiece;
pub use wordpiece::WordPieceProcessor;
