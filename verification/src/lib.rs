//! A lossless byte-stream compressor built on a frequency-ranked chain code.
//!
//! Every distinct byte of the input is ranked by how often it occurs. The
//! ranking alone shapes a chain of code words: the most frequent byte gets one
//! bit, the next two bits, and so on, the last two bytes sharing the longest
//! length. The packed bits travel in a container that carries the ranking, so
//! a reader can invert the encoding from the container alone.

pub mod bits;
pub mod code;
pub mod codec;
pub mod container;
pub mod error;
pub mod rank;
pub mod tree;

pub use codec::{decode, encode};
pub use container::Encoded;
pub use error::HuffError;
pub use rank::count_frequencies;
pub use tree::{HuffmanTree, Node};
