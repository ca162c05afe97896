//! A precision-aware codec for geographic polylines.
//!
//! An ordered sequence of 2D or 3D fixed-point coordinates is written as a
//! compact, URL-safe ASCII string: a version token, a packed header carrying
//! the precisions and the kind of the third dimension, and a stream of
//! delta-coded coordinates, each delta zigzag-mapped and emitted as a
//! variable-length integer over a 64-symbol alphabet. Decoding is the exact
//! inverse and validates every input byte.

pub mod alphabet;
pub mod header;
pub mod polyline;
pub mod types;
pub mod varint;

pub use header::decode_header;
pub use header::encode_header;
pub use polyline::Polyline;
pub use types::Error;
pub use types::Precision;
pub use types::Type3d;
pub use varint::var_decode_i64;
pub use varint::var_decode_u64;
pub use varint::var_encode_i64;
pub use varint::var_encode_u64;
