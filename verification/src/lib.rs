//! A size-optimised, bit-packed columnar codec for small configuration payloads.
//!
//! A payload is a tree of typed values: integers, truth values, strings and nested
//! lists of such values. The [`serializer`] takes the tree apart into four columns
//! and writes them behind a header; the reader fills the columns again and hands the
//! values out in the order in which they were written.
//!
//! The layers, from the bits up:
//!
//! - [`bits`]: sequences of bits and the numbers and bytes that they spell;
//! - [`bit_packer`]: the writer and the reader of a bit stream;
//! - [`varint`]: integers with a unary prefix that selects the payload width;
//! - [`ultra_packer`]: digits of an alphabet bundled into numbers of exact width;
//! - [`huffman`]: the canonical code of at most twelve bits for text;
//! - [`text`]: the forms of a string and the estimate that chooses between them;
//! - [`serializer`]: the columns, the payload and the trees.
//!
//! Every function states what it writes or reads over the model of [`bits`], and the
//! laws of each layer are proved from those statements: what is written is read
//! back, the codes satisfy the Kraft inequality and none starts another, a bundle
//! takes exactly its width, and a string takes the smaller of its two estimates.

pub mod bits;
pub mod bit_packer;
pub mod varint;
pub mod ultra_packer;
pub mod sums;
pub mod huffman;
pub mod text;
pub mod serializer;
