//! Prime-field arithmetic and a binary Merkle commitment scheme.
//!
//! The field is the integers modulo `3 * 2^30 + 1`. A Merkle tree commits to a
//! sequence of field elements; an authentication path proves that one leaf is
//! part of the committed sequence.

pub mod fermat;
pub mod field;
pub mod merkle;
pub mod polynomials;
pub mod utils;
