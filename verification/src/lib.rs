//! Embeds a byte payload into a triangle mesh by rewriting the
//! least-significant bits of vertex coordinates, and recovers it later.
//!
//! The mesh is reduced to a sequence of 128-bit packed vertex keys; a
//! bit-addressing scheme selects, per key, which positions carry payload
//! bits; streaming codecs pump a length-prefixed frame through those
//! positions in both directions.

pub mod addressing;
pub mod bitmath;
pub mod bitqueue;
pub mod drive;
pub mod errors;
pub mod laws;
pub mod manip;
pub mod reader_writer;
pub mod survey;
pub mod vertex;

use vstd::prelude::*;

verus! {

} // verus!
