//! Fast CSV parsing and encoding primitives.
//!
//! The batch parsers scan the whole input once into a structural index of
//! unquoted separators and row ends; the streaming parsers resume across
//! arbitrary chunk boundaries; the encoder quotes and re-encodes rows.

use vstd::prelude::*;

pub mod base;
pub mod strategy;
pub mod encoder;
pub mod resource;
pub mod dispatch;

verus! {


/// Whether `len` exceeds the batch parsing size limit.
pub fn exceeds_batch_limit(len: usize) -> (r: bool)
    ensures
        r == (len > base::simd_index::MAX_INPUT_SIZE),
{
    len > base::simd_index::MAX_INPUT_SIZE
}

} // verus!
