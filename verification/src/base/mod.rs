//! Core primitives: the structural scan, its index, and field extraction.

pub mod simd_index;
pub mod simd_scanner;
pub mod field;
pub mod newlines;
pub mod scanner;
