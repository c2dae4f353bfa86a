//! Bit-packed grid traversal: a rectangular two-symbol grid packed one bit
//! per cell into 256-bit lanes, with a periodic diagonal path generator and
//! popcount-based hit counting, plus an unpacked per-cell baseline grid that
//! serves as a correctness oracle for the packed implementation.

pub mod bits;
pub mod cells;
pub mod error;
pub mod oracle;
pub mod packed;
pub mod text;
