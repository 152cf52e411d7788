//! Bit-stable value types shared by the arena, the registry and the batch
//! assembler.
//!
//! Point components and transform entries are carried as 32-bit patterns, so
//! every copy the library makes is exact: what is written into the arena is
//! read back bit for bit, and the per-instance uniform layout (two 3x4 affine
//! matrices, stored row-reduced to three 4-vectors each) is stable. The code
//! that produces the values decides what the patterns mean; this core never
//! interprets them.

use vstd::prelude::*;

verus! {

/// One point sample: x, y, z and a per-point auxiliary scalar w (for example
/// a splat radius), each held as a 32-bit pattern.
#[derive(Clone, Copy, Debug, PartialEq, Eq, Structural)]
pub struct PointSample {
    pub x: u32,
    pub y: u32,
    pub z: u32,
    pub w: u32,
}

/// One row of a row-reduced affine matrix: a 4-vector of 32-bit patterns.
#[derive(Clone, Copy, Debug, PartialEq, Eq, Structural)]
pub struct Vec4Row {
    pub x: u32,
    pub y: u32,
    pub z: u32,
    pub w: u32,
}

/// A 3x4 affine world-from-local transform, stored as its three rows. This is
/// the exact GPU-visible layout of each half of the instance uniform.
#[derive(Clone, Copy, Debug, PartialEq, Eq, Structural)]
pub struct Affine3 {
    pub r0: Vec4Row,
    pub r1: Vec4Row,
    pub r2: Vec4Row,
}

impl Affine3 {
    /// The identity pattern is whatever the producer hands in; this helper
    /// only exists so tests and callers can build a transform row by row.
    pub fn from_rows(r0: Vec4Row, r1: Vec4Row, r2: Vec4Row) -> (t: Affine3)
        ensures
            t == (Affine3 { r0, r1, r2 }),
    {
        Affine3 { r0, r1, r2 }
    }
}

} // verus!
