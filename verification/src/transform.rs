//! Transform matrices for the scene graph.
//!
//! A transform is a 4x4 matrix over 64-bit integers, composed by matrix
//! multiplication with wrapping arithmetic; composition is total and exact,
//! and deliberately non-commutative (a translation and a rotation do not
//! commute). A world transform is a node's transform in the root's
//! coordinate space: the parent's world transform composed with the node's
//! local transform.

use vstd::prelude::*;

verus! {

/// One entry of a matrix product: the wrapping dot product of a row of the
/// left factor with a column of the right factor.
pub open spec fn dot4(
    a0: i64,
    b0: i64,
    a1: i64,
    b1: i64,
    a2: i64,
    b2: i64,
    a3: i64,
    b3: i64,
) -> i64 {
    a0.wrapping_mul(b0).wrapping_add(a1.wrapping_mul(b1)).wrapping_add(
        a2.wrapping_mul(b2),
    ).wrapping_add(a3.wrapping_mul(b3))
}

/// A 4x4 transform matrix, row-major: `mRC` is the entry at row `R`,
/// column `C`. For an affine transform the translation sits in the last
/// column (`m03`, `m13`, `m23`).
#[derive(Clone, Copy, PartialEq, Eq, Structural, Debug)]
pub struct Mat4 {
    pub m00: i64,
    pub m01: i64,
    pub m02: i64,
    pub m03: i64,
    pub m10: i64,
    pub m11: i64,
    pub m12: i64,
    pub m13: i64,
    pub m20: i64,
    pub m21: i64,
    pub m22: i64,
    pub m23: i64,
    pub m30: i64,
    pub m31: i64,
    pub m32: i64,
    pub m33: i64,
}

impl Mat4 {
    /// The identity transform.
    pub open spec fn identity_spec() -> Mat4 {
        Mat4 {
            m00: 1,
            m01: 0,
            m02: 0,
            m03: 0,
            m10: 0,
            m11: 1,
            m12: 0,
            m13: 0,
            m20: 0,
            m21: 0,
            m22: 1,
            m23: 0,
            m30: 0,
            m31: 0,
            m32: 0,
            m33: 1,
        }
    }

    /// The matrix product `a * b`: applying `b` first, then `a`.
    pub open spec fn compose_spec(a: Mat4, b: Mat4) -> Mat4 {
        Mat4 {
            m00: dot4(a.m00, b.m00, a.m01, b.m10, a.m02, b.m20, a.m03, b.m30),
            m01: dot4(a.m00, b.m01, a.m01, b.m11, a.m02, b.m21, a.m03, b.m31),
            m02: dot4(a.m00, b.m02, a.m01, b.m12, a.m02, b.m22, a.m03, b.m32),
            m03: dot4(a.m00, b.m03, a.m01, b.m13, a.m02, b.m23, a.m03, b.m33),
            m10: dot4(a.m10, b.m00, a.m11, b.m10, a.m12, b.m20, a.m13, b.m30),
            m11: dot4(a.m10, b.m01, a.m11, b.m11, a.m12, b.m21, a.m13, b.m31),
            m12: dot4(a.m10, b.m02, a.m11, b.m12, a.m12, b.m22, a.m13, b.m32),
            m13: dot4(a.m10, b.m03, a.m11, b.m13, a.m12, b.m23, a.m13, b.m33),
            m20: dot4(a.m20, b.m00, a.m21, b.m10, a.m22, b.m20, a.m23, b.m30),
            m21: dot4(a.m20, b.m01, a.m21, b.m11, a.m22, b.m21, a.m23, b.m31),
            m22: dot4(a.m20, b.m02, a.m21, b.m12, a.m22, b.m22, a.m23, b.m32),
            m23: dot4(a.m20, b.m03, a.m21, b.m13, a.m22, b.m23, a.m23, b.m33),
            m30: dot4(a.m30, b.m00, a.m31, b.m10, a.m32, b.m20, a.m33, b.m30),
            m31: dot4(a.m30, b.m01, a.m31, b.m11, a.m32, b.m21, a.m33, b.m31),
            m32: dot4(a.m30, b.m02, a.m31, b.m12, a.m32, b.m22, a.m33, b.m32),
            m33: dot4(a.m30, b.m03, a.m31, b.m13, a.m32, b.m23, a.m33, b.m33),
        }
    }

    /// The identity transform.
    pub fn identity() -> (r: Mat4)
        ensures
            r == Mat4::identity_spec(),
    {
        Mat4 {
            m00: 1,
            m01: 0,
            m02: 0,
            m03: 0,
            m10: 0,
            m11: 1,
            m12: 0,
            m13: 0,
            m20: 0,
            m21: 0,
            m22: 1,
            m23: 0,
            m30: 0,
            m31: 0,
            m32: 0,
            m33: 1,
        }
    }

    /// A translation by `(x, y, z)`.
    pub fn from_translation(x: i64, y: i64, z: i64) -> (r: Mat4)
        ensures
            r == (Mat4 { m03: x, m13: y, m23: z, ..Mat4::identity_spec() }),
    {
        Mat4 { m03: x, m13: y, m23: z, ..Mat4::identity() }
    }

    /// A uniform scale by `s`.
    pub fn from_scale(s: i64) -> (r: Mat4)
        ensures
            r == (Mat4 { m00: s, m11: s, m22: s, ..Mat4::identity_spec() }),
    {
        Mat4 { m00: s, m11: s, m22: s, ..Mat4::identity() }
    }

    /// Composes `self` with `other`: the product `self * other`, which
    /// applies `other` first. Matrix composition does not commute.
    pub fn compose(&self, other: &Mat4) -> (r: Mat4)
        ensures
            r == Mat4::compose_spec(*self, *other),
    {
        let a = self;
        let b = other;
        Mat4 {
            m00: row_dot(a.m00, b.m00, a.m01, b.m10, a.m02, b.m20, a.m03, b.m30),
            m01: row_dot(a.m00, b.m01, a.m01, b.m11, a.m02, b.m21, a.m03, b.m31),
            m02: row_dot(a.m00, b.m02, a.m01, b.m12, a.m02, b.m22, a.m03, b.m32),
            m03: row_dot(a.m00, b.m03, a.m01, b.m13, a.m02, b.m23, a.m03, b.m33),
            m10: row_dot(a.m10, b.m00, a.m11, b.m10, a.m12, b.m20, a.m13, b.m30),
            m11: row_dot(a.m10, b.m01, a.m11, b.m11, a.m12, b.m21, a.m13, b.m31),
            m12: row_dot(a.m10, b.m02, a.m11, b.m12, a.m12, b.m22, a.m13, b.m32),
            m13: row_dot(a.m10, b.m03, a.m11, b.m13, a.m12, b.m23, a.m13, b.m33),
            m20: row_dot(a.m20, b.m00, a.m21, b.m10, a.m22, b.m20, a.m23, b.m30),
            m21: row_dot(a.m20, b.m01, a.m21, b.m11, a.m22, b.m21, a.m23, b.m31),
            m22: row_dot(a.m20, b.m02, a.m21, b.m12, a.m22, b.m22, a.m23, b.m32),
            m23: row_dot(a.m20, b.m03, a.m21, b.m13, a.m22, b.m23, a.m23, b.m33),
            m30: row_dot(a.m30, b.m00, a.m31, b.m10, a.m32, b.m20, a.m33, b.m30),
            m31: row_dot(a.m30, b.m01, a.m31, b.m11, a.m32, b.m21, a.m33, b.m31),
            m32: row_dot(a.m30, b.m02, a.m31, b.m12, a.m32, b.m22, a.m33, b.m32),
            m33: row_dot(a.m30, b.m03, a.m31, b.m13, a.m32, b.m23, a.m33, b.m33),
        }
    }
}

/// Executable twin of `dot4`.
fn row_dot(a0: i64, b0: i64, a1: i64, b1: i64, a2: i64, b2: i64, a3: i64, b3: i64) -> (r: i64)
    ensures
        r == dot4(a0, b0, a1, b1, a2, b2, a3, b3),
{
    a0.wrapping_mul(b0).wrapping_add(a1.wrapping_mul(b1)).wrapping_add(
        a2.wrapping_mul(b2),
    ).wrapping_add(a3.wrapping_mul(b3))
}

} // verus!
