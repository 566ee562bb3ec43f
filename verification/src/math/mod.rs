//! Fixed-size vectors over an arbitrary scalar type, and the names under
//! which the scene code uses them.
use vstd::prelude::*;

pub mod vector;

verus! {

/// Three scalars: a position, a scale, or a colour.
pub type Vector3<T> = vector::Vector<T, 3>;

/// Red, green and blue.
pub type Color<T> = vector::Vector<T, 3>;

/// Euler angles about the x, y and z axes, applied in that order.
pub type Euler<T> = vector::Vector<T, 3>;

/// A quaternion: x, y, z, w.
pub type Quaternion<T> = vector::Vector<T, 4>;

/// A 3x3 matrix, column after column.
pub type Matrix3<T> = vector::Vector<T, 9>;

/// A 3x3 matrix with every column padded to four scalars.
pub type Matrix3GPU<T> = vector::Vector<T, 12>;

/// A 4x4 matrix, column after column.
pub type Matrix4<T> = vector::Vector<T, 16>;

} // verus!
