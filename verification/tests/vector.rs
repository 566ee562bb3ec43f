use wgpu_rust_renderer::math::vector::Vector;
use wgpu_rust_renderer::math::{Matrix4, Vector3};

#[test]
fn dot_of_integers_is_exact() {
    let a: Vector<i64, 3> = Vector([1, 2, 3]);
    let b: Vector<i64, 3> = Vector([4, -5, 6]);
    assert_eq!(a.dot(b), 12);
    let empty: Vector<u32, 0> = Vector([]);
    assert_eq!(empty.dot(empty), 0);
}

#[test]
fn dot_of_floats_sums_in_index_order() {
    let a: Vector<f32, 3> = Vector([1.0, 2.0, 3.0]);
    let b: Vector<f32, 3> = Vector([0.5, 0.25, 2.0]);
    assert_eq!(a.dot(b), 7.0);
    let big: Vector<f32, 3> = Vector([1.0e8, 1.0, -1.0e8]);
    let ones: Vector<f32, 3> = Vector([1.0, 1.0, 1.0]);
    assert_eq!(big.dot(ones), ((0.0_f32 + 1.0e8) + 1.0) + -1.0e8);
}

#[test]
fn magnitude_is_root_of_squares() {
    let v: Vector<f32, 2> = Vector([3.0, 4.0]);
    assert_eq!(v.magnitude(), 5.0);
    let w: Vector<f64, 3> = Vector([2.0, 3.0, 6.0]);
    assert_eq!(w.magnitude(), 7.0);
}

#[test]
fn normalized_divides_by_magnitude() {
    let v: Vector<f32, 2> = Vector([3.0, 4.0]);
    assert_eq!(v.normalized().0, [3.0 / 5.0, 4.0 / 5.0]);
    let zero: Vector<f32, 2> = Vector([0.0, 0.0]);
    assert!(zero.normalized().0[0].is_nan());
}

#[test]
fn componentwise_operators() {
    let a: Vector<i32, 3> = Vector([10, 20, 30]);
    let b: Vector<i32, 3> = Vector([1, 2, 3]);
    assert_eq!((a + b).0, [11, 22, 33]);
    assert_eq!((a - b).0, [9, 18, 27]);
    assert_eq!((a * b).0, [10, 40, 90]);
    assert_eq!((a / b).0, [10, 10, 10]);
    assert_eq!((a * 2).0, [20, 40, 60]);
    assert_eq!((a / 5).0, [2, 4, 6]);
}

#[test]
fn in_place_operators() {
    let mut a: Vector<i32, 2> = Vector([8, 9]);
    a.add_assign(Vector([1, 1]));
    assert_eq!(a.0, [9, 10]);
    a.sub_assign(Vector([4, 5]));
    assert_eq!(a.0, [5, 5]);
    a.mul_assign(Vector([2, 3]));
    assert_eq!(a.0, [10, 15]);
    a.div_assign(Vector([5, 3]));
    assert_eq!(a.0, [2, 5]);
    a.mul_assign_scalar(7);
    assert_eq!(a.0, [14, 35]);
    a.div_assign_scalar(7);
    assert_eq!(a.0, [2, 5]);
}

#[test]
fn construction_and_indexing() {
    let v: Vector3<f32> = Vector::from([1.0, 2.0, 3.0]);
    assert_eq!(v[1], 2.0);
    let mut w = Vector::of([7u8, 8, 9]);
    *w.index_mut(2) = 1;
    assert_eq!(w.into_array(), [7, 8, 1]);
    let d: Vector<i16, 4> = Vector::default();
    assert_eq!(d.0, [0, 0, 0, 0]);
}

#[test]
fn from_2d_array_swaps_rows_and_columns() {
    let src = [[0, 1, 2, 3], [4, 5, 6, 7], [8, 9, 10, 11], [12, 13, 14, 15]];
    let m: Matrix4<i32> = Vector::from_2d_array(&src);
    assert_eq!(m.0, [0, 4, 8, 12, 1, 5, 9, 13, 2, 6, 10, 14, 3, 7, 11, 15]);
}
