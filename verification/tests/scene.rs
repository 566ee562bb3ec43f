use wgpu_rust_renderer::math::vector::Vector;
use wgpu_rust_renderer::resource::{ResourceId, ResourcePool};
use wgpu_rust_renderer::scene::camera::PerspectiveCamera;
use wgpu_rust_renderer::scene::hierarchy::{HierarchyError, NodeExecutor};
use wgpu_rust_renderer::scene::node::{DegenerateTransform, Node, TransformMath};
use wgpu_rust_renderer::scene::scene::{Attachment, Scene};

/// Single-precision arithmetic for the scene code.
pub struct FloatMath;

fn determinant(m: &Vector<f32, 16>) -> f32 {
    let n11 = m.0[0];
    let n12 = m.0[4];
    let n13 = m.0[8];
    let n14 = m.0[12];
    let n21 = m.0[1];
    let n22 = m.0[5];
    let n23 = m.0[9];
    let n24 = m.0[13];
    let n31 = m.0[2];
    let n32 = m.0[6];
    let n33 = m.0[10];
    let n34 = m.0[14];
    let n41 = m.0[3];
    let n42 = m.0[7];
    let n43 = m.0[11];
    let n44 = m.0[15];

    n41 * (n14 * n23 * n32 - n13 * n24 * n32 - n14 * n22 * n33
        + n12 * n24 * n33
        + n13 * n22 * n34
        - n12 * n23 * n34)
        + n42
            * (n11 * n23 * n34 - n11 * n24 * n33 + n14 * n21 * n33 - n13 * n21 * n34
                + n13 * n24 * n31
                - n14 * n23 * n31)
        + n43
            * (n11 * n24 * n32 - n11 * n22 * n34 - n14 * n21 * n32
                + n12 * n21 * n34
                + n14 * n22 * n31
                - n12 * n24 * n31)
        + n44
            * (n13 * n22 * n31 - n11 * n23 * n32 + n11 * n22 * n33 + n13 * n21 * n32
                - n12 * n21 * n33
                + n12 * n23 * n31)
}

fn quaternion_from_rotation_matrix(m: &Vector<f32, 16>) -> Vector<f32, 4> {
    let m11 = m.0[0];
    let m12 = m.0[4];
    let m13 = m.0[8];
    let m21 = m.0[1];
    let m22 = m.0[5];
    let m23 = m.0[9];
    let m31 = m.0[2];
    let m32 = m.0[6];
    let m33 = m.0[10];

    let trace = m11 + m22 + m33;

    if trace > 0.0 {
        let s = 0.5 / (trace + 1.0).sqrt();
        Vector([(m32 - m23) * s, (m13 - m31) * s, (m21 - m12) * s, 0.25 / s])
    } else if m11 > m22 && m11 > m33 {
        let s = 2.0 * (1.0 + m11 - m22 - m33).sqrt();
        Vector([0.25 * s, (m12 + m21) / s, (m13 + m31) / s, (m32 - m23) / s])
    } else if m22 > m33 {
        let s = 2.0 * (1.0 + m22 - m11 - m33).sqrt();
        Vector([(m12 + m21) / s, 0.25 * s, (m23 + m32) / s, (m13 - m31) / s])
    } else {
        let s = 2.0 * (1.0 + m33 - m11 - m22).sqrt();
        Vector([(m13 + m31) / s, (m23 + m32) / s, 0.25 * s, (m21 - m12) / s])
    }
}

impl TransformMath<f32> for FloatMath {
    fn zero() -> f32 {
        0.0
    }

    fn one() -> f32 {
        1.0
    }

    fn quaternion_from_euler(euler: Vector<f32, 3>) -> Vector<f32, 4> {
        let x = euler.0[0];
        let y = euler.0[1];
        let z = euler.0[2];

        let c1 = (x / 2.0).cos();
        let c2 = (y / 2.0).cos();
        let c3 = (z / 2.0).cos();

        let s1 = (x / 2.0).sin();
        let s2 = (y / 2.0).sin();
        let s3 = (z / 2.0).sin();

        Vector([
            s1 * c2 * c3 + c1 * s2 * s3,
            c1 * s2 * c3 - s1 * c2 * s3,
            c1 * c2 * s3 + s1 * s2 * c3,
            c1 * c2 * c3 - s1 * s2 * s3,
        ])
    }

    fn euler_from_quaternion(quaternion: Vector<f32, 4>) -> Vector<f32, 3> {
        let q0 = quaternion.0[0];
        let q1 = quaternion.0[1];
        let q2 = quaternion.0[2];
        let q3 = quaternion.0[3];

        let q0q0 = q0 * q0;
        let q0q1 = q0 * q1;
        let q0q2 = q0 * q2;
        let q0q3 = q0 * q3;
        let q1q1 = q1 * q1;
        let q1q2 = q1 * q2;
        let q1q3 = q1 * q3;
        let q2q2 = q2 * q2;
        let q2q3 = q2 * q3;
        let q3q3 = q3 * q3;

        let roll = (2.0 * (q2q3 + q0q1)).atan2(q0q0 - q1q1 - q2q2 + q3q3);
        let pitch = (2.0 * (q0q2 - q1q3)).asin();
        let yaw = (2.0 * (q1q2 + q0q3)).atan2(q0q0 + q1q1 - q2q2 - q3q3);

        Vector([roll, pitch, yaw])
    }

    fn compose(
        position: Vector<f32, 3>,
        quaternion: Vector<f32, 4>,
        scale: Vector<f32, 3>,
    ) -> Vector<f32, 16> {
        let x = quaternion.0[0];
        let y = quaternion.0[1];
        let z = quaternion.0[2];
        let w = quaternion.0[3];

        let x2 = x + x;
        let y2 = y + y;
        let z2 = z + z;

        let xx = x * x2;
        let xy = x * y2;
        let xz = x * z2;

        let yy = y * y2;
        let yz = y * z2;
        let zz = z * z2;

        let wx = w * x2;
        let wy = w * y2;
        let wz = w * z2;

        let sx = scale.0[0];
        let sy = scale.0[1];
        let sz = scale.0[2];

        Vector([
            (1.0 - (yy + zz)) * sx,
            (xy + wz) * sx,
            (xz - wy) * sx,
            0.0,
            (xy - wz) * sy,
            (1.0 - (xx + zz)) * sy,
            (yz + wx) * sy,
            0.0,
            (xz + wy) * sz,
            (yz - wx) * sz,
            (1.0 - (xx + yy)) * sz,
            0.0,
            position.0[0],
            position.0[1],
            position.0[2],
            1.0,
        ])
    }

    fn decompose(
        matrix: &Vector<f32, 16>,
    ) -> Option<(Vector<f32, 3>, Vector<f32, 4>, Vector<f32, 3>)> {
        let m = matrix.0;
        let det = determinant(matrix);
        if det == 0.0 || det.is_nan() {
            return None;
        }

        let sx = Vector([m[0], m[1], m[2]]).magnitude();
        let sy = Vector([m[4], m[5], m[6]]).magnitude();
        let sz = Vector([m[8], m[9], m[10]]).magnitude();

        let sx = if det < 0.0 { -sx } else { sx };

        let position = Vector([m[12], m[13], m[14]]);

        let inv_sx = 1.0 / sx;
        let inv_sy = 1.0 / sy;
        let inv_sz = 1.0 / sz;

        let mut m2 = *matrix;

        m2.0[0] *= inv_sx;
        m2.0[1] *= inv_sx;
        m2.0[2] *= inv_sx;

        m2.0[4] *= inv_sy;
        m2.0[5] *= inv_sy;
        m2.0[6] *= inv_sy;

        m2.0[8] *= inv_sz;
        m2.0[9] *= inv_sz;
        m2.0[10] *= inv_sz;

        let quaternion = quaternion_from_rotation_matrix(&m2);

        Some((position, quaternion, Vector([sx, sy, sz])))
    }

    fn multiply(left: &Vector<f32, 16>, right: Vector<f32, 16>) -> Vector<f32, 16> {
        let a = left.0;
        let b = right.0;
        let mut m = [0.0_f32; 16];
        for column in 0..4 {
            let b0 = b[column * 4];
            let b1 = b[column * 4 + 1];
            let b2 = b[column * 4 + 2];
            let b3 = b[column * 4 + 3];
            for row in 0..4 {
                m[column * 4 + row] = b0 * a[row] + b1 * a[4 + row] + b2 * a[8 + row] + b3 * a[12 + row];
            }
        }
        Vector(m)
    }

    fn invert(matrix: &Vector<f32, 16>) -> Option<Vector<f32, 16>> {
        let a = matrix.0;
        let a00 = a[0];
        let a01 = a[1];
        let a02 = a[2];
        let a03 = a[3];
        let a10 = a[4];
        let a11 = a[5];
        let a12 = a[6];
        let a13 = a[7];
        let a20 = a[8];
        let a21 = a[9];
        let a22 = a[10];
        let a23 = a[11];
        let a30 = a[12];
        let a31 = a[13];
        let a32 = a[14];
        let a33 = a[15];

        let b00 = a00 * a11 - a01 * a10;
        let b01 = a00 * a12 - a02 * a10;
        let b02 = a00 * a13 - a03 * a10;
        let b03 = a01 * a12 - a02 * a11;
        let b04 = a01 * a13 - a03 * a11;
        let b05 = a02 * a13 - a03 * a12;
        let b06 = a20 * a31 - a21 * a30;
        let b07 = a20 * a32 - a22 * a30;
        let b08 = a20 * a33 - a23 * a30;
        let b09 = a21 * a32 - a22 * a31;
        let b10 = a21 * a33 - a23 * a31;
        let b11 = a22 * a33 - a23 * a32;

        let det = b00 * b11 - b01 * b10 + b02 * b09 + b03 * b08 - b04 * b07 + b05 * b06;

        if det == 0.0 || det.is_nan() {
            return None;
        }

        let det = 1.0 / det;
        Some(Vector([
            (a11 * b11 - a12 * b10 + a13 * b09) * det,
            (a02 * b10 - a01 * b11 - a03 * b09) * det,
            (a31 * b05 - a32 * b04 + a33 * b03) * det,
            (a22 * b04 - a21 * b05 - a23 * b03) * det,
            (a12 * b08 - a10 * b11 - a13 * b07) * det,
            (a00 * b11 - a02 * b08 + a03 * b07) * det,
            (a32 * b02 - a30 * b05 - a33 * b01) * det,
            (a20 * b05 - a22 * b02 + a23 * b01) * det,
            (a10 * b10 - a11 * b08 + a13 * b06) * det,
            (a01 * b08 - a00 * b10 - a03 * b06) * det,
            (a30 * b04 - a31 * b02 + a33 * b00) * det,
            (a21 * b02 - a20 * b04 - a23 * b00) * det,
            (a11 * b07 - a10 * b09 - a12 * b06) * det,
            (a00 * b09 - a01 * b07 + a02 * b06) * det,
            (a31 * b01 - a30 * b03 - a32 * b00) * det,
            (a20 * b03 - a21 * b01 + a22 * b00) * det,
        ]))
    }

    fn make_perspective(fovy: f32, aspect: f32, near: f32, far: f32) -> Vector<f32, 16> {
        let f = 1.0 / (fovy / 2.0).tan();
        let nf = 1.0 / (near - far);
        Vector([
            f / aspect,
            0.0,
            0.0,
            0.0,
            0.0,
            f,
            0.0,
            0.0,
            0.0,
            0.0,
            far * nf,
            -1.0,
            0.0,
            0.0,
            far * near * nf,
            0.0,
        ])
    }
}

struct Mesh;

fn node_at(x: f32, y: f32, z: f32) -> Node<f32> {
    let mut node = Node::new::<FloatMath>();
    node.set_position(Vector([x, y, z]));
    node
}

fn translation(pool: &ResourcePool<Node<f32>>, id: &ResourceId<Node<f32>>) -> [f32; 3] {
    let world = pool.get(id).unwrap().get_world_matrix();
    [world.0[12], world.0[13], world.0[14]]
}

#[test]
fn add_node_is_idempotent() {
    let mut scene: Scene<f32, Mesh> = Scene::new();
    let a = ResourceId::new(0, 1);
    let b = ResourceId::new(1, 1);
    assert!(!scene.has_node(&a));
    scene.add_node(&a);
    scene.add_node(&b);
    scene.add_node(&a);
    assert!(scene.borrow_nodes() == &vec![a, b]);
    assert!(scene.has_node(&a));
    assert!(!scene.has_node(&ResourceId::new(0, 2)));
}

#[test]
fn assign_overwrites_earlier_assignment() {
    let mut scene: Scene<f32, Mesh> = Scene::new();
    let node = ResourceId::new(0, 1);
    let other = ResourceId::new(1, 1);
    assert!(scene.attachment(&node).is_none());
    scene.assign(&node, Attachment::Mesh(ResourceId::new(4, 1)));
    scene.assign(&other, Attachment::Mesh(ResourceId::new(5, 1)));
    scene.assign(&node, Attachment::Camera(ResourceId::new(2, 3)));
    match scene.attachment(&node) {
        Some(Attachment::Camera(id)) => assert!(id == ResourceId::new(2, 3)),
        _ => panic!("camera expected"),
    }
    match scene.attachment(&other) {
        Some(Attachment::Mesh(id)) => assert!(id == ResourceId::new(5, 1)),
        _ => panic!("mesh expected"),
    }
    assert!(scene.borrow_nodes().is_empty());
}

#[test]
fn scene_update_refreshes_every_member_subtree() {
    let mut pool = ResourcePool::new();
    let first = pool.insert(node_at(1.0, 0.0, 0.0));
    let child = pool.insert(node_at(0.0, 1.0, 0.0));
    let second = pool.insert(node_at(0.0, 0.0, 1.0));
    let outside = pool.insert(node_at(9.0, 9.0, 9.0));
    assert_eq!(NodeExecutor::attach(&mut pool, &first, &child), Ok(()));
    let mut scene: Scene<f32, Mesh> = Scene::new();
    scene.add_node(&first);
    scene.add_node(&second);
    assert_eq!(scene.update_matrices::<FloatMath>(&mut pool), Ok(()));
    assert_eq!(translation(&pool, &first), [1.0, 0.0, 0.0]);
    assert_eq!(translation(&pool, &child), [1.0, 1.0, 0.0]);
    assert_eq!(translation(&pool, &second), [0.0, 0.0, 1.0]);
    assert_eq!(translation(&pool, &outside), [0.0, 0.0, 0.0]);
}

#[test]
fn scene_update_stops_at_first_refused_member() {
    let mut pool = ResourcePool::new();
    let first = pool.insert(node_at(1.0, 0.0, 0.0));
    let gone = pool.insert(node_at(0.0, 0.0, 0.0));
    let third = pool.insert(node_at(0.0, 0.0, 3.0));
    pool.remove(&gone);
    let mut scene: Scene<f32, Mesh> = Scene::new();
    scene.add_node(&first);
    scene.add_node(&gone);
    scene.add_node(&third);
    assert_eq!(scene.update_matrices::<FloatMath>(&mut pool), Err(HierarchyError::NotFound));
    assert_eq!(translation(&pool, &first), [1.0, 0.0, 0.0]);
    assert_eq!(translation(&pool, &third), [0.0, 0.0, 0.0]);
}

#[test]
fn camera_projection_follows_parameters() {
    let camera = PerspectiveCamera::<f32>::new::<FloatMath>(
        std::f32::consts::FRAC_PI_2,
        2.0,
        1.0,
        3.0,
    )
    .unwrap();
    let p = camera.borrow_projection_matrix().0;
    assert!((p[0] - 0.5).abs() < 1e-6);
    assert!((p[5] - 1.0).abs() < 1e-6);
    assert_eq!(p[10], 3.0 * (1.0 / (1.0 - 3.0)));
    assert_eq!(p[11], -1.0);
    assert_eq!(p[14], 3.0 * 1.0 * (1.0 / (1.0 - 3.0)));
    assert_eq!(p[15], 0.0);
    let product = FloatMath::multiply(
        camera.borrow_projection_matrix(),
        *camera.borrow_projection_matrix_inverse(),
    );
    for i in 0..16 {
        let expected = if i % 5 == 0 { 1.0 } else { 0.0 };
        assert!((product.0[i] - expected).abs() < 1e-5);
    }
}

#[test]
fn camera_set_aspect_recomputes_projection() {
    let mut camera =
        PerspectiveCamera::<f32>::new::<FloatMath>(std::f32::consts::FRAC_PI_2, 1.0, 0.1, 100.0)
            .unwrap();
    let before = camera.borrow_projection_matrix().0;
    assert_eq!(camera.set_aspect::<FloatMath>(4.0), Ok(()));
    let after = camera.borrow_projection_matrix().0;
    assert!((after[0] - before[0] / 4.0).abs() < 1e-6);
    assert_eq!(after[5], before[5]);
    assert_eq!(camera.update_projection_matrix::<FloatMath>(), Ok(()));
    assert_eq!(camera.borrow_projection_matrix().0, after);
}

#[test]
fn camera_refuses_projection_without_inverse() {
    let collapsed = PerspectiveCamera::<f32>::new::<FloatMath>(1.0, 1.0, 0.0, 10.0);
    assert!(matches!(collapsed, Err(DegenerateTransform)));
    let mut camera = PerspectiveCamera::<f32>::new::<FloatMath>(1.0, 1.0, 0.1, 10.0).unwrap();
    let before = camera.borrow_projection_matrix().0;
    assert_eq!(camera.set_aspect::<FloatMath>(f32::INFINITY), Err(DegenerateTransform));
    assert_eq!(camera.borrow_projection_matrix().0, before);
}
