//! Transform nodes and the arithmetic they delegate.
use crate::math::vector::Vector;
use crate::resource::ResourceId;
use vstd::prelude::*;

verus! {

/// The matrix, quaternion and angle arithmetic that nodes and cameras rely
/// on. The scene code never looks inside these operations: it promises which
/// operation is applied to which operands, and in which order.
pub trait TransformMath<T: Copy + Clone> {
    /// The scalar zero.
    fn zero() -> T;

    /// The scalar one.
    fn one() -> T;

    /// The orientation quaternion of Euler angles.
    fn quaternion_from_euler(euler: Vector<T, 3>) -> Vector<T, 4>;

    /// The Euler angles of an orientation quaternion.
    fn euler_from_quaternion(quaternion: Vector<T, 4>) -> Vector<T, 3>;

    /// The matrix that scales, then rotates, then translates.
    fn compose(position: Vector<T, 3>, quaternion: Vector<T, 4>, scale: Vector<T, 3>) -> Vector<
        T,
        16,
    >;

    /// Position, orientation and signed scale of a matrix, or `None` when the
    /// matrix is degenerate.
    fn decompose(matrix: &Vector<T, 16>) -> Option<(Vector<T, 3>, Vector<T, 4>, Vector<T, 3>)>;

    /// The matrix product `left` times `right`.
    fn multiply(left: &Vector<T, 16>, right: Vector<T, 16>) -> Vector<T, 16>;

    /// The inverse of a matrix, or `None` when it has none.
    fn invert(matrix: &Vector<T, 16>) -> Option<Vector<T, 16>>;

    /// The perspective projection for a vertical field of view, an aspect
    /// ratio and the two clipping distances.
    fn make_perspective(fovy: T, aspect: T, near: T, far: T) -> Vector<T, 16>;
}

/// A transform could not be taken apart or inverted because it collapses
/// space.
#[derive(Clone, Copy, Debug, PartialEq, Eq, Structural)]
pub struct DegenerateTransform;

/// A transform entity: where it stands relative to its parent, the matrices
/// cached from that, and its place in the hierarchy.
#[derive(Debug)]
pub struct Node<T: Copy + Clone> {
    children: Vec<ResourceId<Node<T>>>,
    matrix: Vector<T, 16>,
    parent: Option<ResourceId<Node<T>>>,
    position: Vector<T, 3>,
    quaternion: Vector<T, 4>,
    rotation: Vector<T, 3>,
    scale: Vector<T, 3>,
    world_matrix: Vector<T, 16>,
}

/// What a [`Node`] holds, as plain values.
pub struct NodeModel<T: Copy + Clone> {
    pub children: Seq<ResourceId<Node<T>>>,
    pub matrix: Vector<T, 16>,
    pub parent: Option<ResourceId<Node<T>>>,
    pub position: Vector<T, 3>,
    pub quaternion: Vector<T, 4>,
    pub rotation: Vector<T, 3>,
    pub scale: Vector<T, 3>,
    pub world_matrix: Vector<T, 16>,
}

impl<T: Copy + Clone> NodeModel<T> {
    /// A node outside any hierarchy, at the origin, unrotated and unscaled,
    /// written with the given scalars for zero and one.
    pub open spec fn detached(zero: T, one: T) -> Self {
        NodeModel {
            children: Seq::empty(),
            matrix: identity(zero, one),
            parent: None,
            position: Vector([zero, zero, zero]),
            quaternion: Vector([zero, zero, zero, one]),
            rotation: Vector([zero, zero, zero]),
            scale: Vector([one, one, one]),
            world_matrix: identity(zero, one),
        }
    }

    /// `self` is the detached identity node for the zero and one that the
    /// arithmetic `K` hands out.
    pub open spec fn is_detached<K: TransformMath<T>>(self, zero: T, one: T) -> bool {
        &&& call_ensures(K::zero, (), zero)
        &&& call_ensures(K::one, (), one)
        &&& self == Self::detached(zero, one)
    }

    /// `self` is the detached identity node with the given parts put in
    /// place: position and scale as they are, the rotation as the Euler angles
    /// that `K` derives from the quaternion.
    pub open spec fn is_built_from<K: TransformMath<T>>(
        self,
        zero: T,
        one: T,
        position: Option<Vector<T, 3>>,
        rotation: Option<Vector<T, 4>>,
        scale: Option<Vector<T, 3>>,
    ) -> bool {
        let plain = Self::detached(zero, one);
        &&& call_ensures(K::zero, (), zero)
        &&& call_ensures(K::one, (), one)
        &&& self.children == plain.children
        &&& self.parent == plain.parent
        &&& self.matrix == plain.matrix
        &&& self.world_matrix == plain.world_matrix
        &&& self.quaternion == plain.quaternion
        &&& self.position == if position.is_some() {
            position.unwrap()
        } else {
            plain.position
        }
        &&& self.scale == if scale.is_some() {
            scale.unwrap()
        } else {
            plain.scale
        }
        &&& if rotation.is_some() {
            call_ensures(K::euler_from_quaternion, (rotation.unwrap(),), self.rotation)
        } else {
            self.rotation == plain.rotation
        }
    }

    /// The two nodes agree on everything but their cached orientation and
    /// matrices.
    pub open spec fn same_placement(self, other: Self) -> bool {
        &&& self.children == other.children
        &&& self.parent == other.parent
        &&& self.position == other.position
        &&& self.rotation == other.rotation
        &&& self.scale == other.scale
    }

    /// `self` is `before` with its orientation recomputed from its Euler
    /// angles and its local matrix composed from position, that orientation
    /// and scale. The world matrix is not constrained.
    pub open spec fn local_refreshed<K: TransformMath<T>>(self, before: Self) -> bool {
        &&& self.same_placement(before)
        &&& call_ensures(K::quaternion_from_euler, (before.rotation,), self.quaternion)
        &&& call_ensures(
            K::compose,
            (before.position, self.quaternion, before.scale),
            self.matrix,
        )
    }

    /// The world matrix is the product of `parent_world` and the local matrix,
    /// in that order.
    pub open spec fn world_follows<K: TransformMath<T>>(self, parent_world: Vector<T, 16>) -> bool {
        call_ensures(K::multiply, (&parent_world, self.matrix), self.world_matrix)
    }
}

/// The 4x4 identity matrix written with the given scalars.
pub open spec fn identity<T: Copy + Clone>(zero: T, one: T) -> Vector<T, 16> {
    Vector(
        [
            one,
            zero,
            zero,
            zero,
            zero,
            one,
            zero,
            zero,
            zero,
            zero,
            one,
            zero,
            zero,
            zero,
            zero,
            one,
        ],
    )
}

impl<T: Copy + Clone> View for Node<T> {
    type V = NodeModel<T>;

    closed spec fn view(&self) -> NodeModel<T> {
        NodeModel {
            children: self.children@,
            matrix: self.matrix,
            parent: self.parent,
            position: self.position,
            quaternion: self.quaternion,
            rotation: self.rotation,
            scale: self.scale,
            world_matrix: self.world_matrix,
        }
    }
}

impl<T: Copy + Clone> Node<T> {
    /// Creates a detached node with identity transforms.
    pub fn new<K: TransformMath<T>>() -> (node: Self)
        ensures
            exists|zero: T, one: T| #[trigger] node@.is_detached::<K>(zero, one),
    {
        let zero = K::zero();
        let one = K::one();
        let matrix = Vector(
            [
                one,
                zero,
                zero,
                zero,
                zero,
                one,
                zero,
                zero,
                zero,
                zero,
                one,
                zero,
                zero,
                zero,
                zero,
                one,
            ],
        );
        let node = Node {
            children: Vec::new(),
            matrix,
            parent: None,
            position: Vector([zero, zero, zero]),
            quaternion: Vector([zero, zero, zero, one]),
            rotation: Vector([zero, zero, zero]),
            scale: Vector([one, one, one]),
            world_matrix: matrix,
        };
        assert(node@.children =~= Seq::empty());
        assert(node@.is_detached::<K>(zero, one));
        node
    }

    /// Creates a detached node from the parts of a transform that are given;
    /// the others keep their identity values. A rotation is given as a
    /// quaternion and stored as the Euler angles the arithmetic derives from
    /// it.
    pub fn from<K: TransformMath<T>>(
        position: Option<Vector<T, 3>>,
        rotation: Option<Vector<T, 4>>,
        scale: Option<Vector<T, 3>>,
    ) -> (node: Self)
        ensures
            exists|zero: T, one: T| #[trigger]
                node@.is_built_from::<K>(zero, one, position, rotation, scale),
    {
        let mut node = Node::new::<K>();
        let ghost (zero, one) = choose|zero: T, one: T| #[trigger]
            node@.is_detached::<K>(zero, one);
        if let Some(position) = position {
            node.set_position(position);
        }
        if let Some(rotation) = rotation {
            node.set_rotation(K::euler_from_quaternion(rotation));
        }
        if let Some(scale) = scale {
            node.set_scale(scale);
        }
        assert(node@.is_built_from::<K>(zero, one, position, rotation, scale));
        node
    }

    /// The handle of the parent node, if the node is attached to one.
    pub fn borrow_parent(&self) -> (r: Option<&ResourceId<Node<T>>>)
        ensures
            r.is_some() == self@.parent.is_some(),
            r.is_some() ==> *r.unwrap() == self@.parent.unwrap(),
    {
        self.parent.as_ref()
    }

    /// The handles of the child nodes, in the order they were attached.
    pub fn borrow_children(&self) -> (r: &Vec<ResourceId<Node<T>>>)
        ensures
            r@ == self@.children,
    {
        &self.children
    }

    /// Position relative to the parent.
    pub fn get_position(&self) -> (r: Vector<T, 3>)
        ensures
            r == self@.position,
    {
        self.position
    }

    /// Moves the node. The cached matrices stay as they are until the next
    /// refresh.
    pub fn set_position(&mut self, position: Vector<T, 3>)
        ensures
            final(self)@ == (NodeModel { position, ..old(self)@ }),
    {
        self.position = position;
    }

    /// Rotation relative to the parent, as Euler angles.
    pub fn get_rotation(&self) -> (r: Vector<T, 3>)
        ensures
            r == self@.rotation,
    {
        self.rotation
    }

    /// Turns the node. The cached orientation and matrices stay as they are
    /// until the next refresh.
    pub fn set_rotation(&mut self, rotation: Vector<T, 3>)
        ensures
            final(self)@ == (NodeModel { rotation, ..old(self)@ }),
    {
        self.rotation = rotation;
    }

    /// Scale relative to the parent.
    pub fn get_scale(&self) -> (r: Vector<T, 3>)
        ensures
            r == self@.scale,
    {
        self.scale
    }

    /// Scales the node. The cached matrices stay as they are until the next
    /// refresh.
    pub fn set_scale(&mut self, scale: Vector<T, 3>)
        ensures
            final(self)@ == (NodeModel { scale, ..old(self)@ }),
    {
        self.scale = scale;
    }

    /// The cached local matrix.
    pub fn get_matrix(&self) -> (r: Vector<T, 16>)
        ensures
            r == self@.matrix,
    {
        self.matrix
    }

    /// Replaces the local matrix and derives position, orientation, scale and
    /// Euler angles from it. A degenerate matrix is refused and leaves the
    /// node as it was.
    pub fn set_matrix<K: TransformMath<T>>(&mut self, matrix: Vector<T, 16>) -> (r: Result<
        (),
        DegenerateTransform,
    >)
        ensures
            r.is_err() ==> final(self)@ == old(self)@ && call_ensures(
                K::decompose,
                (&matrix,),
                None,
            ),
            r.is_ok() ==> {
                let now = final(self)@;
                &&& call_ensures(
                    K::decompose,
                    (&matrix,),
                    Some((now.position, now.quaternion, now.scale)),
                )
                &&& call_ensures(K::euler_from_quaternion, (now.quaternion,), now.rotation)
                &&& now.matrix == matrix
                &&& now.children == old(self)@.children
                &&& now.parent == old(self)@.parent
                &&& now.world_matrix == old(self)@.world_matrix
            },
    {
        match K::decompose(&matrix) {
            Some((position, quaternion, scale)) => {
                self.matrix = matrix;
                self.position = position;
                self.quaternion = quaternion;
                self.scale = scale;
                self.rotation = K::euler_from_quaternion(quaternion);
                Ok(())
            },
            None => Err(DegenerateTransform),
        }
    }

    /// The cached world matrix.
    pub fn get_world_matrix(&self) -> (r: Vector<T, 16>)
        ensures
            r == self@.world_matrix,
    {
        self.world_matrix
    }

    /// Replaces the cached world matrix and nothing else.
    pub fn set_world_matrix(&mut self, matrix: Vector<T, 16>) -> (r: &mut Self)
        ensures
            r@ == (NodeModel { world_matrix: matrix, ..old(self)@ }),
            *final(self) == *final(r),
    {
        self.world_matrix = matrix;
        self
    }

    /// Recomputes the orientation from the Euler angles and the local matrix
    /// from position, orientation and scale.
    pub fn update_matrix<K: TransformMath<T>>(&mut self) -> (r: &mut Self)
        ensures
            r@.local_refreshed::<K>(old(self)@),
            r@.world_matrix == old(self)@.world_matrix,
            *final(self) == *final(r),
    {
        self.quaternion = K::quaternion_from_euler(self.rotation);
        self.matrix = K::compose(self.position, self.quaternion, self.scale);
        self
    }

    /// Records `parent` as the node this one hangs below.
    pub(crate) fn link_parent(&mut self, parent: ResourceId<Node<T>>)
        ensures
            final(self)@ == (NodeModel { parent: Some(parent), ..old(self)@ }),
    {
        self.parent = Some(parent);
    }

    /// Appends `child` to the nodes that hang below this one.
    pub(crate) fn link_child(&mut self, child: ResourceId<Node<T>>)
        ensures
            final(self)@ == (NodeModel { children: old(self)@.children.push(child), ..old(self)@ }),
    {
        self.children.push(child);
    }

    /// Forgets the parent.
    pub(crate) fn unlink_parent(&mut self)
        ensures
            final(self)@ == (NodeModel { parent: None, ..old(self)@ }),
    {
        self.parent = None;
    }

    /// Takes the child at position `at` out of the children.
    pub(crate) fn unlink_child(&mut self, at: usize)
        requires
            at < old(self)@.children.len(),
        ensures
            final(self)@ == (NodeModel {
                children: old(self)@.children.remove(at as int),
                ..old(self)@
            }),
    {
        self.children.remove(at);
    }
}

} // verus!
