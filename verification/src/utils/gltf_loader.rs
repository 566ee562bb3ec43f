//! Turning the definitions of a glTF document into resources.
//!
//! Reading the document and the files it points to happens elsewhere. What
//! stands here takes the definitions as plain values and decides which
//! resources they become.
use crate::math::vector::Vector;
use crate::resource::{ResourceId, ResourcePool};
use crate::scene::node::{DegenerateTransform, Node, NodeModel, TransformMath};
use crate::texture::sampler::{FilterMode, Sampler, SamplerDescriptor, WrapMode};
use vstd::prelude::*;

verus! {

/// Magnification filter of a sampler definition.
#[derive(Clone, Copy, Debug, PartialEq, Eq, Structural)]
pub enum MagFilter {
    Nearest,
    Linear,
}

/// Minification filter of a sampler definition.
#[derive(Clone, Copy, Debug, PartialEq, Eq, Structural)]
pub enum MinFilter {
    Nearest,
    Linear,
    NearestMipmapNearest,
    LinearMipmapNearest,
    NearestMipmapLinear,
    LinearMipmapLinear,
}

/// Wrapping mode of a sampler definition.
#[derive(Clone, Copy, Debug, PartialEq, Eq, Structural)]
pub enum WrappingMode {
    ClampToEdge,
    MirroredRepeat,
    Repeat,
}

/// A sampler definition: both filters are optional, both wrapping modes are
/// always there.
#[derive(Clone, Copy, Debug, PartialEq, Eq, Structural)]
pub struct SamplerDef {
    pub mag_filter: Option<MagFilter>,
    pub min_filter: Option<MinFilter>,
    pub wrap_s: WrappingMode,
    pub wrap_t: WrappingMode,
}

/// What a vertex attribute of a primitive means.
#[derive(Clone, Copy, Debug, PartialEq, Eq, Structural)]
pub enum Semantic {
    Positions,
    Normals,
    Tangents,
    Colors(u32),
    TexCoords(u32),
    Joints(u32),
    Weights(u32),
}

/// The attributes a geometry can hold.
#[derive(Clone, Copy, Debug, PartialEq, Eq, Structural)]
pub enum AttributeName {
    Normal,
    Position,
    Uv,
}

impl AttributeName {
    /// The name under which a geometry files the attribute.
    pub fn as_str(self) -> (name: &'static str)
        ensures
            name@ == match self {
                AttributeName::Normal => "normal"@,
                AttributeName::Position => "position"@,
                AttributeName::Uv => "uv"@,
            },
    {
        match self {
            AttributeName::Normal => "normal",
            AttributeName::Position => "position",
            AttributeName::Uv => "uv",
        }
    }
}

/// The transform of a node definition: a matrix given as four columns, or
/// translation, rotation quaternion and scale.
pub enum NodeTransform<T: Copy + Clone> {
    Matrix { matrix: [[T; 4]; 4] },
    Decomposed { translation: [T; 3], rotation: [T; 4], scale: [T; 3] },
}

/// An accessor's byte range does not lie within its buffer.
#[derive(Clone, Copy, Debug, PartialEq, Eq, Structural)]
pub struct OutOfRange;

/// The magnification filter of a definition; linear where none is given.
pub open spec fn mag_filter_of(filter: Option<MagFilter>) -> FilterMode {
    match filter {
        Some(MagFilter::Nearest) => FilterMode::Nearest,
        Some(MagFilter::Linear) => FilterMode::Linear,
        None => FilterMode::Linear,
    }
}

/// The minification filter of a definition, without regard to mip levels;
/// linear where none is given.
pub open spec fn min_filter_of(filter: Option<MinFilter>) -> FilterMode {
    match filter {
        Some(MinFilter::Linear) | Some(MinFilter::LinearMipmapLinear) | Some(
            MinFilter::LinearMipmapNearest,
        ) => FilterMode::Linear,
        Some(MinFilter::Nearest) | Some(MinFilter::NearestMipmapLinear) | Some(
            MinFilter::NearestMipmapNearest,
        ) => FilterMode::Nearest,
        None => FilterMode::Linear,
    }
}

/// The filter between mip levels that a definition's minification filter
/// asks for; linear where it asks for none.
pub open spec fn mipmap_filter_of(filter: Option<MinFilter>) -> FilterMode {
    match filter {
        Some(MinFilter::LinearMipmapNearest) | Some(MinFilter::NearestMipmapNearest) =>
            FilterMode::Nearest,
        _ => FilterMode::Linear,
    }
}

/// The wrap mode for a definition's wrapping mode.
pub open spec fn wrap_mode_of(mode: WrappingMode) -> WrapMode {
    match mode {
        WrappingMode::ClampToEdge => WrapMode::ClampToEdge,
        WrappingMode::MirroredRepeat => WrapMode::MirrorRepeat,
        WrappingMode::Repeat => WrapMode::Repeat,
    }
}

/// The sampling state that a sampler definition stands for. The third
/// coordinate always repeats.
pub open spec fn descriptor_of(def: SamplerDef) -> SamplerDescriptor {
    SamplerDescriptor {
        mag_filter: mag_filter_of(def.mag_filter),
        min_filter: min_filter_of(def.min_filter),
        mipmap_filter: mipmap_filter_of(def.min_filter),
        wrap_u: wrap_mode_of(def.wrap_s),
        wrap_v: wrap_mode_of(def.wrap_t),
        wrap_w: WrapMode::Repeat,
    }
}

/// Under which name and with how many scalars per vertex an attribute is
/// filed; `None` for the attributes that geometries do not hold.
pub open spec fn layout_of(semantic: Semantic) -> Option<(AttributeName, usize)> {
    match semantic {
        Semantic::Normals => Some((AttributeName::Normal, 3usize)),
        Semantic::Positions => Some((AttributeName::Position, 3usize)),
        Semantic::TexCoords(_) => Some((AttributeName::Uv, 2usize)),
        _ => None,
    }
}

/// The `size` bytes from `at` on, read as an unsigned number with the least
/// significant byte first.
pub open spec fn little_endian(bytes: Seq<u8>, at: int, size: nat) -> nat
    decreases size,
{
    if size == 0 {
        0
    } else {
        bytes[at] as nat + 256 * little_endian(bytes, at + 1, (size - 1) as nat)
    }
}

/// Whether `values` are the numbers of `size` bytes each that lie, one after
/// the other, in the `length` bytes of `bytes` from `offset` on. Bytes left
/// over at the end are not read.
pub open spec fn decodes<V>(
    values: Seq<V>,
    bytes: Seq<u8>,
    offset: usize,
    length: usize,
    size: nat,
    value_of: spec_fn(V) -> nat,
) -> bool {
    &&& values.len() == length as nat / size
    &&& forall|i: int|
        0 <= i < values.len() ==> value_of(#[trigger] values[i]) == little_endian(
            bytes,
            offset + i * size,
            size,
        )
}

/// The node that a transform definition describes, before it enters a pool.
pub open spec fn is_node_of<T: Copy + Clone, K: TransformMath<T>>(
    node: NodeModel<T>,
    transform: NodeTransform<T>,
    zero: T,
    one: T,
) -> bool {
    let plain = NodeModel::<T>::detached(zero, one);
    &&& call_ensures(K::zero, (), zero)
    &&& call_ensures(K::one, (), one)
    &&& node.children == plain.children
    &&& node.parent == plain.parent
    &&& node.world_matrix == plain.world_matrix
    &&& match transform {
        NodeTransform::Matrix { matrix } => {
            &&& forall|i: int, j: int|
                0 <= i < 4 && 0 <= j < 4 ==> #[trigger] node.matrix@[i * 4 + j] == matrix@[j]@[i]
            &&& call_ensures(
                K::decompose,
                (&node.matrix,),
                Some((node.position, node.quaternion, node.scale)),
            )
            &&& call_ensures(K::euler_from_quaternion, (node.quaternion,), node.rotation)
        },
        NodeTransform::Decomposed { translation, rotation, scale } => {
            &&& node.position == Vector(translation)
            &&& node.scale == Vector(scale)
            &&& call_ensures(K::euler_from_quaternion, (Vector(rotation),), node.rotation)
            &&& call_ensures(K::quaternion_from_euler, (node.rotation,), node.quaternion)
            &&& call_ensures(
                K::compose,
                (node.position, node.quaternion, node.scale),
                node.matrix,
            )
        },
    }
}

/// The matrix of a transform definition is one that the arithmetic `K`
/// cannot take apart.
pub open spec fn is_degenerate_def<T: Copy + Clone, K: TransformMath<T>>(
    transform: NodeTransform<T>,
    read: Vector<T, 16>,
) -> bool {
    match transform {
        NodeTransform::Matrix { matrix } => {
            &&& forall|i: int, j: int|
                0 <= i < 4 && 0 <= j < 4 ==> #[trigger] read@[i * 4 + j] == matrix@[j]@[i]
            &&& call_ensures(K::decompose, (&read,), None)
        },
        NodeTransform::Decomposed { .. } => false,
    }
}

/// The decisions of a glTF import.
pub struct GltfLoader {}

impl GltfLoader {
    /// Adds the sampler that `def` stands for to `pool`.
    pub fn parse_sampler(pool: &mut ResourcePool<Sampler>, def: &SamplerDef) -> (id: ResourceId<
        Sampler,
    >)
        requires
            old(pool).wf(),
        ensures
            final(pool).wf(),
            id == old(pool)@.next_id(),
            final(pool)@ == old(pool)@.insert(Sampler { descriptor: descriptor_of(*def) }),
    {
        let descriptor = SamplerDescriptor {
            mag_filter: match def.mag_filter {
                Some(filter) => match filter {
                    MagFilter::Nearest => FilterMode::Nearest,
                    MagFilter::Linear => FilterMode::Linear,
                },
                None => FilterMode::Linear,
            },
            min_filter: match def.min_filter {
                Some(filter) => match filter {
                    MinFilter::Linear
                    | MinFilter::LinearMipmapLinear
                    | MinFilter::LinearMipmapNearest => FilterMode::Linear,
                    MinFilter::Nearest
                    | MinFilter::NearestMipmapLinear
                    | MinFilter::NearestMipmapNearest => FilterMode::Nearest,
                },
                None => FilterMode::Linear,
            },
            mipmap_filter: match def.min_filter {
                Some(filter) => match filter {
                    MinFilter::Linear | MinFilter::Nearest => FilterMode::Linear,
                    MinFilter::LinearMipmapLinear | MinFilter::NearestMipmapLinear =>
                        FilterMode::Linear,
                    MinFilter::LinearMipmapNearest | MinFilter::NearestMipmapNearest =>
                        FilterMode::Nearest,
                },
                None => FilterMode::Linear,
            },
            wrap_u: match def.wrap_s {
                WrappingMode::ClampToEdge => WrapMode::ClampToEdge,
                WrappingMode::MirroredRepeat => WrapMode::MirrorRepeat,
                WrappingMode::Repeat => WrapMode::Repeat,
            },
            wrap_v: match def.wrap_t {
                WrappingMode::ClampToEdge => WrapMode::ClampToEdge,
                WrappingMode::MirroredRepeat => WrapMode::MirrorRepeat,
                WrappingMode::Repeat => WrapMode::Repeat,
            },
            wrap_w: WrapMode::Repeat,
        };
        pool.insert(Sampler::new(descriptor))
    }

    /// Under which name and with how many scalars per vertex the attribute
    /// is filed, or `None` for an attribute that geometries do not hold.
    pub fn parse_semantic(semantic: Semantic) -> (r: Option<(AttributeName, usize)>)
        ensures
            r == layout_of(semantic),
    {
        match semantic {
            Semantic::Normals => Some((AttributeName::Normal, 3)),
            Semantic::Positions => Some((AttributeName::Position, 3)),
            Semantic::TexCoords(_) => Some((AttributeName::Uv, 2)),
            _ => None,
        }
    }

    /// Reads the 16-bit indices that lie in the `length` bytes of `bytes`
    /// from `offset` on, least significant byte first.
    pub fn parse_index(bytes: &[u8], offset: usize, length: usize) -> (r: Result<
        Vec<u16>,
        OutOfRange,
    >)
        ensures
            r.is_ok() <==> offset + length <= bytes@.len(),
            r matches Ok(values) ==> decodes(
                values@,
                bytes@,
                offset,
                length,
                2,
                |v: u16| v as nat,
            ),
    {
        if offset > bytes.len() || length > bytes.len() - offset {
            return Err(OutOfRange);
        }
        let count = length / 2;
        let mut data: Vec<u16> = Vec::new();
        let mut i: usize = 0;
        while i < count
            invariant
                i <= count,
                count == length / 2,
                offset + length <= bytes@.len(),
                data@.len() == i,
                forall|k: int|
                    0 <= k < i ==> (#[trigger] data@[k]) as nat == little_endian(
                        bytes@,
                        offset + k * 2,
                        2,
                    ),
            decreases count - i,
        {
            assert(i * 2 + 2 <= length);
            assert(bytes@.len() == bytes.len());
            let at = offset + i * 2;
            let low: u16 = bytes[at] as u16;
            let high: u16 = bytes[at + 1] as u16;
            let value: u16 = low + high * 256;
            proof {
                reveal_with_fuel(little_endian, 3);
                assert(value as nat == little_endian(bytes@, offset + i * 2, 2));
            }
            data.push(value);
            i = i + 1;
        }
        Ok(data)
    }

    /// Reads the 32-bit words that lie in the `length` bytes of `bytes` from
    /// `offset` on, least significant byte first. The scalars of a vertex
    /// attribute are stored as such words.
    pub fn parse_attribute(bytes: &[u8], offset: usize, length: usize) -> (r: Result<
        Vec<u32>,
        OutOfRange,
    >)
        ensures
            r.is_ok() <==> offset + length <= bytes@.len(),
            r matches Ok(values) ==> decodes(
                values@,
                bytes@,
                offset,
                length,
                4,
                |v: u32| v as nat,
            ),
    {
        if offset > bytes.len() || length > bytes.len() - offset {
            return Err(OutOfRange);
        }
        let count = length / 4;
        let mut data: Vec<u32> = Vec::new();
        let mut i: usize = 0;
        while i < count
            invariant
                i <= count,
                count == length / 4,
                offset + length <= bytes@.len(),
                data@.len() == i,
                forall|k: int|
                    0 <= k < i ==> (#[trigger] data@[k]) as nat == little_endian(
                        bytes@,
                        offset + k * 4,
                        4,
                    ),
            decreases count - i,
        {
            assert(i * 4 + 4 <= length);
            assert(bytes@.len() == bytes.len());
            let at = offset + i * 4;
            let b0: u32 = bytes[at] as u32;
            let b1: u32 = bytes[at + 1] as u32;
            let b2: u32 = bytes[at + 2] as u32;
            let b3: u32 = bytes[at + 3] as u32;
            let value: u32 = b0 + b1 * 256 + b2 * 65536 + b3 * 16777216;
            proof {
                reveal_with_fuel(little_endian, 5);
                assert(value as nat == little_endian(bytes@, offset + i * 4, 4));
            }
            data.push(value);
            i = i + 1;
        }
        Ok(data)
    }

    /// Builds the node that `transform` describes and adds it to `pool`. A
    /// matrix is taken apart into position, orientation and scale; separate
    /// parts are put in place and composed into the local matrix. A
    /// degenerate matrix is refused and nothing is added.
    pub fn parse_node<T: Copy + Clone + Default, K: TransformMath<T>>(
        pool: &mut ResourcePool<Node<T>>,
        transform: &NodeTransform<T>,
    ) -> (r: Result<ResourceId<Node<T>>, DegenerateTransform>)
        requires
            old(pool).wf(),
        ensures
            final(pool).wf(),
            match r {
                Ok(id) => {
                    &&& id == old(pool)@.next_id()
                    &&& final(pool)@.contains(id)
                    &&& final(pool)@ == old(pool)@.insert(final(pool)@.value(id))
                    &&& exists|zero: T, one: T| #[trigger]
                        is_node_of::<T, K>(final(pool)@.value(id)@, *transform, zero, one)
                },
                Err(_) => final(pool)@ == old(pool)@ && exists|read: Vector<T, 16>| #[trigger]
                    is_degenerate_def::<T, K>(*transform, read),
            },
    {
        let mut node = Node::new::<K>();
        let ghost (zero, one) = choose|zero: T, one: T| #[trigger]
            node@.is_detached::<K>(zero, one);
        match transform {
            NodeTransform::Matrix { matrix } => {
                let matrix = Vector::from_2d_array(matrix);
                match node.set_matrix::<K>(matrix) {
                    Ok(()) => {},
                    Err(error) => {
                        assert(is_degenerate_def::<T, K>(*transform, matrix));
                        return Err(error);
                    },
                }
            },
            NodeTransform::Decomposed { translation, rotation, scale } => {
                node.set_position(Vector(*translation));
                node.set_rotation(K::euler_from_quaternion(Vector(*rotation)));
                node.set_scale(Vector(*scale));
                node.update_matrix::<K>();
            },
        }
        assert(is_node_of::<T, K>(node@, *transform, zero, one));
        let id = pool.insert(node);
        Ok(id)
    }
}

} // verus!
