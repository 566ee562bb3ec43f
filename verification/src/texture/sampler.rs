//! How a texture is filtered and wrapped when it is sampled.
use vstd::prelude::*;

verus! {

/// How texels are picked between sample points or between mip levels.
#[derive(Clone, Copy, Debug, PartialEq, Eq, Structural)]
pub enum FilterMode {
    Nearest,
    Linear,
}

/// What happens to texture coordinates outside the unit square.
#[derive(Clone, Copy, Debug, PartialEq, Eq, Structural)]
pub enum WrapMode {
    ClampToEdge,
    MirrorRepeat,
    Repeat,
}

/// The full sampling state.
#[derive(Clone, Copy, Debug, PartialEq, Eq, Structural)]
pub struct SamplerDescriptor {
    pub mag_filter: FilterMode,
    pub min_filter: FilterMode,
    pub mipmap_filter: FilterMode,
    pub wrap_u: WrapMode,
    pub wrap_v: WrapMode,
    pub wrap_w: WrapMode,
}

/// A sampler resource.
#[derive(Clone, Copy, Debug, PartialEq, Eq, Structural)]
pub struct Sampler {
    pub descriptor: SamplerDescriptor,
}

impl Sampler {
    /// Creates a sampler with the given state.
    pub fn new(descriptor: SamplerDescriptor) -> (sampler: Self)
        ensures
            sampler.descriptor == descriptor,
    {
        Sampler { descriptor }
    }

    /// The sampling state.
    pub fn borrow_descriptor(&self) -> (r: &SamplerDescriptor)
        ensures
            *r == self.descriptor,
    {
        &self.descriptor
    }
}

} // verus!
