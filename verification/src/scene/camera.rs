//! Perspective cameras.
use crate::math::vector::Vector;
use crate::scene::node::{DegenerateTransform, TransformMath};
use vstd::prelude::*;

verus! {

/// A perspective camera: its four parameters and the projection matrices
/// cached from them.
#[derive(Debug)]
pub struct PerspectiveCamera<T: Copy + Clone> {
    aspect: T,
    far: T,
    fovy: T,
    near: T,
    projection_matrix: Vector<T, 16>,
    projection_matrix_inverse: Vector<T, 16>,
}

/// What a [`PerspectiveCamera`] holds, as plain values.
pub struct CameraModel<T: Copy + Clone> {
    pub aspect: T,
    pub far: T,
    pub fovy: T,
    pub near: T,
    pub projection_matrix: Vector<T, 16>,
    pub projection_matrix_inverse: Vector<T, 16>,
}

impl<T: Copy + Clone> CameraModel<T> {
    /// The cached matrices are the projection for the four parameters and
    /// its inverse, as the arithmetic `K` gives them.
    pub open spec fn projected<K: TransformMath<T>>(self) -> bool {
        &&& call_ensures(
            K::make_perspective,
            (self.fovy, self.aspect, self.near, self.far),
            self.projection_matrix,
        )
        &&& call_ensures(
            K::invert,
            (&self.projection_matrix,),
            Some(self.projection_matrix_inverse),
        )
    }

    /// The projection for the four parameters has no inverse: some matrix
    /// that `K` gives for them is one that `K` cannot invert.
    pub open spec fn degenerate<K: TransformMath<T>>(fovy: T, aspect: T, near: T, far: T) -> bool {
        exists|projection: Vector<T, 16>| #[trigger]
            call_ensures(K::make_perspective, (fovy, aspect, near, far), projection)
                && call_ensures(K::invert, (&projection,), None)
    }
}

impl<T: Copy + Clone> View for PerspectiveCamera<T> {
    type V = CameraModel<T>;

    closed spec fn view(&self) -> CameraModel<T> {
        CameraModel {
            aspect: self.aspect,
            far: self.far,
            fovy: self.fovy,
            near: self.near,
            projection_matrix: self.projection_matrix,
            projection_matrix_inverse: self.projection_matrix_inverse,
        }
    }
}

impl<T: Copy + Clone> PerspectiveCamera<T> {
    /// Creates a camera and computes its projection matrices. Parameters
    /// whose projection cannot be inverted are refused.
    pub fn new<K: TransformMath<T>>(fovy: T, aspect: T, near: T, far: T) -> (r: Result<
        Self,
        DegenerateTransform,
    >)
        ensures
            match r {
                Ok(camera) => {
                    &&& camera@.fovy == fovy
                    &&& camera@.aspect == aspect
                    &&& camera@.near == near
                    &&& camera@.far == far
                    &&& camera@.projected::<K>()
                },
                Err(_) => CameraModel::<T>::degenerate::<K>(fovy, aspect, near, far),
            },
    {
        let projection_matrix = K::make_perspective(fovy, aspect, near, far);
        match K::invert(&projection_matrix) {
            Some(projection_matrix_inverse) => Ok(
                PerspectiveCamera {
                    aspect,
                    far,
                    fovy,
                    near,
                    projection_matrix,
                    projection_matrix_inverse,
                },
            ),
            None => Err(DegenerateTransform),
        }
    }

    /// Changes the aspect ratio and recomputes the projection matrices. An
    /// aspect ratio whose projection cannot be inverted is refused and leaves
    /// the camera as it was.
    pub fn set_aspect<K: TransformMath<T>>(&mut self, aspect: T) -> (r: Result<
        (),
        DegenerateTransform,
    >)
        ensures
            match r {
                Ok(()) => {
                    &&& final(self)@.fovy == old(self)@.fovy
                    &&& final(self)@.aspect == aspect
                    &&& final(self)@.near == old(self)@.near
                    &&& final(self)@.far == old(self)@.far
                    &&& final(self)@.projected::<K>()
                },
                Err(_) => final(self)@ == old(self)@ && CameraModel::<T>::degenerate::<K>(
                    old(self)@.fovy,
                    aspect,
                    old(self)@.near,
                    old(self)@.far,
                ),
            },
    {
        let projection_matrix = K::make_perspective(self.fovy, aspect, self.near, self.far);
        match K::invert(&projection_matrix) {
            Some(projection_matrix_inverse) => {
                self.aspect = aspect;
                self.projection_matrix = projection_matrix;
                self.projection_matrix_inverse = projection_matrix_inverse;
                Ok(())
            },
            None => Err(DegenerateTransform),
        }
    }

    /// Recomputes the projection matrices from the four parameters. Where the
    /// projection cannot be inverted the camera stays as it was.
    pub fn update_projection_matrix<K: TransformMath<T>>(&mut self) -> (r: Result<
        (),
        DegenerateTransform,
    >)
        ensures
            match r {
                Ok(()) => {
                    &&& final(self)@.fovy == old(self)@.fovy
                    &&& final(self)@.aspect == old(self)@.aspect
                    &&& final(self)@.near == old(self)@.near
                    &&& final(self)@.far == old(self)@.far
                    &&& final(self)@.projected::<K>()
                },
                Err(_) => final(self)@ == old(self)@ && CameraModel::<T>::degenerate::<K>(
                    old(self)@.fovy,
                    old(self)@.aspect,
                    old(self)@.near,
                    old(self)@.far,
                ),
            },
    {
        self.set_aspect::<K>(self.aspect)
    }

    /// The cached projection matrix.
    pub fn borrow_projection_matrix(&self) -> (r: &Vector<T, 16>)
        ensures
            *r == self@.projection_matrix,
    {
        &self.projection_matrix
    }

    /// The cached inverse of the projection matrix.
    pub fn borrow_projection_matrix_inverse(&self) -> (r: &Vector<T, 16>)
        ensures
            *r == self@.projection_matrix_inverse,
    {
        &self.projection_matrix_inverse
    }
}

} // verus!
