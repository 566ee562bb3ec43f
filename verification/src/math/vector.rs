//! Fixed-size vectors over an arbitrary scalar type.
//!
//! Arithmetic goes through the scalar's own operators. What an operator
//! returns is known exactly for scalars whose operators obey their
//! specifications (the machine integers); for every scalar the operations
//! are free of out-of-bounds accesses and always terminate.
use core::ops::{Add, Div, Index, Mul, Sub};
use num_traits::Float;
use vstd::prelude::*;
use vstd::std_specs::ops::{AddSpec, DivSpec, MulSpec, SubSpec};

verus! {

/// `N` scalars of type `T`, stored inline.
#[derive(Copy, Clone, Debug)]
pub struct Vector<T: Copy + Clone, const N: usize>(pub [T; N]);

impl<T: Copy + Clone, const N: usize> View for Vector<T, N> {
    type V = Seq<T>;

    open spec fn view(&self) -> Seq<T> {
        self.0@
    }
}

/// A vector is determined by its components.
pub proof fn lemma_vector_determined<T: Copy + Clone, const N: usize>(a: Vector<T, N>)
    ensures
        forall|b: Vector<T, N>| #[trigger] b@ == a@ ==> b == a,
{
    assert forall|b: Vector<T, N>| #[trigger] b@ == a@ implies b == a by {
        assert(a.0 =~= b.0);
    }
}

impl<T: Copy + Clone, const N: usize> From<[T; N]> for Vector<T, N> {
    fn from(data: [T; N]) -> (r: Self) {
        Vector(data)
    }
}

impl<T: Copy + Clone, const N: usize> vstd::std_specs::convert::FromSpecImpl<[T; N]> for Vector<T, N> {
    open spec fn obeys_from_spec() -> bool {
        true
    }

    open spec fn from_spec(data: [T; N]) -> Self {
        Vector(data)
    }
}

impl<T: Copy + Clone + Default, const N: usize> Default for Vector<T, N> {
    /// Every component is the scalar's default value.
    fn default() -> (r: Self)
        ensures
            forall|i: int| 0 <= i < N ==> call_ensures(T::default, (), #[trigger] r@[i]),
            forall|i: int, j: int| 0 <= i < N && 0 <= j < N ==> r@[i] == r@[j],
    {
        Vector([T::default();N])
    }
}

impl<T: Copy + Clone + Default, const N: usize> Index<usize> for Vector<T, N> {
    type Output = T;

    fn index(&self, index: usize) -> (r: &T)
        ensures
            *r == self@[index as int],
    {
        &self.0[index]
    }
}

impl<T: Copy + Clone + Default, const N: usize> vstd::std_specs::core::IndexSpecImpl<usize> for Vector<T, N> {
    open spec fn index_req(&self, index: &usize) -> bool {
        *index < N
    }
}

impl<T: Copy + Clone, const N: usize> Vector<T, N> {
    /// Wraps an array of components.
    pub fn of(data: [T; N]) -> (r: Self)
        ensures
            r.0 == data,
    {
        Vector(data)
    }

    /// The components as an array.
    pub fn into_array(self) -> (r: [T; N])
        ensures
            r == self.0,
    {
        self.0
    }

    /// Mutable access to component `index`.
    pub fn index_mut(&mut self, index: usize) -> (r: &mut T)
        requires
            index < N,
        ensures
            *r == old(self)@[index as int],
            final(self)@ == old(self)@.update(index as int, *final(r)),
    {
        &mut self.0[index]
    }
}

impl<T: Copy + Clone + Add, const N: usize> Add for Vector<T, N> where <T as Add>::Output: Copy + Default {
    type Output = Vector<<T as Add>::Output, N>;

    /// Component-wise sum.
    fn add(self, other: Vector<T, N>) -> (r: Vector<<T as Add>::Output, N>)
        ensures
            T::obeys_add_spec() ==> forall|i: int|
                0 <= i < N ==> #[trigger] r@[i] == self@[i].add_spec(other@[i]),
    {
        let mut result = [<T as Add>::Output::default();N];
        let mut i: usize = 0;
        while i < N
            invariant
                i <= N,
                forall|j: int| 0 <= j < N ==> (#[trigger] self@[j]).add_req(other@[j]),
                T::obeys_add_spec() ==> forall|j: int|
                    0 <= j < i ==> #[trigger] result@[j] == self@[j].add_spec(other@[j]),
            decreases N - i,
        {
            assert(self@[i as int].add_req(other@[i as int]));
            result[i] = self.0[i] + other.0[i];
            i = i + 1;
        }
        let r = Vector(result);
        proof {
            if T::obeys_add_spec() {
                assert(r@ =~= Seq::new(N as nat, |i: int| self@[i].add_spec(other@[i])));
                lemma_vector_determined(r);
            }
        }
        r
    }
}

impl<T: Copy + Clone + Add, const N: usize> vstd::std_specs::ops::AddSpecImpl for Vector<T, N> where <T as Add>::Output: Copy + Default {
    open spec fn obeys_add_spec() -> bool {
        T::obeys_add_spec()
    }

    open spec fn add_req(self, other: Vector<T, N>) -> bool {
        forall|i: int| 0 <= i < N ==> (#[trigger] self@[i]).add_req(other@[i])
    }

    open spec fn add_spec(self, other: Vector<T, N>) -> Vector<<T as Add>::Output, N> {
        choose|r: Vector<<T as Add>::Output, N>|
            r@ == Seq::new(N as nat, |i: int| self@[i].add_spec(other@[i]))
    }
}

impl<T: Copy + Clone + Sub, const N: usize> Sub for Vector<T, N> where <T as Sub>::Output: Copy + Default {
    type Output = Vector<<T as Sub>::Output, N>;

    /// Component-wise difference.
    fn sub(self, other: Vector<T, N>) -> (r: Vector<<T as Sub>::Output, N>)
        ensures
            T::obeys_sub_spec() ==> forall|i: int|
                0 <= i < N ==> #[trigger] r@[i] == self@[i].sub_spec(other@[i]),
    {
        let mut result = [<T as Sub>::Output::default();N];
        let mut i: usize = 0;
        while i < N
            invariant
                i <= N,
                forall|j: int| 0 <= j < N ==> (#[trigger] self@[j]).sub_req(other@[j]),
                T::obeys_sub_spec() ==> forall|j: int|
                    0 <= j < i ==> #[trigger] result@[j] == self@[j].sub_spec(other@[j]),
            decreases N - i,
        {
            assert(self@[i as int].sub_req(other@[i as int]));
            result[i] = self.0[i] - other.0[i];
            i = i + 1;
        }
        let r = Vector(result);
        proof {
            if T::obeys_sub_spec() {
                assert(r@ =~= Seq::new(N as nat, |i: int| self@[i].sub_spec(other@[i])));
                lemma_vector_determined(r);
            }
        }
        r
    }
}

impl<T: Copy + Clone + Sub, const N: usize> vstd::std_specs::ops::SubSpecImpl for Vector<T, N> where <T as Sub>::Output: Copy + Default {
    open spec fn obeys_sub_spec() -> bool {
        T::obeys_sub_spec()
    }

    open spec fn sub_req(self, other: Vector<T, N>) -> bool {
        forall|i: int| 0 <= i < N ==> (#[trigger] self@[i]).sub_req(other@[i])
    }

    open spec fn sub_spec(self, other: Vector<T, N>) -> Vector<<T as Sub>::Output, N> {
        choose|r: Vector<<T as Sub>::Output, N>|
            r@ == Seq::new(N as nat, |i: int| self@[i].sub_spec(other@[i]))
    }
}

impl<T: Copy + Clone + Mul, const N: usize> Mul for Vector<T, N> where <T as Mul>::Output: Copy + Default {
    type Output = Vector<<T as Mul>::Output, N>;

    /// Component-wise product.
    fn mul(self, other: Vector<T, N>) -> (r: Vector<<T as Mul>::Output, N>)
        ensures
            T::obeys_mul_spec() ==> forall|i: int|
                0 <= i < N ==> #[trigger] r@[i] == self@[i].mul_spec(other@[i]),
    {
        let mut result = [<T as Mul>::Output::default();N];
        let mut i: usize = 0;
        while i < N
            invariant
                i <= N,
                forall|j: int| 0 <= j < N ==> (#[trigger] self@[j]).mul_req(other@[j]),
                T::obeys_mul_spec() ==> forall|j: int|
                    0 <= j < i ==> #[trigger] result@[j] == self@[j].mul_spec(other@[j]),
            decreases N - i,
        {
            assert(self@[i as int].mul_req(other@[i as int]));
            result[i] = self.0[i] * other.0[i];
            i = i + 1;
        }
        let r = Vector(result);
        proof {
            if T::obeys_mul_spec() {
                assert(r@ =~= Seq::new(N as nat, |i: int| self@[i].mul_spec(other@[i])));
                lemma_vector_determined(r);
            }
        }
        r
    }
}

impl<T: Copy + Clone + Mul, const N: usize> vstd::std_specs::ops::MulSpecImpl for Vector<T, N> where <T as Mul>::Output: Copy + Default {
    open spec fn obeys_mul_spec() -> bool {
        T::obeys_mul_spec()
    }

    open spec fn mul_req(self, other: Vector<T, N>) -> bool {
        forall|i: int| 0 <= i < N ==> (#[trigger] self@[i]).mul_req(other@[i])
    }

    open spec fn mul_spec(self, other: Vector<T, N>) -> Vector<<T as Mul>::Output, N> {
        choose|r: Vector<<T as Mul>::Output, N>|
            r@ == Seq::new(N as nat, |i: int| self@[i].mul_spec(other@[i]))
    }
}

impl<T: Copy + Clone + Div, const N: usize> Div for Vector<T, N> where <T as Div>::Output: Copy + Default {
    type Output = Vector<<T as Div>::Output, N>;

    /// Component-wise quotient.
    fn div(self, other: Vector<T, N>) -> (r: Vector<<T as Div>::Output, N>)
        ensures
            T::obeys_div_spec() ==> forall|i: int|
                0 <= i < N ==> #[trigger] r@[i] == self@[i].div_spec(other@[i]),
    {
        let mut result = [<T as Div>::Output::default();N];
        let mut i: usize = 0;
        while i < N
            invariant
                i <= N,
                forall|j: int| 0 <= j < N ==> (#[trigger] self@[j]).div_req(other@[j]),
                T::obeys_div_spec() ==> forall|j: int|
                    0 <= j < i ==> #[trigger] result@[j] == self@[j].div_spec(other@[j]),
            decreases N - i,
        {
            assert(self@[i as int].div_req(other@[i as int]));
            result[i] = self.0[i] / other.0[i];
            i = i + 1;
        }
        let r = Vector(result);
        proof {
            if T::obeys_div_spec() {
                assert(r@ =~= Seq::new(N as nat, |i: int| self@[i].div_spec(other@[i])));
                lemma_vector_determined(r);
            }
        }
        r
    }
}

impl<T: Copy + Clone + Div, const N: usize> vstd::std_specs::ops::DivSpecImpl for Vector<T, N> where <T as Div>::Output: Copy + Default {
    open spec fn obeys_div_spec() -> bool {
        T::obeys_div_spec()
    }

    open spec fn div_req(self, other: Vector<T, N>) -> bool {
        forall|i: int| 0 <= i < N ==> (#[trigger] self@[i]).div_req(other@[i])
    }

    open spec fn div_spec(self, other: Vector<T, N>) -> Vector<<T as Div>::Output, N> {
        choose|r: Vector<<T as Div>::Output, N>|
            r@ == Seq::new(N as nat, |i: int| self@[i].div_spec(other@[i]))
    }
}

impl<T: Copy + Clone + Mul, const N: usize> Mul<T> for Vector<T, N> where <T as Mul>::Output: Copy + Default {
    type Output = Vector<<T as Mul>::Output, N>;

    /// Every component times the scalar `other`.
    fn mul(self, other: T) -> (r: Vector<<T as Mul>::Output, N>)
        ensures
            T::obeys_mul_spec() ==> forall|i: int|
                0 <= i < N ==> #[trigger] r@[i] == self@[i].mul_spec(other),
    {
        let mut result = [<T as Mul>::Output::default();N];
        let mut i: usize = 0;
        while i < N
            invariant
                i <= N,
                forall|j: int| 0 <= j < N ==> (#[trigger] self@[j]).mul_req(other),
                T::obeys_mul_spec() ==> forall|j: int|
                    0 <= j < i ==> #[trigger] result@[j] == self@[j].mul_spec(other),
            decreases N - i,
        {
            assert(self@[i as int].mul_req(other));
            result[i] = self.0[i] * other;
            i = i + 1;
        }
        let r = Vector(result);
        proof {
            if T::obeys_mul_spec() {
                assert(r@ =~= Seq::new(N as nat, |i: int| self@[i].mul_spec(other)));
                lemma_vector_determined(r);
            }
        }
        r
    }
}

impl<T: Copy + Clone + Mul, const N: usize> vstd::std_specs::ops::MulSpecImpl<T> for Vector<T, N> where <T as Mul>::Output: Copy + Default {
    open spec fn obeys_mul_spec() -> bool {
        T::obeys_mul_spec()
    }

    open spec fn mul_req(self, other: T) -> bool {
        forall|i: int| 0 <= i < N ==> (#[trigger] self@[i]).mul_req(other)
    }

    open spec fn mul_spec(self, other: T) -> Vector<<T as Mul>::Output, N> {
        choose|r: Vector<<T as Mul>::Output, N>|
            r@ == Seq::new(N as nat, |i: int| self@[i].mul_spec(other))
    }
}

impl<T: Copy + Clone + Div, const N: usize> Div<T> for Vector<T, N> where <T as Div>::Output: Copy + Default {
    type Output = Vector<<T as Div>::Output, N>;

    /// Every component divided by the scalar `other`.
    fn div(self, other: T) -> (r: Vector<<T as Div>::Output, N>)
        ensures
            T::obeys_div_spec() ==> forall|i: int|
                0 <= i < N ==> #[trigger] r@[i] == self@[i].div_spec(other),
    {
        let mut result = [<T as Div>::Output::default();N];
        let mut i: usize = 0;
        while i < N
            invariant
                i <= N,
                forall|j: int| 0 <= j < N ==> (#[trigger] self@[j]).div_req(other),
                T::obeys_div_spec() ==> forall|j: int|
                    0 <= j < i ==> #[trigger] result@[j] == self@[j].div_spec(other),
            decreases N - i,
        {
            assert(self@[i as int].div_req(other));
            result[i] = self.0[i] / other;
            i = i + 1;
        }
        let r = Vector(result);
        proof {
            if T::obeys_div_spec() {
                assert(r@ =~= Seq::new(N as nat, |i: int| self@[i].div_spec(other)));
                lemma_vector_determined(r);
            }
        }
        r
    }
}

impl<T: Copy + Clone + Div, const N: usize> vstd::std_specs::ops::DivSpecImpl<T> for Vector<T, N> where <T as Div>::Output: Copy + Default {
    open spec fn obeys_div_spec() -> bool {
        T::obeys_div_spec()
    }

    open spec fn div_req(self, other: T) -> bool {
        forall|i: int| 0 <= i < N ==> (#[trigger] self@[i]).div_req(other)
    }

    open spec fn div_spec(self, other: T) -> Vector<<T as Div>::Output, N> {
        choose|r: Vector<<T as Div>::Output, N>|
            r@ == Seq::new(N as nat, |i: int| self@[i].div_spec(other))
    }
}

impl<T: Copy + Clone + Add<Output = T>, const N: usize> Vector<T, N> {
    /// Component-wise sum, in place.
    pub fn add_assign(&mut self, other: Vector<T, N>)
        requires
            forall|i: int| 0 <= i < N ==> (#[trigger] old(self)@[i]).add_req(other@[i]),
        ensures
            T::obeys_add_spec() ==> forall|i: int|
                0 <= i < N ==> #[trigger] final(self)@[i] == old(self)@[i].add_spec(other@[i]),
    {
        let mut i: usize = 0;
        while i < N
            invariant
                i <= N,
                forall|j: int| 0 <= j < N ==> (#[trigger] old(self)@[j]).add_req(other@[j]),
                forall|j: int| i <= j < N ==> self@[j] == old(self)@[j],
                T::obeys_add_spec() ==> forall|j: int|
                    0 <= j < i ==> #[trigger] self@[j] == old(self)@[j].add_spec(other@[j]),
            decreases N - i,
        {
            assert(old(self)@[i as int].add_req(other@[i as int]));
            self.0[i] = self.0[i] + other.0[i];
            i = i + 1;
        }
    }
}

impl<T: Copy + Clone + Sub<Output = T>, const N: usize> Vector<T, N> {
    /// Component-wise difference, in place.
    pub fn sub_assign(&mut self, other: Vector<T, N>)
        requires
            forall|i: int| 0 <= i < N ==> (#[trigger] old(self)@[i]).sub_req(other@[i]),
        ensures
            T::obeys_sub_spec() ==> forall|i: int|
                0 <= i < N ==> #[trigger] final(self)@[i] == old(self)@[i].sub_spec(other@[i]),
    {
        let mut i: usize = 0;
        while i < N
            invariant
                i <= N,
                forall|j: int| 0 <= j < N ==> (#[trigger] old(self)@[j]).sub_req(other@[j]),
                forall|j: int| i <= j < N ==> self@[j] == old(self)@[j],
                T::obeys_sub_spec() ==> forall|j: int|
                    0 <= j < i ==> #[trigger] self@[j] == old(self)@[j].sub_spec(other@[j]),
            decreases N - i,
        {
            assert(old(self)@[i as int].sub_req(other@[i as int]));
            self.0[i] = self.0[i] - other.0[i];
            i = i + 1;
        }
    }
}

impl<T: Copy + Clone + Mul<Output = T>, const N: usize> Vector<T, N> {
    /// Component-wise product, in place.
    pub fn mul_assign(&mut self, other: Vector<T, N>)
        requires
            forall|i: int| 0 <= i < N ==> (#[trigger] old(self)@[i]).mul_req(other@[i]),
        ensures
            T::obeys_mul_spec() ==> forall|i: int|
                0 <= i < N ==> #[trigger] final(self)@[i] == old(self)@[i].mul_spec(other@[i]),
    {
        let mut i: usize = 0;
        while i < N
            invariant
                i <= N,
                forall|j: int| 0 <= j < N ==> (#[trigger] old(self)@[j]).mul_req(other@[j]),
                forall|j: int| i <= j < N ==> self@[j] == old(self)@[j],
                T::obeys_mul_spec() ==> forall|j: int|
                    0 <= j < i ==> #[trigger] self@[j] == old(self)@[j].mul_spec(other@[j]),
            decreases N - i,
        {
            assert(old(self)@[i as int].mul_req(other@[i as int]));
            self.0[i] = self.0[i] * other.0[i];
            i = i + 1;
        }
    }

    /// Every component times the scalar `other`, in place.
    pub fn mul_assign_scalar(&mut self, other: T)
        requires
            forall|i: int| 0 <= i < N ==> (#[trigger] old(self)@[i]).mul_req(other),
        ensures
            T::obeys_mul_spec() ==> forall|i: int|
                0 <= i < N ==> #[trigger] final(self)@[i] == old(self)@[i].mul_spec(other),
    {
        let mut i: usize = 0;
        while i < N
            invariant
                i <= N,
                forall|j: int| 0 <= j < N ==> (#[trigger] old(self)@[j]).mul_req(other),
                forall|j: int| i <= j < N ==> self@[j] == old(self)@[j],
                T::obeys_mul_spec() ==> forall|j: int|
                    0 <= j < i ==> #[trigger] self@[j] == old(self)@[j].mul_spec(other),
            decreases N - i,
        {
            assert(old(self)@[i as int].mul_req(other));
            self.0[i] = self.0[i] * other;
            i = i + 1;
        }
    }
}

impl<T: Copy + Clone + Div<Output = T>, const N: usize> Vector<T, N> {
    /// Component-wise quotient, in place.
    pub fn div_assign(&mut self, other: Vector<T, N>)
        requires
            forall|i: int| 0 <= i < N ==> (#[trigger] old(self)@[i]).div_req(other@[i]),
        ensures
            T::obeys_div_spec() ==> forall|i: int|
                0 <= i < N ==> #[trigger] final(self)@[i] == old(self)@[i].div_spec(other@[i]),
    {
        let mut i: usize = 0;
        while i < N
            invariant
                i <= N,
                forall|j: int| 0 <= j < N ==> (#[trigger] old(self)@[j]).div_req(other@[j]),
                forall|j: int| i <= j < N ==> self@[j] == old(self)@[j],
                T::obeys_div_spec() ==> forall|j: int|
                    0 <= j < i ==> #[trigger] self@[j] == old(self)@[j].div_spec(other@[j]),
            decreases N - i,
        {
            assert(old(self)@[i as int].div_req(other@[i as int]));
            self.0[i] = self.0[i] / other.0[i];
            i = i + 1;
        }
    }

    /// Every component divided by the scalar `other`, in place.
    pub fn div_assign_scalar(&mut self, other: T)
        requires
            forall|i: int| 0 <= i < N ==> (#[trigger] old(self)@[i]).div_req(other),
        ensures
            T::obeys_div_spec() ==> forall|i: int|
                0 <= i < N ==> #[trigger] final(self)@[i] == old(self)@[i].div_spec(other),
    {
        let mut i: usize = 0;
        while i < N
            invariant
                i <= N,
                forall|j: int| 0 <= j < N ==> (#[trigger] old(self)@[j]).div_req(other),
                forall|j: int| i <= j < N ==> self@[j] == old(self)@[j],
                T::obeys_div_spec() ==> forall|j: int|
                    0 <= j < i ==> #[trigger] self@[j] == old(self)@[j].div_spec(other),
            decreases N - i,
        {
            assert(old(self)@[i as int].div_req(other));
            self.0[i] = self.0[i] / other;
            i = i + 1;
        }
    }
}

impl<T: Copy + Clone + Default> Vector<T, 16> {
    /// Reads a 4x4 matrix from four arrays of four scalars each: the scalar
    /// at position `j` of array `i` lands at position `j * 4 + i`.
    pub fn from_2d_array(src: &[[T; 4]; 4]) -> (m: Vector<T, 16>)
        ensures
            forall|i: int, j: int|
                0 <= i < 4 && 0 <= j < 4 ==> #[trigger] m@[i * 4 + j] == src@[j]@[i],
    {
        let mut m = [T::default();16];
        let mut i: usize = 0;
        while i < 4
            invariant
                i <= 4,
                forall|a: int, b: int|
                    0 <= a < i && 0 <= b < 4 ==> #[trigger] m@[a * 4 + b] == src@[b]@[a],
            decreases 4 - i,
        {
            let mut j: usize = 0;
            while j < 4
                invariant
                    i < 4,
                    j <= 4,
                    forall|a: int, b: int|
                        0 <= a < i && 0 <= b < 4 ==> #[trigger] m@[a * 4 + b] == src@[b]@[a],
                    forall|b: int| 0 <= b < j ==> #[trigger] m@[i * 4 + b] == src@[b]@[i as int],
                decreases 4 - j,
            {
                let ghost before = m@;
                m[i * 4 + j] = src[j][i];
                proof {
                    assert forall|a: int, b: int| 0 <= a < i && 0 <= b < 4 implies #[trigger] m@[a * 4
                        + b] == src@[b]@[a] by {
                        assert(before[a * 4 + b] == src@[b]@[a]);
                    }
                    assert forall|b: int| 0 <= b < j + 1 implies #[trigger] m@[i * 4 + b]
                        == src@[b]@[i as int] by {
                        if b < j {
                            assert(before[i * 4 + b] == src@[b]@[i as int]);
                        }
                    }
                }
                j = j + 1;
            }
            i = i + 1;
        }
        Vector(m)
    }
}

/// The running sum of the first `n` component products, added left to right
/// onto `zero`.
pub open spec fn dot_prefix<T: Mul>(a: Seq<T>, b: Seq<T>, zero: <T as Mul>::Output, n: nat) -> <
    T as Mul
>::Output where <T as Mul>::Output: Add<Output = <T as Mul>::Output>
    decreases n,
{
    if n == 0 {
        zero
    } else {
        dot_prefix(a, b, zero, (n - 1) as nat).add_spec(a[n - 1].mul_spec(b[n - 1]))
    }
}

/// Every product and every partial sum of the first `n` components can be
/// formed.
pub open spec fn dot_defined<T: Mul>(
    a: Seq<T>,
    b: Seq<T>,
    zero: <T as Mul>::Output,
    n: nat,
) -> bool where <T as Mul>::Output: Add<Output = <T as Mul>::Output>
    decreases n,
{
    n == 0 || {
        &&& dot_defined(a, b, zero, (n - 1) as nat)
        &&& a[n - 1].mul_req(b[n - 1])
        &&& dot_prefix(a, b, zero, (n - 1) as nat).add_req(a[n - 1].mul_spec(b[n - 1]))
    }
}

impl<T: Copy + Clone + Mul, const N: usize> Vector<T, N> where
    <T as Mul>::Output: Copy + Default + Add<Output = <T as Mul>::Output>,
 {
    /// Whether the dot product with `other` can be formed. Either the
    /// scalar's multiplication and addition accept all operands, or they obey
    /// their specifications and no product or partial sum leaves the
    /// scalar's range.
    pub open spec fn dot_req(self, other: Vector<T, N>) -> bool {
        ||| {
            &&& forall|x: T, y: T| #[trigger] x.mul_req(y)
            &&& forall|x: <T as Mul>::Output, y: <T as Mul>::Output| #[trigger] x.add_req(y)
        }
        ||| {
            &&& T::obeys_mul_spec()
            &&& <<T as Mul>::Output as AddSpec>::obeys_add_spec()
            &&& forall|zero: <T as Mul>::Output|
                call_ensures(<T as Mul>::Output::default, (), zero) ==> dot_defined(
                    self@,
                    other@,
                    zero,
                    N as nat,
                )
        }
    }

    /// Whether `r` is the dot product with `other`: the component products
    /// added in index order onto the default scalar.
    pub open spec fn is_dot(self, other: Vector<T, N>, r: <T as Mul>::Output) -> bool {
        exists|zero: <T as Mul>::Output|
            call_ensures(<T as Mul>::Output::default, (), zero) && r == dot_prefix(
                self@,
                other@,
                zero,
                N as nat,
            )
    }

    /// Dot product: the component products, summed in index order onto the
    /// default scalar. The sum is known exactly where the scalar's operators
    /// obey their specifications.
    pub fn dot(self, other: Vector<T, N>) -> (r: <T as Mul>::Output)
        requires
            self.dot_req(other),
        ensures
            T::obeys_mul_spec() && <<T as Mul>::Output as AddSpec>::obeys_add_spec()
                ==> self.is_dot(other, r),
    {
        let zero = <T as Mul>::Output::default();
        let mut sum = zero;
        let mut i: usize = 0;
        let ghost lawful = T::obeys_mul_spec() && <<T as Mul>::Output as AddSpec>::obeys_add_spec();
        let ghost total = {
            &&& forall|x: T, y: T| #[trigger] x.mul_req(y)
            &&& forall|x: <T as Mul>::Output, y: <T as Mul>::Output| #[trigger] x.add_req(y)
        };
        while i < N
            invariant
                i <= N,
                lawful == (T::obeys_mul_spec() && <<T as Mul>::Output as AddSpec>::obeys_add_spec()),
                total == {
                    &&& forall|x: T, y: T| #[trigger] x.mul_req(y)
                    &&& forall|x: <T as Mul>::Output, y: <T as Mul>::Output| #[trigger] x.add_req(y)
                },
                total || (lawful && dot_defined(self@, other@, zero, N as nat)),
                lawful ==> sum == dot_prefix(self@, other@, zero, i as nat),
            decreases N - i,
        {
            proof {
                if !total {
                    lemma_dot_defined_prefix(self@, other@, zero, N as nat, (i + 1) as nat);
                }
            }
            let product = self.0[i] * other.0[i];
            sum = sum + product;
            i = i + 1;
        }
        sum
    }
}

/// A dot product that can be formed over `n` components can be formed over
/// any shorter prefix.
pub proof fn lemma_dot_defined_prefix<T: Mul>(
    a: Seq<T>,
    b: Seq<T>,
    zero: <T as Mul>::Output,
    n: nat,
    m: nat,
) where <T as Mul>::Output: Add<Output = <T as Mul>::Output>
    requires
        dot_defined(a, b, zero, n),
        m <= n,
    ensures
        dot_defined(a, b, zero, m),
    decreases n,
{
    if m < n {
        lemma_dot_defined_prefix(a, b, zero, (n - 1) as nat, m);
    }
}

/// Calls `num_traits::Float::sqrt` on `x`. What comes back depends on how
/// the scalar type implements that method, so nothing is claimed of it.
#[verifier::external_body]
fn square_root<T: Float>(x: T) -> (r: T) {
    x.sqrt()
}

/// Whether `r` is what the scalar's own square root gave for `x`. Which
/// scalar that is depends on how the scalar type implements the square root;
/// this only ties a result to the operand it was computed from.
pub closed spec fn is_square_root<T: Float>(x: T, r: T) -> bool {
    call_ensures(square_root::<T>, (x,), r)
}

impl<T: Copy + Clone + Float + Default + Mul<Output = T> + Add<Output = T> + Div<Output = T>, const N: usize> Vector<T, N> {
    /// Whether `d` is what [`Vector::dot`] gave for this vector and `other`.
    /// Where the scalar's operators obey their specifications, that is the
    /// dot product itself.
    pub open spec fn dot_gave(self, other: Vector<T, N>, d: T) -> bool {
        call_ensures(Vector::<T, N>::dot, (self, other), d)
    }

    /// Whether `r` is the Euclidean length of this vector: what the scalar's
    /// square root gave for the dot product of the vector with itself.
    pub open spec fn is_magnitude(self, r: T) -> bool {
        exists|d: T| self.dot_gave(self, d) && #[trigger] is_square_root(d, r)
    }

    /// Euclidean length: the scalar's square root of the dot product with
    /// itself.
    pub fn magnitude(self) -> (r: T)
        requires
            self.dot_req(self),
        ensures
            self.is_magnitude(r),
    {
        let d = self.dot(self);
        let r = square_root(d);
        assert(self.dot_gave(self, d) && is_square_root(d, r));
        r
    }

    /// Where the scalar's operators obey their specifications, a length is
    /// the scalar's square root of the sum of the squared components.
    pub proof fn lemma_magnitude_of_squares(self, r: T)
        requires
            self.dot_req(self),
            self.is_magnitude(r),
            T::obeys_mul_spec(),
            T::obeys_add_spec(),
        ensures
            exists|d: T| self.is_dot(self, d) && #[trigger] is_square_root(d, r),
    {
        let d = choose|d: T| self.dot_gave(self, d) && #[trigger] is_square_root(d, r);
        assert(self.is_dot(self, d));
    }

    /// Whether `r` is this vector with every component divided by `m`, as
    /// far as the scalar's division obeys its specification.
    pub open spec fn is_quotient(self, r: Self, m: T) -> bool {
        T::obeys_div_spec() ==> forall|i: int|
            0 <= i < N ==> #[trigger] r@[i] == self@[i].div_spec(m)
    }

    /// This vector divided by its length: every component divided by the
    /// scalar that [`Vector::magnitude`] gives.
    pub fn normalized(self) -> (r: Self)
        requires
            self.dot_req(self),
            forall|m: T| #[trigger] self.div_req(m),
        ensures
            exists|m: T| self.is_magnitude(m) && #[trigger] self.is_quotient(r, m),
    {
        let m = self.magnitude();
        assert(self.div_req(m));
        let r = self / m;
        assert(self.is_magnitude(m) && self.is_quotient(r, m));
        r
    }
}

} // verus!
