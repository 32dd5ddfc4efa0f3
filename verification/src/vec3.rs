//! Three-component vectors.

use vstd::prelude::*;

use crate::ratio::lemma_product_bound;

verus! {

/// A vector of three components of one type.
#[derive(Copy, Clone, Debug, PartialEq, Eq)]
pub struct Vec3<T> {
    pub data: [T; 3],
}

impl<T> Vec3<T> {
    /// The component at index `i`.
    pub open spec fn at(self, i: int) -> T {
        self.data@[i]
    }

    /// The vector with the components `x`, `y` and `z`.
    pub open spec fn spec_new(x: T, y: T, z: T) -> Self {
        Vec3 { data: [x, y, z] }
    }

    /// Two vectors with the same components are the same vector.
    pub proof fn lemma_ext(a: Self, b: Self)
        requires
            a.at(0) == b.at(0),
            a.at(1) == b.at(1),
            a.at(2) == b.at(2),
        ensures
            a == b,
    {
        assert(a.data =~= b.data);
    }

    pub fn new(x: T, y: T, z: T) -> (v: Self)
        ensures
            v == Self::spec_new(x, y, z),
            v.at(0) == x,
            v.at(1) == y,
            v.at(2) == z,
    {
        let v = Vec3 { data: [x, y, z] };
        proof {
            Self::lemma_ext(v, Self::spec_new(x, y, z));
        }
        v
    }

    pub fn from_tuple(t: (T, T, T)) -> (v: Self)
        ensures
            v == Self::spec_new(t.0, t.1, t.2),
    {
        let (x, y, z) = t;
        Vec3::new(x, y, z)
    }

    pub fn from_array(a: [T; 3]) -> (v: Self)
        ensures
            v.data == a,
    {
        Vec3 { data: a }
    }

    pub fn into_array(self) -> (a: [T; 3])
        ensures
            a == self.data,
    {
        self.data
    }

    /// An iterator over the three components, first to last.
    pub fn iter(&self) -> (it: std::slice::Iter<'_, T>)
        ensures
            vstd::std_specs::slice::into_iter_elts(it) == self.data@,
    {
        let it = self.data.as_slice().iter();
        proof {
            broadcast use vstd::std_specs::slice::axiom_spec_slice_iter;

            assert(vstd::std_specs::slice::into_iter_elts(it) =~= self.data@);
        }
        it
    }

    /// Builds a vector from the values of `fun` at 0, 1 and 2, called in
    /// that order.
    pub fn from_map<F: FnMut(usize) -> T>(mut fun: F) -> (v: Self)
        requires
            call_requires(fun, (0usize,)),
            call_requires(fun, (1usize,)),
            call_requires(fun, (2usize,)),
        ensures
            call_ensures(fun, (0usize,), v.at(0)),
            call_ensures(fun, (1usize,), v.at(1)),
            call_ensures(fun, (2usize,), v.at(2)),
    {
        let x = fun(0);
        let y = fun(1);
        let z = fun(2);
        Vec3::new(x, y, z)
    }
}

impl<T: Copy> Vec3<T> {
    /// The component at index `i`.
    pub fn get(&self, i: usize) -> (r: T)
        requires
            i < 3,
        ensures
            r == self.at(i as int),
    {
        self.data[i]
    }

    pub fn into_tuple(self) -> (t: (T, T, T))
        ensures
            t == (self.at(0), self.at(1), self.at(2)),
    {
        (self.data[0], self.data[1], self.data[2])
    }

    /// The vector whose three components are all `x`.
    pub fn fill(x: T) -> (v: Self)
        ensures
            v == Self::spec_new(x, x, x),
    {
        Vec3::new(x, x, x)
    }

    /// Applies `fun` to each component, first to last.
    pub fn map<S, F: FnMut(T) -> S>(&self, mut fun: F) -> (v: Vec3<S>)
        requires
            call_requires(fun, (self.at(0),)),
            call_requires(fun, (self.at(1),)),
            call_requires(fun, (self.at(2),)),
        ensures
            call_ensures(fun, (self.at(0),), v.at(0)),
            call_ensures(fun, (self.at(1),), v.at(1)),
            call_ensures(fun, (self.at(2),), v.at(2)),
    {
        let x = fun(self.data[0]);
        let y = fun(self.data[1]);
        let z = fun(self.data[2]);
        Vec3::new(x, y, z)
    }

    /// Whether `fun` holds of every component. `fun` is called on all three.
    pub fn all<F: FnMut(T) -> bool>(&self, mut fun: F) -> (b: bool)
        requires
            call_requires(fun, (self.at(0),)),
            call_requires(fun, (self.at(1),)),
            call_requires(fun, (self.at(2),)),
        ensures
            exists|b0: bool, b1: bool, b2: bool|
                call_ensures(fun, (self.at(0),), b0) && call_ensures(fun, (self.at(1),), b1)
                    && call_ensures(fun, (self.at(2),), b2) && b == (b0 && b1 && b2),
    {
        let b0 = fun(self.data[0]);
        let b1 = fun(self.data[1]);
        let b2 = fun(self.data[2]);
        b0 && b1 && b2
    }

    /// Whether `fun` holds of some component. `fun` is called on all three.
    pub fn any<F: FnMut(T) -> bool>(&self, mut fun: F) -> (b: bool)
        requires
            call_requires(fun, (self.at(0),)),
            call_requires(fun, (self.at(1),)),
            call_requires(fun, (self.at(2),)),
        ensures
            exists|b0: bool, b1: bool, b2: bool|
                call_ensures(fun, (self.at(0),), b0) && call_ensures(fun, (self.at(1),), b1)
                    && call_ensures(fun, (self.at(2),), b2) && b == (b0 || b1 || b2),
    {
        let b0 = fun(self.data[0]);
        let b1 = fun(self.data[1]);
        let b2 = fun(self.data[2]);
        b0 || b1 || b2
    }
}

impl Vec3<i32> {
    pub fn zero() -> (v: Self)
        ensures
            v == Self::spec_new(0, 0, 0),
    {
        Vec3::new(0, 0, 0)
    }

    pub fn one() -> (v: Self)
        ensures
            v == Self::spec_new(1, 1, 1),
    {
        Vec3::new(1, 1, 1)
    }

    pub fn unit_x() -> (v: Self)
        ensures
            v == Self::spec_new(1, 0, 0),
    {
        Vec3::new(1, 0, 0)
    }

    pub fn unit_y() -> (v: Self)
        ensures
            v == Self::spec_new(0, 1, 0),
    {
        Vec3::new(0, 1, 0)
    }

    pub fn unit_z() -> (v: Self)
        ensures
            v == Self::spec_new(0, 0, 1),
    {
        Vec3::new(0, 0, 1)
    }

    /// All three components are zero.
    pub open spec fn spec_is_zero(self) -> bool {
        self.at(0) == 0 && self.at(1) == 0 && self.at(2) == 0
    }

    pub fn is_zero(&self) -> (b: bool)
        ensures
            b == self.spec_is_zero(),
    {
        self.data[0] == 0 && self.data[1] == 0 && self.data[2] == 0
    }

    /// The dot product, as a mathematical integer.
    pub open spec fn spec_dot(self, that: Self) -> int {
        self.at(0) * that.at(0) + self.at(1) * that.at(1) + self.at(2) * that.at(2)
    }

    /// The dot product. It is widened so that it cannot overflow.
    pub fn dot(&self, that: Self) -> (d: i128)
        ensures
            d == self.spec_dot(that),
    {
        let a0: i128 = mul_wide(self.data[0], that.data[0]);
        let a1: i128 = mul_wide(self.data[1], that.data[1]);
        let a2: i128 = mul_wide(self.data[2], that.data[2]);
        a0 + a1 + a2
    }

    /// The squared Euclidean length.
    pub fn length_squared(&self) -> (d: i128)
        ensures
            d == self.spec_dot(*self),
            d >= 0,
    {
        proof {
            let (x, y, z) = (self.at(0) as int, self.at(1) as int, self.at(2) as int);
            assert(x * x >= 0 && y * y >= 0 && z * z >= 0) by (nonlinear_arith);
        }
        self.dot(*self)
    }

    /// The cross product, component by component, as mathematical integers.
    pub open spec fn spec_cross(self, that: Self) -> Seq<int> {
        seq![
            self.at(1) * that.at(2) - self.at(2) * that.at(1),
            self.at(2) * that.at(0) - self.at(0) * that.at(2),
            self.at(0) * that.at(1) - self.at(1) * that.at(0),
        ]
    }

    /// The cross product. It is widened so that it cannot overflow.
    pub fn cross(&self, that: Self) -> (v: Vec3<i128>)
        ensures
            v.at(0) == self.spec_cross(that)[0],
            v.at(1) == self.spec_cross(that)[1],
            v.at(2) == self.spec_cross(that)[2],
    {
        let x: i128 = mul_wide(self.data[1], that.data[2]) - mul_wide(self.data[2], that.data[1]);
        let y: i128 = mul_wide(self.data[2], that.data[0]) - mul_wide(self.data[0], that.data[2]);
        let z: i128 = mul_wide(self.data[0], that.data[1]) - mul_wide(self.data[1], that.data[0]);
        Vec3::new(x, y, z)
    }
}

/// The product of two 32-bit integers, widened.
pub fn mul_wide(a: i32, b: i32) -> (p: i128)
    ensures
        p == (a as int) * (b as int),
        -0x4000_0000_0000_0000 <= p <= 0x4000_0000_0000_0000,
{
    proof {
        lemma_product_bound(a as int, b as int, 0x8000_0000, 0x8000_0000);
    }
    (a as i128) * (b as i128)
}

} // verus!
