//! Rays on the integer grid.

use vstd::prelude::*;

use crate::ratio::lemma_product_bound;
use crate::ratio::Ratio;
use crate::vec3::Vec3;

verus! {

/// A ray: the points `pos + t * dir` for rational `t`.
#[derive(Debug, Copy, Clone, PartialEq, Eq)]
pub struct Ray {
    pub pos: Vec3<i32>,
    pub dir: Vec3<i32>,
}

impl Ray {
    /// The ray moves: its direction is not the zero vector.
    pub open spec fn wf(self) -> bool {
        !self.dir.spec_is_zero()
    }

    /// `mag` and `neg` hold the magnitude and the sign of each direction
    /// component, and `pos` is the origin.
    pub open spec fn matches(self, pos: Vec3<i32>, mag: Vec3<i64>, neg: [bool; 3]) -> bool {
        &&& self.pos == pos
        &&& forall|i: int|
            0 <= i < 3 ==> {
                &&& neg@[i] == (#[trigger] self.dir.at(i) < 0)
                &&& mag.at(i) == (if self.dir.at(i) < 0 {
                    -self.dir.at(i)
                } else {
                    self.dir.at(i) as int
                })
            }
    }

    /// Component `i` of the point at parameter `t`, scaled by `t.den`.
    pub open spec fn spec_at(self, t: Ratio, i: int) -> int {
        self.pos.at(i) * t.den + t.num * self.dir.at(i)
    }

    pub fn new(pos: Vec3<i32>, dir: Vec3<i32>) -> (r: Ray)
        ensures
            r.pos == pos,
            r.dir == dir,
    {
        Ray { pos, dir }
    }

    /// Whether the direction is not the zero vector.
    pub fn is_valid(&self) -> (b: bool)
        ensures
            b == self.wf(),
    {
        !self.dir.is_zero()
    }

    /// The magnitude of each direction component.
    pub fn dir_magnitude(&self) -> (mag: Vec3<i64>)
        ensures
            forall|i: int|
                0 <= i < 3 ==> #[trigger] mag.at(i) == (if self.dir.at(i) < 0 {
                    -self.dir.at(i)
                } else {
                    self.dir.at(i) as int
                }),
    {
        let d0: i64 = self.dir.get(0) as i64;
        let d1: i64 = self.dir.get(1) as i64;
        let d2: i64 = self.dir.get(2) as i64;
        Vec3::new(
            if d0 < 0 {
                -d0
            } else {
                d0
            },
            if d1 < 0 {
                -d1
            } else {
                d1
            },
            if d2 < 0 {
                -d2
            } else {
                d2
            },
        )
    }

    /// For each direction component, whether it is negative.
    pub fn dir_sign(&self) -> (neg: [bool; 3])
        ensures
            forall|i: int| 0 <= i < 3 ==> #[trigger] neg@[i] == (self.dir.at(i) < 0),
    {
        [self.dir.get(0) < 0, self.dir.get(1) < 0, self.dir.get(2) < 0]
    }

    /// The point at parameter `t`, each component scaled by `t.den`.
    pub fn at(&self, t: Ratio) -> (p: Vec3<i128>)
        requires
            t.wf(),
        ensures
            forall|i: int| 0 <= i < 3 ==> #[trigger] p.at(i) == self.spec_at(t, i),
    {
        let x: i128 = self.at_axis(t, 0);
        let y: i128 = self.at_axis(t, 1);
        let z: i128 = self.at_axis(t, 2);
        Vec3::new(x, y, z)
    }

    /// One component of the point at parameter `t`, scaled by `t.den`.
    pub fn at_axis(&self, t: Ratio, i: usize) -> (c: i128)
        requires
            t.wf(),
            i < 3,
        ensures
            c == self.spec_at(t, i as int),
    {
        let p: i128 = self.pos.get(i) as i128;
        let d: i128 = self.dir.get(i) as i128;
        proof {
            lemma_product_bound(p as int, t.den as int, 0x8000_0000, 0x8000_0000_0000_0000);
            lemma_product_bound(t.num as int, d as int, 0x8000_0000_0000_0000, 0x8000_0000);
        }
        p * (t.den as i128) + (t.num as i128) * d
    }
}

} // verus!
