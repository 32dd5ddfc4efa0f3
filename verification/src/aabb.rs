//! Axis-aligned bounding boxes and the slab test.

use vstd::prelude::*;

use crate::ratio::lemma_product_bound;
use crate::ratio::Ratio;
use crate::ray::Ray;
use crate::vec3::Vec3;

verus! {

/// An axis-aligned box, given by its least and greatest corner.
///
/// A box is empty when `min` exceeds `max` on some axis. The box made by
/// [`AABB::new`] is empty on every axis and is the identity of `union`.
#[derive(Debug, Copy, Clone, PartialEq, Eq)]
pub struct AABB {
    pub min: Vec3<i32>,
    pub max: Vec3<i32>,
}

pub open spec fn min_int(a: int, b: int) -> int {
    if a < b {
        a
    } else {
        b
    }
}

pub open spec fn max_int(a: int, b: int) -> int {
    if a < b {
        b
    } else {
        a
    }
}

fn min_i32(a: i32, b: i32) -> (r: i32)
    ensures
        r == min_int(a as int, b as int),
{
    if a < b {
        a
    } else {
        b
    }
}

fn max_i32(a: i32, b: i32) -> (r: i32)
    ensures
        r == max_int(a as int, b as int),
{
    if a < b {
        b
    } else {
        a
    }
}

/// Where a ray with origin `p` and direction `d != 0` on one axis enters
/// the slab `[lo, hi]` of that axis.
pub open spec fn slab_enter(lo: int, hi: int, p: int, d: int) -> Ratio {
    if d > 0 {
        Ratio { num: (lo - p) as i64, den: d as i64 }
    } else {
        Ratio { num: (p - hi) as i64, den: (-d) as i64 }
    }
}

/// Where a ray with origin `p` and direction `d != 0` on one axis leaves
/// the slab `[lo, hi]` of that axis.
pub open spec fn slab_exit(lo: int, hi: int, p: int, d: int) -> Ratio {
    if d > 0 {
        Ratio { num: (hi - p) as i64, den: d as i64 }
    } else {
        Ratio { num: (p - lo) as i64, den: (-d) as i64 }
    }
}

/// At parameter `t` the ray's coordinate on one axis lies in `[lo, hi]`.
pub open spec fn slab_holds(lo: int, hi: int, p: int, d: int, t: Ratio) -> bool {
    lo * t.den <= p * t.den + t.num * d <= hi * t.den
}

/// Narrows the interval `acc` by the slab of one axis. An axis along which
/// the ray does not move leaves the interval as it is.
pub open spec fn slab_clip(acc: Option<(Ratio, Ratio)>, lo: int, hi: int, p: int, d: int) -> Option<
    (Ratio, Ratio),
> {
    if d == 0 {
        acc
    } else {
        match acc {
            None => Some((slab_enter(lo, hi, p, d), slab_exit(lo, hi, p, d))),
            Some((t0, t1)) => Some(
                (
                    t0.spec_max(slab_enter(lo, hi, p, d)),
                    t1.spec_min(slab_exit(lo, hi, p, d)),
                ),
            ),
        }
    }
}

impl AABB {
    /// The empty box.
    pub open spec fn spec_new() -> AABB {
        AABB {
            min: Vec3::spec_new(i32::MAX, i32::MAX, i32::MAX),
            max: Vec3::spec_new(i32::MIN, i32::MIN, i32::MIN),
        }
    }

    /// No axis is inverted: the box holds at least one point.
    pub open spec fn wf(self) -> bool {
        forall|i: int| 0 <= i < 3 ==> #[trigger] self.min.at(i) <= self.max.at(i)
    }

    /// `other` lies inside `self` along axis `i`.
    pub open spec fn contains_on(self, other: AABB, i: int) -> bool {
        self.min.at(i) <= other.min.at(i) && other.max.at(i) <= self.max.at(i)
    }

    /// `other` lies inside `self`, axis by axis.
    pub open spec fn contains(self, other: AABB) -> bool {
        forall|i: int| 0 <= i < 3 ==> #[trigger] self.contains_on(other, i)
    }

    /// The point `p` lies inside `self`.
    pub open spec fn contains_point(self, p: Vec3<i32>) -> bool {
        forall|i: int| 0 <= i < 3 ==> self.min.at(i) <= #[trigger] p.at(i) <= self.max.at(i)
    }

    /// The smallest box that holds both `self` and `other`.
    pub open spec fn spec_union(self, other: AABB) -> AABB {
        AABB {
            min: Vec3::spec_new(
                min_int(self.min.at(0) as int, other.min.at(0) as int) as i32,
                min_int(self.min.at(1) as int, other.min.at(1) as int) as i32,
                min_int(self.min.at(2) as int, other.min.at(2) as int) as i32,
            ),
            max: Vec3::spec_new(
                max_int(self.max.at(0) as int, other.max.at(0) as int) as i32,
                max_int(self.max.at(1) as int, other.max.at(1) as int) as i32,
                max_int(self.max.at(2) as int, other.max.at(2) as int) as i32,
            ),
        }
    }

    /// The box that holds exactly the point `p`.
    pub open spec fn spec_from_point(p: Vec3<i32>) -> AABB {
        AABB { min: p, max: p }
    }

    /// The extent of the box along axis `i`; negative where it is inverted.
    pub open spec fn extent(self, i: int) -> int {
        self.max.at(i) - self.min.at(i)
    }

    /// `2 * (dx*dy + dy*dz + dz*dx)` for the extents `dx`, `dy`, `dz`.
    pub open spec fn spec_surface_area(self) -> int {
        2 * (self.extent(0) * self.extent(1) + self.extent(1) * self.extent(2) + self.extent(2)
            * self.extent(0))
    }

    /// Twice the centre of the box on axis `i`.
    pub open spec fn centroid2(self, i: int) -> int {
        self.min.at(i) + self.max.at(i)
    }

    /// At parameter `t` the ray is inside the box.
    pub open spec fn in_box_at(self, ray: Ray, t: Ratio) -> bool {
        forall|i: int|
            0 <= i < 3 ==> slab_holds(
                #[trigger] self.min.at(i) as int,
                self.max.at(i) as int,
                ray.pos.at(i) as int,
                ray.dir.at(i) as int,
                t,
            )
    }

    /// The ray does not move along axis `i` and stays outside its slab.
    pub open spec fn axis_misses(self, ray: Ray, i: int) -> bool {
        ray.dir.at(i) == 0 && (ray.pos.at(i) < self.min.at(i) || ray.pos.at(i) > self.max.at(
            i,
        ))
    }

    /// The interval left after clipping by the slabs of the axes below `k`.
    pub open spec fn clipped(self, ray: Ray, k: int) -> Option<(Ratio, Ratio)>
        decreases k,
    {
        if k <= 0 {
            None
        } else {
            slab_clip(
                self.clipped(ray, k - 1),
                self.min.at(k - 1) as int,
                self.max.at(k - 1) as int,
                ray.pos.at(k - 1) as int,
                ray.dir.at(k - 1) as int,
            )
        }
    }

    /// The slab test. The result is the parameter interval `(t_enter,
    /// t_exit)` over which the ray is inside the box, or `None` where that
    /// interval is empty or a single point. A ray that does not move at all
    /// gives `None`.
    pub open spec fn spec_intersect_ray(self, ray: Ray) -> Option<(Ratio, Ratio)> {
        if self.axis_misses(ray, 0) || self.axis_misses(ray, 1) || self.axis_misses(ray, 2) {
            None
        } else {
            match self.clipped(ray, 3) {
                Some((t0, t1)) => if t0.lt(t1) {
                    Some((t0, t1))
                } else {
                    None
                },
                None => None,
            }
        }
    }

    /// The slab test gives an interval, and `t` lies in it.
    pub open spec fn passes_at(self, ray: Ray, t: Ratio) -> bool {
        match self.spec_intersect_ray(ray) {
            Some((t0, t1)) => t0.le(t) && t.le(t1),
            None => false,
        }
    }

    /// A union contains both of its parts.
    pub proof fn lemma_union_contains(self, other: AABB)
        ensures
            self.spec_union(other).contains(self),
            self.spec_union(other).contains(other),
    {
        let u = self.spec_union(other);
        assert forall|i: int| 0 <= i < 3 implies #[trigger] u.contains_on(self, i)
            && u.contains_on(other, i) by {}
    }

    /// A union holds a point as soon as one of its parts does.
    pub proof fn lemma_union_wf(self, other: AABB)
        ensures
            self.wf() || other.wf() ==> self.spec_union(other).wf(),
    {
        let u = self.spec_union(other);
        if self.wf() {
            assert forall|i: int| 0 <= i < 3 implies #[trigger] u.min.at(i) <= u.max.at(i) by {
                assert(self.min.at(i) <= self.max.at(i));
            }
        } else if other.wf() {
            assert forall|i: int| 0 <= i < 3 implies #[trigger] u.min.at(i) <= u.max.at(i) by {
                assert(other.min.at(i) <= other.max.at(i));
            }
        }
    }

    /// A box contains itself.
    pub proof fn lemma_contains_self(self)
        ensures
            self.contains(self),
    {
        assert forall|i: int| 0 <= i < 3 implies #[trigger] self.contains_on(self, i) by {}
    }

    /// Containment is transitive.
    pub proof fn lemma_contains_trans(self, mid: AABB, inner: AABB)
        requires
            self.contains(mid),
            mid.contains(inner),
        ensures
            self.contains(inner),
    {
        assert forall|i: int| 0 <= i < 3 implies #[trigger] self.contains_on(inner, i) by {
            assert(self.contains_on(mid, i));
            assert(mid.contains_on(inner, i));
        }
    }

    /// Two boxes with the same corners are the same box.
    pub proof fn lemma_ext(a: AABB, b: AABB)
        requires
            forall|i: int| 0 <= i < 3 ==> a.min.at(i) == b.min.at(i),
            forall|i: int| 0 <= i < 3 ==> a.max.at(i) == b.max.at(i),
        ensures
            a == b,
    {
        Vec3::lemma_ext(a.min, b.min);
        Vec3::lemma_ext(a.max, b.max);
    }

    pub fn new() -> (b: AABB)
        ensures
            b == AABB::spec_new(),
    {
        AABB { min: Vec3::fill(i32::MAX), max: Vec3::fill(i32::MIN) }
    }

    pub fn from_point(p: Vec3<i32>) -> (b: AABB)
        ensures
            b == AABB::spec_from_point(p),
            b.wf(),
    {
        AABB { min: p, max: p }
    }

    pub fn from_points(p: Vec3<i32>, q: Vec3<i32>) -> (b: AABB)
        ensures
            b == AABB::spec_from_point(p).spec_union(AABB::spec_from_point(q)),
            b.wf(),
            b.contains_point(p),
            b.contains_point(q),
    {
        Self::from_point(p).union_point(q)
    }

    pub fn from_min_max(min: Vec3<i32>, max: Vec3<i32>) -> (b: AABB)
        ensures
            b.min == min,
            b.max == max,
    {
        AABB { min, max }
    }

    /// The smallest box that holds both boxes.
    pub fn union(self, other: AABB) -> (b: AABB)
        ensures
            b == self.spec_union(other),
    {
        AABB {
            min: Vec3::new(
                min_i32(self.min.get(0), other.min.get(0)),
                min_i32(self.min.get(1), other.min.get(1)),
                min_i32(self.min.get(2), other.min.get(2)),
            ),
            max: Vec3::new(
                max_i32(self.max.get(0), other.max.get(0)),
                max_i32(self.max.get(1), other.max.get(1)),
                max_i32(self.max.get(2), other.max.get(2)),
            ),
        }
    }

    /// The smallest box that holds both the box and the point `p`.
    pub fn union_point(self, p: Vec3<i32>) -> (b: AABB)
        ensures
            b == self.spec_union(AABB::spec_from_point(p)),
            b.contains(self),
            b.contains_point(p),
            b.wf(),
    {
        proof {
            self.lemma_union_contains(AABB::spec_from_point(p));
            self.lemma_union_wf(AABB::spec_from_point(p));
            let u = self.spec_union(AABB::spec_from_point(p));
            assert forall|i: int| 0 <= i < 3 implies u.min.at(i) <= #[trigger] p.at(i) <= u.max.at(
                i,
            ) by {
                assert(u.contains_on(AABB::spec_from_point(p), i));
            }
        }
        self.union(Self::from_point(p))
    }

    /// The surface area. Only its size relative to other areas matters.
    pub fn surface_area(&self) -> (a: i128)
        ensures
            a == self.spec_surface_area(),
            -0x10_0000_0000_0000_0000 <= a <= 0x10_0000_0000_0000_0000,
    {
        let dx: i64 = self.max.get(0) as i64 - self.min.get(0) as i64;
        let dy: i64 = self.max.get(1) as i64 - self.min.get(1) as i64;
        let dz: i64 = self.max.get(2) as i64 - self.min.get(2) as i64;
        proof {
            lemma_product_bound(dx as int, dy as int, 0x1_0000_0000, 0x1_0000_0000);
            lemma_product_bound(dy as int, dz as int, 0x1_0000_0000, 0x1_0000_0000);
            lemma_product_bound(dz as int, dx as int, 0x1_0000_0000, 0x1_0000_0000);
        }
        let xy: i128 = (dx as i128) * (dy as i128);
        let yz: i128 = (dy as i128) * (dz as i128);
        let zx: i128 = (dz as i128) * (dx as i128);
        2 * (xy + yz + zx)
    }
}


/// Both ends of one axis's slab interval, for a direction of magnitude
/// `mag > 0` that is negative where `neg` is set.
pub fn slab_span(lo: i32, hi: i32, p: i32, mag: i64, neg: bool) -> (r: (Ratio, Ratio))
    requires
        0 < mag <= 0x8000_0000,
    ensures
        r.0 == slab_enter(lo as int, hi as int, p as int, if neg {
            -mag
        } else {
            mag as int
        }),
        r.1 == slab_exit(lo as int, hi as int, p as int, if neg {
            -mag
        } else {
            mag as int
        }),
        r.0.wf(),
        r.1.wf(),
{
    let a: i64 = lo as i64 - p as i64;
    let b: i64 = hi as i64 - p as i64;
    if neg {
        (Ratio::new(-b, mag), Ratio::new(-a, mag))
    } else {
        (Ratio::new(a, mag), Ratio::new(b, mag))
    }
}

/// On an axis along which the ray moves, the ray is inside the slab
/// exactly between the slab's two ends.
pub proof fn lemma_slab_axis(lo: int, hi: int, p: int, d: int, t: Ratio)
    requires
        i32::MIN <= lo <= i32::MAX,
        i32::MIN <= hi <= i32::MAX,
        i32::MIN <= p <= i32::MAX,
        i32::MIN <= d <= i32::MAX,
        d != 0,
        t.wf(),
    ensures
        slab_enter(lo, hi, p, d).wf(),
        slab_exit(lo, hi, p, d).wf(),
        slab_holds(lo, hi, p, d, t) <==> slab_enter(lo, hi, p, d).le(t) && t.le(
            slab_exit(lo, hi, p, d),
        ),
{
    let n = t.num as int;
    let m = t.den as int;
    assert((lo - p) * m == lo * m - p * m) by (nonlinear_arith);
    assert((hi - p) * m == hi * m - p * m) by (nonlinear_arith);
    assert((p - lo) * m == p * m - lo * m) by (nonlinear_arith);
    assert((p - hi) * m == p * m - hi * m) by (nonlinear_arith);
    assert(n * (-d) == -(n * d)) by (nonlinear_arith);
}

/// On an axis along which the ray does not move, the ray is inside the
/// slab at every parameter or at none.
pub proof fn lemma_slab_still(lo: int, hi: int, p: int, t: Ratio)
    requires
        t.wf(),
    ensures
        slab_holds(lo, hi, p, 0, t) <==> lo <= p <= hi,
{
    let n = t.num as int;
    let m = t.den as int;
    assert(n * 0 == 0);
    assert(lo <= p <==> lo * m <= p * m) by (nonlinear_arith)
        requires
            m > 0,
    ;
    assert(p <= hi <==> p * m <= hi * m) by (nonlinear_arith)
        requires
            m > 0,
    ;
}

/// A parameter is at least the larger of two fractions exactly when it is
/// at least both, and at most the smaller exactly when it is at most both.
pub proof fn lemma_max_min_bounds(a: Ratio, b: Ratio, t: Ratio)
    requires
        a.wf(),
        b.wf(),
        t.wf(),
    ensures
        a.spec_max(b).le(t) <==> a.le(t) && b.le(t),
        t.le(a.spec_min(b)) <==> t.le(a) && t.le(b),
        a.spec_max(b) == a || a.spec_max(b) == b,
        a.spec_min(b) == a || a.spec_min(b) == b,
{
    Ratio::lemma_total(a, b);
    Ratio::lemma_total(b, a);
    if a.le(b) {
        if b.le(t) {
            Ratio::lemma_le_trans(a, b, t);
        }
    } else {
        if a.le(t) {
            Ratio::lemma_le_trans(b, a, t);
        }
    }
    if b.le(a) {
        if t.le(b) {
            Ratio::lemma_le_trans(t, b, a);
        }
    } else {
        if t.le(a) {
            Ratio::lemma_le_trans(t, a, b);
        }
    }
}

impl AABB {
    /// The ray moves along some axis below `k`.
    pub open spec fn moves_below(ray: Ray, k: int) -> bool {
        exists|i: int| 0 <= i < k && #[trigger] ray.dir.at(i) != 0
    }

    /// At parameter `t` the ray is inside the slab of every axis below `k`
    /// along which it moves.
    pub open spec fn in_slabs_below(self, ray: Ray, t: Ratio, k: int) -> bool {
        forall|i: int|
            0 <= i < k && ray.dir.at(i) != 0 ==> slab_holds(
                #[trigger] self.min.at(i) as int,
                self.max.at(i) as int,
                ray.pos.at(i) as int,
                ray.dir.at(i) as int,
                t,
            )
    }

    /// What the clipped interval means: it is there exactly when the ray
    /// moves along one of the axes taken so far, and it holds exactly the
    /// parameters at which the ray is inside the slabs of those axes.
    pub proof fn lemma_clipped(self, ray: Ray, t: Ratio, k: int)
        requires
            0 <= k <= 3,
            t.wf(),
        ensures
            self.clipped(ray, k) is Some <==> Self::moves_below(ray, k),
            match self.clipped(ray, k) {
                Some((t0, t1)) => {
                    &&& t0.wf()
                    &&& t1.wf()
                    &&& self.in_slabs_below(ray, t, k) <==> t0.le(t) && t.le(t1)
                },
                None => true,
            },
        decreases k,
    {
        if k > 0 {
            self.lemma_clipped(ray, t, k - 1);
            let lo = self.min.at(k - 1) as int;
            let hi = self.max.at(k - 1) as int;
            let p = ray.pos.at(k - 1) as int;
            let d = ray.dir.at(k - 1) as int;
            let prev = self.clipped(ray, k - 1);
            if d != 0 {
                lemma_slab_axis(lo, hi, p, d, t);
                let e = slab_enter(lo, hi, p, d);
                let x = slab_exit(lo, hi, p, d);
                assert(Self::moves_below(ray, k));
                match prev {
                    Some((t0, t1)) => {
                        lemma_max_min_bounds(t0, e, t);
                        lemma_max_min_bounds(t1, x, t);
                        assert(self.in_slabs_below(ray, t, k) <==> self.in_slabs_below(
                            ray,
                            t,
                            k - 1,
                        ) && slab_holds(lo, hi, p, d, t));
                    },
                    None => {
                        assert(!Self::moves_below(ray, k - 1));
                        assert(self.in_slabs_below(ray, t, k) <==> slab_holds(lo, hi, p, d, t));
                    },
                }
            } else {
                assert(Self::moves_below(ray, k) <==> Self::moves_below(ray, k - 1));
                assert(self.in_slabs_below(ray, t, k) <==> self.in_slabs_below(ray, t, k - 1));
            }
        } else {
            assert(!Self::moves_below(ray, 0));
        }
    }

    /// The ray is inside the box at `t` exactly when it misses on no axis
    /// and is inside the slab of every axis along which it moves.
    pub proof fn lemma_in_box(self, ray: Ray, t: Ratio)
        requires
            t.wf(),
        ensures
            self.in_box_at(ray, t) <==> self.in_slabs_below(ray, t, 3) && !self.axis_misses(ray, 0)
                && !self.axis_misses(ray, 1) && !self.axis_misses(ray, 2),
    {
        assert forall|i: int| 0 <= i < 3 && ray.dir.at(i) == 0 implies (slab_holds(
            #[trigger] self.min.at(i) as int,
            self.max.at(i) as int,
            ray.pos.at(i) as int,
            ray.dir.at(i) as int,
            t,
        ) <==> !self.axis_misses(ray, i)) by {
            lemma_slab_still(
                self.min.at(i) as int,
                self.max.at(i) as int,
                ray.pos.at(i) as int,
                t,
            );
        }
        if self.in_box_at(ray, t) {
            assert(self.min.at(0) <= self.min.at(0));
            assert(self.min.at(1) <= self.min.at(1));
            assert(self.min.at(2) <= self.min.at(2));
        }
    }

    /// Where the slab test gives an interval, the interval is not a single
    /// point, and the ray is inside the box at exactly its parameters.
    pub proof fn lemma_intersect_some(self, ray: Ray, t: Ratio)
        requires
            self.spec_intersect_ray(ray) is Some,
            t.wf(),
        ensures
            ray.wf(),
            ({
                let (t0, t1) = self.spec_intersect_ray(ray).unwrap();
                &&& t0.wf()
                &&& t1.wf()
                &&& t0.lt(t1)
                &&& self.in_box_at(ray, t0)
                &&& self.in_box_at(ray, t1)
                &&& self.in_box_at(ray, t) <==> t0.le(t) && t.le(t1)
            }),
    {
        let (t0, t1) = self.spec_intersect_ray(ray).unwrap();
        self.lemma_clipped(ray, t, 3);
        self.lemma_clipped(ray, t0, 3);
        self.lemma_clipped(ray, t1, 3);
        self.lemma_in_box(ray, t);
        self.lemma_in_box(ray, t0);
        self.lemma_in_box(ray, t1);
        Ratio::lemma_total(t0, t1);
        Ratio::lemma_total(t0, t0);
        Ratio::lemma_total(t1, t1);
        let i = choose|i: int| 0 <= i < 3 && #[trigger] ray.dir.at(i) != 0;
        assert(ray.dir.at(i) != 0);
    }

    /// Where the slab test of a moving ray gives nothing, the ray is inside
    /// the box at one parameter at most.
    pub proof fn lemma_intersect_none(self, ray: Ray, t: Ratio, u: Ratio)
        requires
            ray.wf(),
            self.spec_intersect_ray(ray) is None,
            t.wf(),
            u.wf(),
            self.in_box_at(ray, t),
            self.in_box_at(ray, u),
        ensures
            t.same(u),
    {
        self.lemma_clipped(ray, t, 3);
        self.lemma_clipped(ray, u, 3);
        self.lemma_in_box(ray, t);
        self.lemma_in_box(ray, u);
        assert(Self::moves_below(ray, 3)) by {
            if ray.dir.at(0) != 0 {
            } else if ray.dir.at(1) != 0 {
            } else {
                assert(ray.dir.at(2) != 0);
            }
        }
        let (t0, t1) = self.clipped(ray, 3).unwrap();
        Ratio::lemma_total(t0, t1);
        // t1 <= t0, and both t and u lie between t0 and t1
        Ratio::lemma_le_trans(t, t1, t0);
        Ratio::lemma_le_trans(t, t0, u);
        Ratio::lemma_le_trans(u, t1, t0);
        Ratio::lemma_le_trans(u, t0, t);
        Ratio::lemma_total(t, u);
    }

    /// Being inside a box at `t` carries over to every box that contains it.
    pub proof fn lemma_in_box_grows(self, inner: AABB, ray: Ray, t: Ratio)
        requires
            self.contains(inner),
            inner.in_box_at(ray, t),
            t.wf(),
        ensures
            self.in_box_at(ray, t),
    {
        assert forall|i: int| 0 <= i < 3 implies slab_holds(
            #[trigger] self.min.at(i) as int,
            self.max.at(i) as int,
            ray.pos.at(i) as int,
            ray.dir.at(i) as int,
            t,
        ) by {
            let m = t.den as int;
            let a = self.min.at(i) as int;
            let b = inner.min.at(i) as int;
            let c = inner.max.at(i) as int;
            let e = self.max.at(i) as int;
            assert(inner.min.at(i) <= inner.min.at(i));
            assert(slab_holds(b, c, ray.pos.at(i) as int, ray.dir.at(i) as int, t));
            assert(self.contains_on(inner, i));
            assert(a * m <= b * m) by (nonlinear_arith)
                requires
                    a <= b,
                    m > 0,
            ;
            assert(c * m <= e * m) by (nonlinear_arith)
                requires
                    c <= e,
                    m > 0,
            ;
        }
    }

    /// A ray that passes through a box at `t` passes at `t` through every
    /// box that contains it.
    pub proof fn lemma_passes_grows(self, inner: AABB, ray: Ray, t: Ratio)
        requires
            self.contains(inner),
            inner.passes_at(ray, t),
            t.wf(),
        ensures
            self.passes_at(ray, t),
    {
        let (a0, a1) = inner.spec_intersect_ray(ray).unwrap();
        inner.lemma_intersect_some(ray, t);
        self.lemma_in_box_grows(inner, ray, a0);
        self.lemma_in_box_grows(inner, ray, a1);
        self.lemma_in_box_grows(inner, ray, t);
        if self.spec_intersect_ray(ray) is None {
            self.lemma_intersect_none(ray, a0, a1);
        } else {
            self.lemma_intersect_some(ray, t);
        }
    }

    /// The slab test with the direction's magnitudes and signs worked out
    /// beforehand. It gives what [`AABB::intersect_ray`] gives for every ray
    /// that `ray_pos`, `mag` and `neg` describe.
    pub fn fast_intersect_ray(&self, ray_pos: Vec3<i32>, mag: Vec3<i64>, neg: [bool; 3]) -> (r:
        Option<(Ratio, Ratio)>)
        requires
            forall|i: int| 0 <= i < 3 ==> 0 <= #[trigger] mag.at(i) <= 0x8000_0000,
        ensures
            forall|ray: Ray| #[trigger]
                ray.matches(ray_pos, mag, neg) ==> r == self.spec_intersect_ray(ray),
    {
        let mut acc: Option<(Ratio, Ratio)> = None;
        let mut i: usize = 0;
        while i < 3
            invariant
                i <= 3,
                forall|j: int| 0 <= j < 3 ==> 0 <= #[trigger] mag.at(j) <= 0x8000_0000,
                forall|ray: Ray| #[trigger]
                    ray.matches(ray_pos, mag, neg) ==> acc == self.clipped(ray, i as int),
                forall|ray: Ray, j: int| #[trigger]
                    ray.matches(ray_pos, mag, neg) && 0 <= j < i ==> !#[trigger] self.axis_misses(
                        ray,
                        j,
                    ),
                match acc {
                    Some((t0, t1)) => t0.wf() && t1.wf(),
                    None => true,
                },
            decreases 3 - i,
        {
            let lo: i32 = self.min.get(i);
            let hi: i32 = self.max.get(i);
            let p: i32 = ray_pos.get(i);
            let m: i64 = mag.get(i);
            assert(0 <= mag.at(i as int) <= 0x8000_0000);
            let ghost old_acc = acc;
            if m == 0 {
                if p < lo || p > hi {
                    proof {
                        assert forall|ray: Ray| #[trigger]
                            ray.matches(ray_pos, mag, neg) implies self.spec_intersect_ray(ray)
                            is None by {
                            assert(ray.dir.at(i as int) == 0);
                            assert(self.axis_misses(ray, i as int));
                        }
                    }
                    return None;
                }
            } else {
                let (e, x) = slab_span(lo, hi, p, m, neg[i]);
                acc =
                match acc {
                    None => Some((e, x)),
                    Some((t0, t1)) => Some((t0.max(e), t1.min(x))),
                };
            }
            proof {
                assert forall|ray: Ray| #[trigger]
                    ray.matches(ray_pos, mag, neg) implies acc == self.clipped(
                    ray,
                    i as int + 1,
                ) && !self.axis_misses(ray, i as int) by {
                    assert(old_acc == self.clipped(ray, i as int));
                    let d = ray.dir.at(i as int);
                    assert(neg@[i as int] == (d < 0));
                    assert(d as int == if neg@[i as int] {
                        -m as int
                    } else {
                        m as int
                    });
                }
            }
            i = i + 1;
        }
        match acc {
            Some((t0, t1)) => {
                if t0.is_lt(t1) {
                    Some((t0, t1))
                } else {
                    None
                }
            },
            None => None,
        }
    }

    /// The slab test: the parameter interval over which `ray` is inside the
    /// box, or `None` where the ray misses the box or only touches it.
    pub fn intersect_ray(&self, ray: &Ray) -> (r: Option<(Ratio, Ratio)>)
        ensures
            r == self.spec_intersect_ray(*ray),
    {
        let mag = ray.dir_magnitude();
        let neg = ray.dir_sign();
        assert(ray.matches(ray.pos, mag, neg));
        self.fast_intersect_ray(ray.pos, mag, neg)
    }
}

} // verus!
