//! Axis-aligned cuboids as primitives.

use vstd::prelude::*;

use crate::aabb::slab_enter;
use crate::aabb::slab_exit;
use crate::aabb::slab_span;
use crate::aabb::AABB;
use crate::geometry::DEFAULT_MATERIAL;
use crate::geometry::Geometry;
use crate::geometry::HitResult;
use crate::ratio::Ratio;
use crate::ray::Ray;
use crate::vec3::Vec3;

verus! {

/// The parameter at which a ray hits the surface of the solid box `b`
/// strictly between its origin and `t_max`, and whether the ray enters the
/// box there. A ray that starts inside the box hits where it leaves.
pub open spec fn box_hit_param(b: AABB, ray: Ray, t_max: Ratio) -> Option<(Ratio, bool)> {
    match b.spec_intersect_ray(ray) {
        None => None,
        Some((t0, t1)) => if Ratio::spec_from_int(0).lt(t0) {
            if t0.lt(t_max) {
                Some((t0, true))
            } else {
                None
            }
        } else if Ratio::spec_from_int(0).lt(t1) && t1.lt(t_max) {
            Some((t1, false))
        } else {
            None
        },
    }
}

/// At parameter `t` the ray is on a face of `b` across axis `k`: the face
/// by which it enters if `entering`, else the face by which it leaves.
pub open spec fn on_face(b: AABB, ray: Ray, t: Ratio, entering: bool, k: int) -> bool {
    let lo = b.min.at(k) as int;
    let hi = b.max.at(k) as int;
    let p = ray.pos.at(k) as int;
    let d = ray.dir.at(k) as int;
    d != 0 && (if entering {
        slab_enter(lo, hi, p, d)
    } else {
        slab_exit(lo, hi, p, d)
    }).same(t)
}

/// The first axis whose face the ray is on at `t`; the last axis if none.
pub open spec fn face_axis(b: AABB, ray: Ray, t: Ratio, entering: bool) -> int {
    if on_face(b, ray, t, entering, 0) {
        0
    } else if on_face(b, ray, t, entering, 1) {
        1
    } else {
        2
    }
}

/// The outward unit normal of the face across axis `k` that a ray meets.
pub open spec fn face_normal(ray: Ray, k: int, entering: bool) -> Vec3<i32> {
    let s: i32 = if entering == (ray.dir.at(k) > 0) {
        (-1i32)
    } else {
        1i32
    };
    if k == 0 {
        Vec3::spec_new(s, 0, 0)
    } else if k == 1 {
        Vec3::spec_new(0, s, 0)
    } else {
        Vec3::spec_new(0, 0, s)
    }
}

/// The hit of a ray on the surface of the solid box `b`. The surface
/// coordinates are the two coordinates of the hit point along the face.
pub open spec fn box_hit(b: AABB, ray: Ray, t_max: Ratio) -> Option<HitResult> {
    match box_hit_param(b, ray, t_max) {
        None => None,
        Some((t, entering)) => {
            let k = face_axis(b, ray, t, entering);
            let x = ray.spec_at(t, 0) as i128;
            let y = ray.spec_at(t, 1) as i128;
            let z = ray.spec_at(t, 2) as i128;
            Some(
                HitResult {
                    pos: Vec3::spec_new(x, y, z),
                    norm: face_normal(ray, k, entering),
                    t,
                    uv: if k == 0 {
                        [y, z]
                    } else if k == 1 {
                        [x, z]
                    } else {
                        [x, y]
                    },
                    material: DEFAULT_MATERIAL,
                },
            )
        },
    }
}

/// A hit on a box lies in range, at an end of the slab interval.
pub proof fn lemma_box_hit_in_box(b: AABB, ray: Ray, t_max: Ratio)
    requires
        t_max.wf(),
    ensures
        match box_hit(b, ray, t_max) {
            Some(h) => {
                &&& h.t.wf()
                &&& Ratio::spec_from_int(0).lt(h.t)
                &&& h.t.lt(t_max)
                &&& b.passes_at(ray, h.t)
            },
            None => true,
        },
{
    if b.spec_intersect_ray(ray) is Some {
        let (t0, t1) = b.spec_intersect_ray(ray).unwrap();
        b.lemma_intersect_some(ray, t_max);
        Ratio::lemma_total(t0, t1);
        Ratio::lemma_total(t0, t0);
        Ratio::lemma_total(t1, t1);
    }
}

/// A hit on a box stays the same under every bound that it lies below.
pub proof fn lemma_box_hit_stable(b: AABB, ray: Ray, t_max: Ratio, t_other: Ratio)
    requires
        t_max.wf(),
        t_other.wf(),
        box_hit(b, ray, t_max) is Some,
        box_hit(b, ray, t_max).unwrap().t.lt(t_other),
    ensures
        box_hit(b, ray, t_other) == box_hit(b, ray, t_max),
{
}

/// The parameter of the hit on the box `b`, and whether the ray enters.
pub fn box_hit_at(b: &AABB, ray: &Ray, t_max: Ratio) -> (r: Option<(Ratio, bool)>)
    requires
        t_max.wf(),
    ensures
        r == box_hit_param(*b, *ray, t_max),
{
    match b.intersect_ray(ray) {
        None => None,
        Some((t0, t1)) => {
            proof {
                b.lemma_intersect_some(*ray, t_max);
            }
            let zero = Ratio::zero();
            if zero.is_lt(t0) {
                if t0.is_lt(t_max) {
                    Some((t0, true))
                } else {
                    None
                }
            } else if zero.is_lt(t1) && t1.is_lt(t_max) {
                Some((t1, false))
            } else {
                None
            }
        },
    }
}

/// Whether at `t` the ray is on a face of `b` across axis `k`.
fn is_on_face(b: &AABB, ray: &Ray, t: Ratio, entering: bool, k: usize) -> (r: bool)
    requires
        t.wf(),
        k < 3,
    ensures
        r == on_face(*b, *ray, t, entering, k as int),
{
    let d: i32 = ray.dir.get(k);
    if d == 0 {
        false
    } else {
        let wide: i64 = d as i64;
        let neg: bool = d < 0;
        let mag: i64 = if neg {
            -wide
        } else {
            wide
        };
        let (e, x) = slab_span(b.min.get(k), b.max.get(k), ray.pos.get(k), mag, neg);
        if entering {
            e.is_same(t)
        } else {
            x.is_same(t)
        }
    }
}

/// The outward unit normal of the face across axis `k`.
fn normal_of(ray: &Ray, k: usize, entering: bool) -> (n: Vec3<i32>)
    requires
        k < 3,
    ensures
        n == face_normal(*ray, k as int, entering),
{
    let s: i32 = if entering == (ray.dir.get(k) > 0) {
        -1
    } else {
        1
    };
    if k == 0 {
        Vec3::new(s, 0, 0)
    } else if k == 1 {
        Vec3::new(0, s, 0)
    } else {
        Vec3::new(0, 0, s)
    }
}

/// The hit of `ray` on the surface of the solid box `b` below `t_max`.
pub fn hit_box(b: &AABB, ray: &Ray, t_max: Ratio) -> (r: Option<HitResult>)
    requires
        t_max.wf(),
    ensures
        r == box_hit(*b, *ray, t_max),
{
    match box_hit_at(b, ray, t_max) {
        None => None,
        Some((t, entering)) => {
            proof {
                lemma_box_hit_in_box(*b, *ray, t_max);
            }
            let k: usize = if is_on_face(b, ray, t, entering, 0) {
                0
            } else if is_on_face(b, ray, t, entering, 1) {
                1
            } else {
                2
            };
            let x: i128 = ray.at_axis(t, 0);
            let y: i128 = ray.at_axis(t, 1);
            let z: i128 = ray.at_axis(t, 2);
            let uv: [i128; 2] = if k == 0 {
                [y, z]
            } else if k == 1 {
                [x, z]
            } else {
                [x, y]
            };
            let h = HitResult {
                pos: Vec3::new(x, y, z),
                norm: normal_of(ray, k, entering),
                t,
                uv,
                material: DEFAULT_MATERIAL,
            };
            proof {
                assert(h.uv =~= box_hit(*b, *ray, t_max).unwrap().uv);
            }
            Some(h)
        },
    }
}

/// The cube with the corners `(-1, -1, -1)` and `(1, 1, 1)`.
#[derive(Debug, Clone, Copy, PartialEq, Eq)]
pub struct UnitCuboid;

impl UnitCuboid {
    /// The box of the unit cube.
    pub open spec fn bounds() -> AABB {
        AABB { min: Vec3::spec_new((-1i32), (-1i32), (-1i32)), max: Vec3::spec_new(1i32, 1i32, 1i32) }
    }
}

impl Geometry for UnitCuboid {
    open spec fn spec_bounding_box(&self) -> AABB {
        UnitCuboid::bounds()
    }

    open spec fn spec_hit(&self, ray: Ray, t_max: Ratio) -> Option<HitResult> {
        box_hit(UnitCuboid::bounds(), ray, t_max)
    }

    proof fn lemma_hit_in_box(&self, ray: Ray, t_max: Ratio) {
        lemma_box_hit_in_box(UnitCuboid::bounds(), ray, t_max);
    }

    proof fn lemma_hit_stable(&self, ray: Ray, t_max: Ratio, t_other: Ratio) {
        lemma_box_hit_stable(UnitCuboid::bounds(), ray, t_max, t_other);
    }

    fn bounding_box(&self) -> (b: AABB) {
        AABB::from_min_max(Vec3::new(-1, -1, -1), Vec3::new(1, 1, 1))
    }

    fn hit(&self, ray: &Ray, t_max: Ratio) -> (r: Option<HitResult>) {
        let b = self.bounding_box();
        hit_box(&b, ray, t_max)
    }

    fn is_hit(&self, ray: &Ray, t_max: Ratio) -> (b: bool) {
        let bounds = self.bounding_box();
        box_hit_at(&bounds, ray, t_max).is_some()
    }
}

/// A solid axis-aligned box.
#[derive(Debug, Clone, Copy, PartialEq, Eq)]
pub struct Cuboid {
    pub bounds: AABB,
}

impl Cuboid {
    /// The cuboid with the opposite corners `a` and `b`.
    pub fn new(a: Vec3<i32>, b: Vec3<i32>) -> (c: Cuboid)
        ensures
            c.bounds == AABB::spec_from_point(a).spec_union(AABB::spec_from_point(b)),
            c.bounds.wf(),
            c.bounds.contains_point(a),
            c.bounds.contains_point(b),
    {
        Cuboid { bounds: AABB::from_points(a, b) }
    }
}

impl Geometry for Cuboid {
    open spec fn spec_bounding_box(&self) -> AABB {
        self.bounds
    }

    open spec fn spec_hit(&self, ray: Ray, t_max: Ratio) -> Option<HitResult> {
        box_hit(self.bounds, ray, t_max)
    }

    proof fn lemma_hit_in_box(&self, ray: Ray, t_max: Ratio) {
        lemma_box_hit_in_box(self.bounds, ray, t_max);
    }

    proof fn lemma_hit_stable(&self, ray: Ray, t_max: Ratio, t_other: Ratio) {
        lemma_box_hit_stable(self.bounds, ray, t_max, t_other);
    }

    fn bounding_box(&self) -> (b: AABB) {
        self.bounds
    }

    fn hit(&self, ray: &Ray, t_max: Ratio) -> (r: Option<HitResult>) {
        hit_box(&self.bounds, ray, t_max)
    }

    fn is_hit(&self, ray: &Ray, t_max: Ratio) -> (b: bool) {
        box_hit_at(&self.bounds, ray, t_max).is_some()
    }
}

} // verus!
