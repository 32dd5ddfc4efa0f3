//! What the hierarchy asks of a primitive, and the linear scan that the
//! hierarchy is measured against.

use vstd::prelude::*;

use crate::aabb::AABB;
use crate::ratio::Ratio;
use crate::ray::Ray;
use crate::vec3::Vec3;

verus! {

/// Where and how a ray meets a surface.
///
/// `pos` and `uv` are scaled by `t.den`, so that they stay integers.
#[derive(Debug, Copy, Clone, PartialEq, Eq)]
pub struct HitResult {
    /// The hit point, each component scaled by `t.den`.
    pub pos: Vec3<i128>,
    /// The surface normal at the hit point; not normalised.
    pub norm: Vec3<i32>,
    /// The ray parameter of the hit.
    pub t: Ratio,
    /// The surface coordinates of the hit point, scaled by `t.den`.
    pub uv: [i128; 2],
    /// A handle to the material of the surface.
    pub material: u32,
}

/// The material handle of a surface that was given none.
pub const DEFAULT_MATERIAL: u32 = 0;

/// Something a ray can hit, with a box around it.
///
/// A query asks for a hit strictly between the ray's origin and `t_max`.
/// Both queries are functions of their arguments, and an implementation
/// owes two laws: every hit lies in range and inside the bounding box, and
/// the bound decides only whether a hit counts, not which hit it is.
pub trait Geometry {
    /// The box that `bounding_box` returns.
    spec fn spec_bounding_box(&self) -> AABB;

    /// The hit that `hit` returns.
    spec fn spec_hit(&self, ray: Ray, t_max: Ratio) -> Option<HitResult>;

    /// A hit lies strictly between the origin and the bound, at a
    /// parameter where the ray passes through the bounding box.
    proof fn lemma_hit_in_box(&self, ray: Ray, t_max: Ratio)
        requires
            t_max.wf(),
        ensures
            match self.spec_hit(ray, t_max) {
                Some(h) => {
                    &&& h.t.wf()
                    &&& Ratio::spec_from_int(0).lt(h.t)
                    &&& h.t.lt(t_max)
                    &&& self.spec_bounding_box().passes_at(ray, h.t)
                },
                None => true,
            },
    ;

    /// A hit stays the same under every bound that it lies below.
    proof fn lemma_hit_stable(&self, ray: Ray, t_max: Ratio, t_other: Ratio)
        requires
            t_max.wf(),
            t_other.wf(),
            self.spec_hit(ray, t_max) is Some,
            self.spec_hit(ray, t_max).unwrap().t.lt(t_other),
        ensures
            self.spec_hit(ray, t_other) == self.spec_hit(ray, t_max),
    ;

    fn bounding_box(&self) -> (b: AABB)
        ensures
            b == self.spec_bounding_box(),
    ;

    /// The hit of `ray` on this surface below `t_max`, if there is one.
    fn hit(&self, ray: &Ray, t_max: Ratio) -> (r: Option<HitResult>)
        requires
            t_max.wf(),
        ensures
            r == self.spec_hit(*ray, t_max),
    ;

    /// Whether `ray` hits this surface below `t_max`. Unless a surface has
    /// a shorter way to tell, it looks for the hit.
    fn is_hit(&self, ray: &Ray, t_max: Ratio) -> (b: bool)
        requires
            t_max.wf(),
        ensures
            b == self.spec_hit(*ray, t_max).is_some(),
    {
        self.hit(ray, t_max).is_some()
    }
}

/// Raising the bound loses no hit.
pub proof fn lemma_hit_monotone<T: Geometry>(obj: T, ray: Ray, t_max: Ratio, t_more: Ratio)
    requires
        t_max.wf(),
        t_more.wf(),
        t_max.le(t_more),
        obj.spec_hit(ray, t_max) is Some,
    ensures
        obj.spec_hit(ray, t_more) == obj.spec_hit(ray, t_max),
{
    obj.lemma_hit_in_box(ray, t_max);
    Ratio::lemma_lt_le_trans(obj.spec_hit(ray, t_max).unwrap().t, t_max, t_more);
    obj.lemma_hit_stable(ray, t_max, t_more);
}

/// The bound under which the next primitive is asked, after a scan that
/// gave `found`.
pub open spec fn scan_bound(found: Option<(int, HitResult)>, t_max: Ratio) -> Ratio {
    match found {
        Some((_, h)) => h.t,
        None => t_max,
    }
}

/// The linear scan for the nearest hit: every primitive is asked in
/// storage order, each under the distance of the hit found so far. The
/// result is the index of the primitive that gave the last hit, with that
/// hit.
pub open spec fn scan_hit<T: Geometry>(prims: Seq<T>, ray: Ray, t_max: Ratio) -> Option<
    (int, HitResult),
>
    decreases prims.len(),
{
    if prims.len() == 0 {
        None
    } else {
        let found = scan_hit(prims.drop_last(), ray, t_max);
        match prims.last().spec_hit(ray, scan_bound(found, t_max)) {
            Some(h) => Some((prims.len() - 1, h)),
            None => found,
        }
    }
}

/// The linear scan for any hit: some primitive is hit below `t_max`.
pub open spec fn scan_any<T: Geometry>(prims: Seq<T>, ray: Ray, t_max: Ratio) -> bool {
    exists|i: int| 0 <= i < prims.len() && (#[trigger] prims[i]).spec_hit(ray, t_max) is Some
}

/// The box around the boxes of `prims[lo..hi]`, folded from the left.
pub open spec fn hull<T: Geometry>(prims: Seq<T>, lo: int, hi: int) -> AABB
    decreases hi - lo,
{
    if hi <= lo {
        AABB::spec_new()
    } else {
        hull(prims, lo, hi - 1).spec_union(prims[hi - 1].spec_bounding_box())
    }
}

/// One step of the scan: the result over the first `k + 1` primitives from
/// the result over the first `k`.
pub proof fn lemma_scan_step<T: Geometry>(prims: Seq<T>, ray: Ray, t_max: Ratio, k: int)
    requires
        0 <= k < prims.len(),
    ensures
        scan_hit(prims.take(k + 1), ray, t_max) == (match prims[k].spec_hit(
            ray,
            scan_bound(scan_hit(prims.take(k), ray, t_max), t_max),
        ) {
            Some(h) => Some((k, h)),
            None => scan_hit(prims.take(k), ray, t_max),
        }),
{
    assert(prims.take(k + 1).drop_last() =~= prims.take(k));
}

/// What a scan result is: the hit of the primitive it names, strictly
/// between the origin and `t_max`, where the ray passes through that
/// primitive's box.
pub proof fn lemma_scan_hit<T: Geometry>(prims: Seq<T>, ray: Ray, t_max: Ratio)
    requires
        t_max.wf(),
    ensures
        scan_bound(scan_hit(prims, ray, t_max), t_max).wf(),
        scan_bound(scan_hit(prims, ray, t_max), t_max).le(t_max),
        match scan_hit(prims, ray, t_max) {
            Some((i, h)) => {
                &&& 0 <= i < prims.len()
                &&& h.t.wf()
                &&& Ratio::spec_from_int(0).lt(h.t)
                &&& h.t.lt(t_max)
                &&& prims[i].spec_bounding_box().passes_at(ray, h.t)
                &&& prims[i].spec_hit(ray, t_max) == Some(h)
            },
            None => true,
        },
    decreases prims.len(),
{
    Ratio::lemma_total(t_max, t_max);
    if prims.len() > 0 {
        let found = scan_hit(prims.drop_last(), ray, t_max);
        lemma_scan_hit(prims.drop_last(), ray, t_max);
        let bound = scan_bound(found, t_max);
        prims.last().lemma_hit_in_box(ray, bound);
        match prims.last().spec_hit(ray, bound) {
            Some(h) => {
                Ratio::lemma_lt_le_trans(h.t, bound, t_max);
                Ratio::lemma_total(h.t, t_max);
                lemma_hit_monotone(prims.last(), ray, bound, t_max);
            },
            None => {},
        }
    }
}

/// The scan finds a hit exactly when some primitive is hit below `t_max`.
pub proof fn lemma_scan_some_iff_any<T: Geometry>(prims: Seq<T>, ray: Ray, t_max: Ratio)
    requires
        t_max.wf(),
    ensures
        scan_hit(prims, ray, t_max) is Some <==> scan_any(prims, ray, t_max),
    decreases prims.len(),
{
    lemma_scan_hit(prims, ray, t_max);
    if prims.len() > 0 {
        let front = prims.drop_last();
        lemma_scan_some_iff_any(front, ray, t_max);
        let found = scan_hit(front, ray, t_max);
        if scan_any(prims, ray, t_max) {
            let i = choose|i: int|
                0 <= i < prims.len() && (#[trigger] prims[i]).spec_hit(ray, t_max) is Some;
            if i < prims.len() - 1 {
                assert(front[i].spec_hit(ray, t_max) is Some);
                assert(scan_any(front, ray, t_max));
            }
        }
    }
}

/// Primitives that give no hit under the bound reached so far leave the
/// scan as it is.
pub proof fn lemma_scan_skip<T: Geometry>(prims: Seq<T>, ray: Ray, t_max: Ratio, a: int, b: int)
    requires
        0 <= a <= b <= prims.len(),
        forall|j: int|
            a <= j < b ==> (#[trigger] prims[j]).spec_hit(
                ray,
                scan_bound(scan_hit(prims.take(a), ray, t_max), t_max),
            ) is None,
    ensures
        scan_hit(prims.take(b), ray, t_max) == scan_hit(prims.take(a), ray, t_max),
    decreases b - a,
{
    if a < b {
        lemma_scan_skip(prims, ray, t_max, a, b - 1);
        lemma_scan_step(prims, ray, t_max, b - 1);
    }
}

/// The hull of a range contains the box of each primitive in it.
pub proof fn lemma_hull_contains<T: Geometry>(prims: Seq<T>, lo: int, hi: int, k: int)
    requires
        0 <= lo <= k < hi <= prims.len(),
    ensures
        hull(prims, lo, hi).contains(prims[k].spec_bounding_box()),
    decreases hi - lo,
{
    let rest = hull(prims, lo, hi - 1);
    let last = prims[hi - 1].spec_bounding_box();
    rest.lemma_union_contains(last);
    if k < hi - 1 {
        lemma_hull_contains(prims, lo, hi - 1, k);
        rest.spec_union(last).lemma_contains_trans(rest, prims[k].spec_bounding_box());
    }
}

/// The hull of a range holds a point as soon as the box of one of its
/// primitives does.
pub proof fn lemma_hull_wf<T: Geometry>(prims: Seq<T>, lo: int, hi: int, k: int)
    requires
        0 <= lo <= k < hi <= prims.len(),
        prims[k].spec_bounding_box().wf(),
    ensures
        hull(prims, lo, hi).wf(),
    decreases hi - lo,
{
    if k < hi - 1 {
        lemma_hull_wf(prims, lo, hi - 1, k);
    }
    hull(prims, lo, hi - 1).lemma_union_wf(prims[hi - 1].spec_bounding_box());
}

/// The hull of two adjoining ranges is the union of their hulls.
pub proof fn lemma_hull_split<T: Geometry>(prims: Seq<T>, lo: int, mid: int, hi: int)
    requires
        0 <= lo <= mid <= hi <= prims.len(),
    ensures
        hull(prims, lo, hi) == hull(prims, lo, mid).spec_union(hull(prims, mid, hi)),
    decreases hi - mid,
{
    let left = hull(prims, lo, mid);
    if mid == hi {
        AABB::lemma_ext(left.spec_union(AABB::spec_new()), left);
    } else {
        lemma_hull_split(prims, lo, mid, hi - 1);
        let last = prims[hi - 1].spec_bounding_box();
        let right = hull(prims, mid, hi - 1);
        AABB::lemma_ext(
            left.spec_union(right).spec_union(last),
            left.spec_union(right.spec_union(last)),
        );
    }
}

/// The hull of a range depends on the primitives in that range alone.
pub proof fn lemma_hull_same<T: Geometry>(a: Seq<T>, b: Seq<T>, lo: int, hi: int)
    requires
        0 <= lo <= hi <= a.len(),
        hi <= b.len(),
        forall|k: int| lo <= k < hi ==> a[k].spec_bounding_box() == b[k].spec_bounding_box(),
    ensures
        hull(a, lo, hi) == hull(b, lo, hi),
    decreases hi - lo,
{
    if lo < hi {
        lemma_hull_same(a, b, lo, hi - 1);
    }
}

} // verus!

verus! {

/// A scan result with its index as a mathematical integer.
pub open spec fn as_found(r: Option<(usize, HitResult)>) -> Option<(int, HitResult)> {
    match r {
        Some((i, h)) => Some((i as int, h)),
        None => None,
    }
}

/// The hit of a scan result, without the index.
pub open spec fn hit_of(r: Option<(int, HitResult)>) -> Option<HitResult> {
    match r {
        Some((_, h)) => Some(h),
        None => None,
    }
}

/// Continues a linear scan over `prims[begin..end]`: `found` is the result
/// over the primitives before `begin`, and the result is that over the
/// primitives before `end`.
pub fn scan_range<T: Geometry>(
    prims: &Vec<T>,
    begin: usize,
    end: usize,
    ray: &Ray,
    t_max: Ratio,
    found: Option<(usize, HitResult)>,
) -> (r: Option<(usize, HitResult)>)
    requires
        begin <= end <= prims@.len(),
        t_max.wf(),
        as_found(found) == scan_hit(prims@.take(begin as int), *ray, t_max),
    ensures
        as_found(r) == scan_hit(prims@.take(end as int), *ray, t_max),
{
    let mut best = found;
    let mut k: usize = begin;
    while k < end
        invariant
            begin <= k <= end <= prims@.len(),
            t_max.wf(),
            as_found(best) == scan_hit(prims@.take(k as int), *ray, t_max),
        decreases end - k,
    {
        proof {
            lemma_scan_hit(prims@.take(k as int), *ray, t_max);
            lemma_scan_step(prims@, *ray, t_max, k as int);
        }
        let bound = match best {
            Some((_, h)) => h.t,
            None => t_max,
        };
        match prims[k].hit(ray, bound) {
            Some(h) => {
                best = Some((k, h));
            },
            None => {},
        }
        k = k + 1;
    }
    best
}

/// The index of the first primitive in `prims[begin..end]` that `ray` hits
/// below `t_max`.
pub fn first_hit_in<T: Geometry>(
    prims: &Vec<T>,
    begin: usize,
    end: usize,
    ray: &Ray,
    t_max: Ratio,
) -> (r: Option<usize>)
    requires
        begin <= end <= prims@.len(),
        t_max.wf(),
    ensures
        match r {
            Some(i) => {
                &&& begin <= i < end
                &&& prims@[i as int].spec_hit(*ray, t_max) is Some
                &&& forall|j: int|
                    begin <= j < i ==> (#[trigger] prims@[j]).spec_hit(*ray, t_max) is None
            },
            None => forall|j: int|
                begin <= j < end ==> (#[trigger] prims@[j]).spec_hit(*ray, t_max) is None,
        },
{
    let mut k: usize = begin;
    while k < end
        invariant
            begin <= k <= end <= prims@.len(),
            t_max.wf(),
            forall|j: int| begin <= j < k ==> (#[trigger] prims@[j]).spec_hit(*ray, t_max) is None,
        decreases end - k,
    {
        if prims[k].is_hit(ray, t_max) {
            return Some(k);
        }
        k = k + 1;
    }
    None
}

/// The box around the boxes of `prims[begin..end]`.
pub fn hull_of<T: Geometry>(prims: &Vec<T>, begin: usize, end: usize) -> (b: AABB)
    requires
        begin <= end <= prims@.len(),
    ensures
        b == hull(prims@, begin as int, end as int),
{
    let mut b = AABB::new();
    let mut k: usize = begin;
    while k < end
        invariant
            begin <= k <= end <= prims@.len(),
            b == hull(prims@, begin as int, k as int),
        decreases end - k,
    {
        b = b.union(prims[k].bounding_box());
        k = k + 1;
    }
    b
}

} // verus!

verus! {

/// The hit of a scan lies in range and where the ray passes through the
/// hull of all the primitives.
pub proof fn lemma_scan_in_hull<T: Geometry>(prims: Seq<T>, ray: Ray, t_max: Ratio)
    requires
        t_max.wf(),
    ensures
        match hit_of(scan_hit(prims, ray, t_max)) {
            Some(h) => {
                &&& h.t.wf()
                &&& Ratio::spec_from_int(0).lt(h.t)
                &&& h.t.lt(t_max)
                &&& hull(prims, 0, prims.len() as int).passes_at(ray, h.t)
            },
            None => true,
        },
{
    lemma_scan_hit(prims, ray, t_max);
    match scan_hit(prims, ray, t_max) {
        Some((i, h)) => {
            lemma_hull_contains(prims, 0, prims.len() as int, i);
            hull(prims, 0, prims.len() as int).lemma_passes_grows(
                prims[i].spec_bounding_box(),
                ray,
                h.t,
            );
        },
        None => {},
    }
}

/// The hit of a scan is the nearest: no primitive is hit nearer, and none
/// before the one that the scan names is hit as near.
pub proof fn lemma_scan_minimal<T: Geometry>(prims: Seq<T>, ray: Ray, t_max: Ratio)
    requires
        t_max.wf(),
    ensures
        match scan_hit(prims, ray, t_max) {
            Some((i, h)) => {
                &&& 0 <= i < prims.len()
                &&& prims[i].spec_hit(ray, t_max) == Some(h)
                &&& forall|j: int|
                    0 <= j < prims.len() ==> match (#[trigger] prims[j]).spec_hit(ray, t_max) {
                        Some(other) => h.t.le(other.t) && (j < i ==> h.t.lt(other.t)),
                        None => true,
                    }
            },
            None => forall|j: int|
                0 <= j < prims.len() ==> (#[trigger] prims[j]).spec_hit(ray, t_max) is None,
        },
    decreases prims.len(),
{
    lemma_scan_hit(prims, ray, t_max);
    if prims.len() > 0 {
        let front = prims.drop_last();
        let last = prims.last();
        let found = scan_hit(front, ray, t_max);
        let bound = scan_bound(found, t_max);
        lemma_scan_minimal(front, ray, t_max);
        lemma_scan_hit(front, ray, t_max);
        last.lemma_hit_in_box(ray, bound);
        last.lemma_hit_in_box(ray, t_max);
        match last.spec_hit(ray, bound) {
            Some(h) => {
                assert forall|j: int| 0 <= j < prims.len() implies match (
                #[trigger] prims[j]).spec_hit(ray, t_max) {
                    Some(other) => h.t.le(other.t) && (j < prims.len() - 1 ==> h.t.lt(other.t)),
                    None => true,
                } by {
                    Ratio::lemma_total(h.t, h.t);
                    if j < prims.len() - 1 {
                        assert(front[j] == prims[j]);
                        match prims[j].spec_hit(ray, t_max) {
                            Some(other) => {
                                prims[j].lemma_hit_in_box(ray, t_max);
                                Ratio::lemma_lt_le_trans(h.t, bound, other.t);
                                Ratio::lemma_total(h.t, other.t);
                            },
                            None => {},
                        }
                    }
                }
            },
            None => {
                match found {
                    Some((i, h)) => {
                        assert forall|j: int| 0 <= j < prims.len() implies match (
                        #[trigger] prims[j]).spec_hit(ray, t_max) {
                            Some(other) => h.t.le(other.t) && (j < i ==> h.t.lt(other.t)),
                            None => true,
                        } by {
                            if j < prims.len() - 1 {
                                assert(front[j] == prims[j]);
                            } else {
                                match last.spec_hit(ray, t_max) {
                                    Some(other) => {
                                        Ratio::lemma_total(h.t, other.t);
                                        if other.t.lt(h.t) {
                                            last.lemma_hit_stable(ray, t_max, bound);
                                        }
                                    },
                                    None => {},
                                }
                            }
                        }
                    },
                    None => {
                        assert forall|j: int| 0 <= j < prims.len() implies (
                        #[trigger] prims[j]).spec_hit(ray, t_max) is None by {
                            if j < prims.len() - 1 {
                                assert(front[j] == prims[j]);
                            }
                        }
                    },
                }
            },
        }
    }
}

/// The hit of a scan stays the same under every bound that it lies below.
pub proof fn lemma_scan_stable<T: Geometry>(prims: Seq<T>, ray: Ray, t_max: Ratio, t_other: Ratio)
    requires
        t_max.wf(),
        t_other.wf(),
        scan_hit(prims, ray, t_max) is Some,
        scan_hit(prims, ray, t_max).unwrap().1.t.lt(t_other),
    ensures
        scan_hit(prims, ray, t_other) == scan_hit(prims, ray, t_max),
{
    let (i, h) = scan_hit(prims, ray, t_max).unwrap();
    lemma_scan_minimal(prims, ray, t_max);
    lemma_scan_minimal(prims, ray, t_other);
    lemma_scan_hit(prims, ray, t_max);
    lemma_scan_hit(prims, ray, t_other);
    prims[i].lemma_hit_stable(ray, t_max, t_other);
    lemma_scan_some_iff_any(prims, ray, t_other);
    let (i2, h2) = scan_hit(prims, ray, t_other).unwrap();
    // h2 is no farther than h, so it counts under `t_max` too
    Ratio::lemma_le_lt_trans(h2.t, h.t, t_max);
    prims[i2].lemma_hit_stable(ray, t_other, t_max);
    Ratio::lemma_total(h.t, h2.t);
    Ratio::lemma_total(h2.t, h.t);
}

/// Two runs that hold the same primitives, in whatever order, give hits
/// at the same distance, or both give none.
pub proof fn lemma_scan_any_order<T: Geometry>(a: Seq<T>, b: Seq<T>, ray: Ray, t_max: Ratio)
    requires
        t_max.wf(),
        a.to_multiset() == b.to_multiset(),
    ensures
        scan_hit(a, ray, t_max) is Some <==> scan_hit(b, ray, t_max) is Some,
        scan_hit(a, ray, t_max) is Some ==> scan_hit(a, ray, t_max).unwrap().1.t.same(
            scan_hit(b, ray, t_max).unwrap().1.t,
        ),
{
    broadcast use vstd::seq_lib::to_multiset_contains;

    lemma_scan_minimal(a, ray, t_max);
    lemma_scan_minimal(b, ray, t_max);
    if scan_hit(a, ray, t_max) is Some {
        let (i, h) = scan_hit(a, ray, t_max).unwrap();
        assert(a.contains(a[i]));
        assert(b.to_multiset().count(a[i]) > 0);
        assert(b.contains(a[i]));
        let j = choose|j: int| 0 <= j < b.len() && b[j] == a[i];
        assert(b[j].spec_hit(ray, t_max) is Some);
    }
    if scan_hit(b, ray, t_max) is Some {
        let (i, h) = scan_hit(b, ray, t_max).unwrap();
        assert(b.contains(b[i]));
        assert(a.to_multiset().count(b[i]) > 0);
        assert(a.contains(b[i]));
        let j = choose|j: int| 0 <= j < a.len() && a[j] == b[i];
        assert(a[j].spec_hit(ray, t_max) is Some);
    }
    if scan_hit(a, ray, t_max) is Some {
        let (ia, ha) = scan_hit(a, ray, t_max).unwrap();
        let (ib, hb) = scan_hit(b, ray, t_max).unwrap();
        let ja = choose|j: int| 0 <= j < b.len() && b[j] == a[ia];
        let jb = choose|j: int| 0 <= j < a.len() && a[j] == b[ib];
        assert(b[ja].spec_hit(ray, t_max) == Some(ha));
        assert(a[jb].spec_hit(ray, t_max) == Some(hb));
        Ratio::lemma_total(ha.t, hb.t);
    }
}

} // verus!
