//! Primitives made of other primitives.

use vstd::prelude::*;

use crate::aabb::AABB;
use crate::geometry::as_found;
use crate::geometry::first_hit_in;
use crate::geometry::hit_of;
use crate::geometry::hull;
use crate::geometry::hull_of;
use crate::geometry::lemma_scan_in_hull;
use crate::geometry::lemma_scan_some_iff_any;
use crate::geometry::lemma_scan_stable;
use crate::geometry::scan_hit;
use crate::geometry::scan_range;
use crate::geometry::DEFAULT_MATERIAL;
use crate::geometry::Geometry;
use crate::geometry::HitResult;
use crate::ratio::Ratio;
use crate::ray::Ray;

verus! {

/// A list of primitives, queried by scanning all of them in order.
pub struct GeometryList<T>(pub Vec<T>);

impl<T: Geometry> View for GeometryList<T> {
    type V = Seq<T>;

    open spec fn view(&self) -> Seq<T> {
        self.0@
    }
}

impl<T: Geometry> GeometryList<T> {
    pub fn new() -> (l: Self)
        ensures
            l@ == Seq::<T>::empty(),
    {
        GeometryList(Vec::new())
    }

    pub fn from_vec(v: Vec<T>) -> (l: Self)
        ensures
            l@ == v@,
    {
        GeometryList(v)
    }

    pub fn into_vec(self) -> (v: Vec<T>)
        ensures
            v@ == self@,
    {
        self.0
    }

    pub fn push(&mut self, obj: T)
        ensures
            final(self)@ == old(self)@.push(obj),
    {
        self.0.push(obj)
    }

    /// Appends `obj`; another name for [`GeometryList::push`].
    pub fn add(&mut self, obj: T)
        ensures
            final(self)@ == old(self)@.push(obj),
    {
        self.0.push(obj)
    }

    /// The nearest hit of the linear scan, with the index of the primitive
    /// that gave it.
    pub fn nearest_hit(&self, ray: &Ray, t_max: Ratio) -> (r: Option<(usize, HitResult)>)
        requires
            t_max.wf(),
        ensures
            as_found(r) == scan_hit(self@, *ray, t_max),
    {
        let n = self.0.len();
        proof {
            assert(self@.take(n as int) =~= self@);
            assert(self@.take(0) =~= Seq::<T>::empty());
        }
        scan_range(&self.0, 0, n, ray, t_max, None)
    }
}

impl<T: Geometry> Geometry for GeometryList<T> {
    open spec fn spec_bounding_box(&self) -> AABB {
        hull(self@, 0, self@.len() as int)
    }

    open spec fn spec_hit(&self, ray: Ray, t_max: Ratio) -> Option<HitResult> {
        hit_of(scan_hit(self@, ray, t_max))
    }

    proof fn lemma_hit_in_box(&self, ray: Ray, t_max: Ratio) {
        lemma_scan_in_hull(self@, ray, t_max);
    }

    proof fn lemma_hit_stable(&self, ray: Ray, t_max: Ratio, t_other: Ratio) {
        lemma_scan_stable(self@, ray, t_max, t_other);
    }

    fn bounding_box(&self) -> (b: AABB) {
        hull_of(&self.0, 0, self.0.len())
    }

    fn hit(&self, ray: &Ray, t_max: Ratio) -> (r: Option<HitResult>) {
        match self.nearest_hit(ray, t_max) {
            Some((_, h)) => Some(h),
            None => None,
        }
    }

    fn is_hit(&self, ray: &Ray, t_max: Ratio) -> (b: bool) {
        proof {
            lemma_scan_some_iff_any(self@, *ray, t_max);
        }
        first_hit_in(&self.0, 0, self.0.len(), ray, t_max).is_some()
    }
}

/// The box test that stands before a primitive or a group of them: the
/// ray passes through `bbox` somewhere between its origin and `t_max`.
pub open spec fn reaches(bbox: AABB, ray: Ray, t_max: Ratio) -> bool {
    match bbox.spec_intersect_ray(ray) {
        Some((t_in, t_out)) => t_in.le(t_max) && Ratio::spec_from_int(0).le(t_out),
        None => false,
    }
}

/// A box test that fails rules out a hit on anything inside the box.
pub proof fn lemma_unreached<T: Geometry>(bbox: AABB, obj: T, ray: Ray, t_max: Ratio)
    requires
        t_max.wf(),
        bbox.contains(obj.spec_bounding_box()),
        !reaches(bbox, ray, t_max),
    ensures
        obj.spec_hit(ray, t_max) is None,
{
    obj.lemma_hit_in_box(ray, t_max);
    match obj.spec_hit(ray, t_max) {
        Some(h) => {
            bbox.lemma_passes_grows(obj.spec_bounding_box(), ray, h.t);
            let (t_in, t_out) = bbox.spec_intersect_ray(ray).unwrap();
            bbox.lemma_intersect_some(ray, h.t);
            Ratio::lemma_total(h.t, t_max);
            Ratio::lemma_le_trans(t_in, h.t, t_max);
            Ratio::lemma_total(Ratio::spec_from_int(0), h.t);
            Ratio::lemma_le_trans(Ratio::spec_from_int(0), h.t, t_out);
        },
        None => {},
    }
}

/// Whether the ray passes through `bbox` between its origin and `t_max`.
pub fn box_reached(bbox: &AABB, ray: &Ray, t_max: Ratio) -> (b: bool)
    requires
        t_max.wf(),
    ensures
        b == reaches(*bbox, *ray, t_max),
{
    match bbox.intersect_ray(ray) {
        Some((t_in, t_out)) => {
            proof {
                bbox.lemma_intersect_some(*ray, t_max);
            }
            t_in.is_le(t_max) && Ratio::zero().is_le(t_out)
        },
        None => false,
    }
}

/// A primitive together with its bounding box, worked out once. A query
/// asks the primitive only where the ray passes through the box, and gives
/// what the primitive alone would give.
pub struct BoundingBox<T: Geometry> {
    obj: T,
    bbox: AABB,
}

impl<T: Geometry> BoundingBox<T> {
    /// The box kept beside the primitive is the primitive's own.
    #[verifier::type_invariant]
    pub closed spec fn wf(self) -> bool {
        self.bbox == self.obj.spec_bounding_box()
    }

    /// The primitive inside.
    pub closed spec fn inner(self) -> T {
        self.obj
    }

    pub fn new(obj: T) -> (b: Self)
        ensures
            b.inner() == obj,
    {
        let bbox = obj.bounding_box();
        BoundingBox { obj, bbox }
    }

    /// Gives the primitive back.
    pub fn into_inner(self) -> (obj: T)
        ensures
            obj == self.inner(),
    {
        self.obj
    }
}

impl<T: Geometry> Geometry for BoundingBox<T> {
    open spec fn spec_bounding_box(&self) -> AABB {
        self.inner().spec_bounding_box()
    }

    open spec fn spec_hit(&self, ray: Ray, t_max: Ratio) -> Option<HitResult> {
        self.inner().spec_hit(ray, t_max)
    }

    proof fn lemma_hit_in_box(&self, ray: Ray, t_max: Ratio) {
        self.inner().lemma_hit_in_box(ray, t_max);
    }

    proof fn lemma_hit_stable(&self, ray: Ray, t_max: Ratio, t_other: Ratio) {
        self.inner().lemma_hit_stable(ray, t_max, t_other);
    }

    fn bounding_box(&self) -> (b: AABB) {
        proof {
            use_type_invariant(self);
        }
        self.bbox
    }

    fn hit(&self, ray: &Ray, t_max: Ratio) -> (r: Option<HitResult>) {
        proof {
            use_type_invariant(self);
        }
        if box_reached(&self.bbox, ray, t_max) {
            self.obj.hit(ray, t_max)
        } else {
            proof {
                self.bbox.lemma_contains_self();
                lemma_unreached(self.bbox, self.obj, *ray, t_max);
            }
            None
        }
    }

    fn is_hit(&self, ray: &Ray, t_max: Ratio) -> (b: bool) {
        proof {
            use_type_invariant(self);
        }
        if box_reached(&self.bbox, ray, t_max) {
            self.obj.is_hit(ray, t_max)
        } else {
            proof {
                self.bbox.lemma_contains_self();
                lemma_unreached(self.bbox, self.obj, *ray, t_max);
            }
            false
        }
    }
}

/// A primitive with a material of its own: its hits carry the handle of
/// that material.
pub struct Object<G> {
    pub geometry: G,
    pub material: u32,
}

/// The hit `h` with the material handle `material`.
pub open spec fn with_handle(h: Option<HitResult>, material: u32) -> Option<HitResult> {
    match h {
        Some(h) => Some(HitResult { material, ..h }),
        None => None,
    }
}

impl<G: Geometry> Object<G> {
    /// Wraps `geom` with the default material.
    pub fn new(geom: G) -> (o: Self)
        ensures
            o.geometry == geom,
            o.material == DEFAULT_MATERIAL,
    {
        Object { geometry: geom, material: DEFAULT_MATERIAL }
    }

    pub fn with_material(geometry: G, material: u32) -> (o: Self)
        ensures
            o.geometry == geometry,
            o.material == material,
    {
        Object { geometry, material }
    }
}

impl<G: Geometry> Geometry for Object<G> {
    open spec fn spec_bounding_box(&self) -> AABB {
        self.geometry.spec_bounding_box()
    }

    open spec fn spec_hit(&self, ray: Ray, t_max: Ratio) -> Option<HitResult> {
        with_handle(self.geometry.spec_hit(ray, t_max), self.material)
    }

    proof fn lemma_hit_in_box(&self, ray: Ray, t_max: Ratio) {
        self.geometry.lemma_hit_in_box(ray, t_max);
    }

    proof fn lemma_hit_stable(&self, ray: Ray, t_max: Ratio, t_other: Ratio) {
        self.geometry.lemma_hit_stable(ray, t_max, t_other);
    }

    fn bounding_box(&self) -> (b: AABB) {
        self.geometry.bounding_box()
    }

    fn hit(&self, ray: &Ray, t_max: Ratio) -> (r: Option<HitResult>) {
        match self.geometry.hit(ray, t_max) {
            Some(h) => Some(
                HitResult { pos: h.pos, norm: h.norm, t: h.t, uv: h.uv, material: self.material },
            ),
            None => None,
        }
    }

    fn is_hit(&self, ray: &Ray, t_max: Ratio) -> (b: bool) {
        self.geometry.is_hit(ray, t_max)
    }
}

} // verus!
