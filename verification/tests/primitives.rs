use raybvh::aggregate::box_reached;
use raybvh::cuboid::box_hit_at;
use raybvh::cuboid::hit_box;
use raybvh::geometry::first_hit_in;
use raybvh::geometry::hull_of;
use raybvh::geometry::scan_range;
use raybvh::geometry::DEFAULT_MATERIAL;
use raybvh::BoundingBox;
use raybvh::Cuboid;
use raybvh::Geometry;
use raybvh::GeometryList;
use raybvh::Object;
use raybvh::Ratio;
use raybvh::Ray;
use raybvh::UnitCuboid;
use raybvh::Vec3;
use raybvh::AABB;

fn far() -> Ratio {
    Ratio::max_value()
}

fn block(x: i32) -> Cuboid {
    Cuboid::new(Vec3::new(x, -1, -1), Vec3::new(x + 2, 1, 1))
}

#[test]
fn cuboid_from_corners_in_any_order() {
    let c = Cuboid::new(Vec3::new(3, -1, 5), Vec3::new(1, 4, 5));
    assert_eq!(c.bounds.min, Vec3::new(1, -1, 5));
    assert_eq!(c.bounds.max, Vec3::new(3, 4, 5));
    assert_eq!(c.bounding_box(), c.bounds);
}

#[test]
fn unit_cuboid_box() {
    let b = UnitCuboid.bounding_box();
    assert_eq!(b.min, Vec3::new(-1, -1, -1));
    assert_eq!(b.max, Vec3::new(1, 1, 1));
}

#[test]
fn unit_cuboid_hit_from_outside() {
    let ray = Ray::new(Vec3::new(-5, 0, 0), Vec3::new(2, 0, 0));
    let h = UnitCuboid.hit(&ray, far()).unwrap();
    assert!(h.t.is_same(Ratio::new(2, 1)));
    assert_eq!(h.t, Ratio::new(4, 2));
    assert_eq!(h.norm, Vec3::new(-1, 0, 0));
    assert_eq!(h.pos, Vec3::new(-2i128, 0, 0));
    assert_eq!(h.uv, [0, 0]);
    assert_eq!(h.material, DEFAULT_MATERIAL);
    assert!(UnitCuboid.is_hit(&ray, far()));
}

#[test]
fn cuboid_hit_names_the_face_and_the_surface_coordinates() {
    let c = Cuboid::new(Vec3::new(0, 0, 0), Vec3::new(4, 4, 4));
    let ray = Ray::new(Vec3::new(1, 10, 3), Vec3::new(0, -3, 0));
    let h = c.hit(&ray, far()).unwrap();
    assert_eq!(h.t, Ratio::new(6, 3));
    assert_eq!(h.norm, Vec3::new(0, 1, 0));
    // scaled by the denominator 3: the point (1, 4, 3)
    assert_eq!(h.pos, Vec3::new(3i128, 12, 9));
    assert_eq!(h.uv, [3, 9]);
    let along_z = Ray::new(Vec3::new(1, 2, -2), Vec3::new(0, 0, 1));
    let h = c.hit(&along_z, far()).unwrap();
    assert_eq!(h.t, Ratio::new(2, 1));
    assert_eq!(h.norm, Vec3::new(0, 0, -1));
    assert_eq!(h.uv, [1, 2]);
}

#[test]
fn cuboid_hit_from_inside_is_where_the_ray_leaves() {
    let ray = Ray::new(Vec3::new(0, 0, 0), Vec3::new(0, 0, 1));
    let h = UnitCuboid.hit(&ray, far()).unwrap();
    assert_eq!(h.t, Ratio::new(1, 1));
    assert_eq!(h.norm, Vec3::new(0, 0, 1));
    assert_eq!(h.pos, Vec3::new(0i128, 0, 1));
    let back = Ray::new(Vec3::new(0, 0, 0), Vec3::new(0, -2, 0));
    let h = UnitCuboid.hit(&back, far()).unwrap();
    assert_eq!(h.t, Ratio::new(1, 2));
    assert_eq!(h.norm, Vec3::new(0, -1, 0));
}

#[test]
fn cuboid_hit_at_an_edge_takes_the_first_axis() {
    let ray = Ray::new(Vec3::new(-3, -3, 0), Vec3::new(1, 1, 0));
    let h = UnitCuboid.hit(&ray, far()).unwrap();
    assert_eq!(h.t, Ratio::new(2, 1));
    assert_eq!(h.norm, Vec3::new(-1, 0, 0));
}

#[test]
fn cuboid_behind_the_ray_is_not_hit() {
    let ray = Ray::new(Vec3::new(5, 0, 0), Vec3::new(1, 0, 0));
    assert_eq!(UnitCuboid.hit(&ray, far()), None);
    assert!(!UnitCuboid.is_hit(&ray, far()));
}

#[test]
fn ray_that_starts_on_a_face_and_leaves_hits_nothing() {
    let ray = Ray::new(Vec3::new(1, 0, 0), Vec3::new(1, 0, 0));
    assert_eq!(UnitCuboid.hit(&ray, far()), None);
    let inward = Ray::new(Vec3::new(1, 0, 0), Vec3::new(-1, 0, 0));
    let h = UnitCuboid.hit(&inward, far()).unwrap();
    assert_eq!(h.t, Ratio::new(2, 1));
}

#[test]
fn hit_must_lie_strictly_below_the_bound() {
    let ray = Ray::new(Vec3::new(-5, 0, 0), Vec3::new(1, 0, 0));
    assert_eq!(UnitCuboid.hit(&ray, Ratio::new(4, 1)), None);
    assert!(!UnitCuboid.is_hit(&ray, Ratio::new(4, 1)));
    assert!(UnitCuboid.hit(&ray, Ratio::new(9, 2)).is_some());
    assert!(UnitCuboid.is_hit(&ray, Ratio::new(9, 2)));
    let inside = Ray::new(Vec3::new(0, 0, 0), Vec3::new(1, 0, 0));
    assert_eq!(UnitCuboid.hit(&inside, Ratio::new(1, 1)), None);
    assert!(UnitCuboid.hit(&inside, Ratio::new(3, 2)).is_some());
}

#[test]
fn box_hit_helpers_agree() {
    let b = AABB::from_min_max(Vec3::new(2, 2, 2), Vec3::new(6, 6, 6));
    let ray = Ray::new(Vec3::new(0, 4, 4), Vec3::new(1, 0, 0));
    assert_eq!(box_hit_at(&b, &ray, far()), Some((Ratio::new(2, 1), true)));
    assert_eq!(hit_box(&b, &ray, far()).unwrap().t, Ratio::new(2, 1));
    let inside = Ray::new(Vec3::new(4, 4, 4), Vec3::new(1, 0, 0));
    assert_eq!(box_hit_at(&b, &inside, far()), Some((Ratio::new(2, 1), false)));
    assert_eq!(box_hit_at(&b, &inside, Ratio::new(2, 1)), None);
}

#[test]
fn list_scan_keeps_the_nearest_hit() {
    let list = GeometryList::from_vec(vec![block(10), block(2), block(6)]);
    let ray = Ray::new(Vec3::new(0, 0, 0), Vec3::new(1, 0, 0));
    let (index, h) = list.nearest_hit(&ray, far()).unwrap();
    assert_eq!(index, 1);
    assert_eq!(h.t, Ratio::new(2, 1));
    assert_eq!(list.hit(&ray, far()), Some(h));
    assert!(list.is_hit(&ray, far()));
    let (index, h) = list.nearest_hit(&ray, Ratio::new(100, 1)).unwrap();
    assert_eq!((index, h.t), (1, Ratio::new(2, 1)));
}

#[test]
fn list_scan_keeps_the_first_of_equal_hits() {
    let list = GeometryList::from_vec(vec![block(4), block(4), block(9)]);
    let ray = Ray::new(Vec3::new(0, 0, 0), Vec3::new(1, 0, 0));
    let (index, _) = list.nearest_hit(&ray, far()).unwrap();
    assert_eq!(index, 0);
}

#[test]
fn list_scan_respects_the_bound() {
    let list = GeometryList::from_vec(vec![block(10), block(6)]);
    let ray = Ray::new(Vec3::new(0, 0, 0), Vec3::new(1, 0, 0));
    assert_eq!(list.nearest_hit(&ray, Ratio::new(6, 1)), None);
    assert!(!list.is_hit(&ray, Ratio::new(6, 1)));
    let (index, _) = list.nearest_hit(&ray, Ratio::new(7, 1)).unwrap();
    assert_eq!(index, 1);
}

#[test]
fn empty_list_has_the_empty_box_and_no_hits() {
    let list: GeometryList<Cuboid> = GeometryList::new();
    assert_eq!(list.bounding_box(), AABB::new());
    let ray = Ray::new(Vec3::new(0, 0, 0), Vec3::new(1, 0, 0));
    assert_eq!(list.hit(&ray, far()), None);
    assert!(!list.is_hit(&ray, far()));
}

#[test]
fn list_grows_and_gives_its_primitives_back() {
    let mut list = GeometryList::new();
    list.push(block(1));
    list.add(block(5));
    assert_eq!(
        list.bounding_box(),
        AABB::from_min_max(Vec3::new(1, -1, -1), Vec3::new(7, 1, 1))
    );
    assert_eq!(list.into_vec(), vec![block(1), block(5)]);
}

#[test]
fn scan_helpers_work_on_ranges() {
    let prims = vec![block(2), block(6), block(10)];
    let ray = Ray::new(Vec3::new(0, 0, 0), Vec3::new(1, 0, 0));
    let (i, h) = scan_range(&prims, 1, 3, &ray, far(), None).unwrap();
    assert_eq!((i, h.t), (1, Ratio::new(6, 1)));
    let (i, _) = scan_range(&prims, 0, 1, &ray, far(), Some((1, h))).unwrap();
    assert_eq!(i, 0);
    assert_eq!(scan_range(&prims, 2, 3, &ray, far(), Some((1, h))), Some((1, h)));
    assert_eq!(first_hit_in(&prims, 1, 3, &ray, far()), Some(1));
    assert_eq!(first_hit_in(&prims, 1, 3, &ray, Ratio::new(8, 1)), Some(1));
    assert_eq!(first_hit_in(&prims, 2, 3, &ray, Ratio::new(8, 1)), None);
    assert_eq!(first_hit_in(&prims, 1, 1, &ray, far()), None);
    assert_eq!(
        hull_of(&prims, 1, 3),
        AABB::from_min_max(Vec3::new(6, -1, -1), Vec3::new(12, 1, 1))
    );
    assert_eq!(hull_of(&prims, 2, 2), AABB::new());
}

#[test]
fn bounding_box_wrapper_answers_as_the_primitive() {
    let wrapped = BoundingBox::new(block(4));
    assert_eq!(wrapped.bounding_box(), block(4).bounding_box());
    let rays = [
        Ray::new(Vec3::new(0, 0, 0), Vec3::new(1, 0, 0)),
        Ray::new(Vec3::new(0, 5, 0), Vec3::new(1, 0, 0)),
        Ray::new(Vec3::new(5, 0, 0), Vec3::new(0, 1, 0)),
        Ray::new(Vec3::new(9, 0, 0), Vec3::new(1, 0, 0)),
        Ray::new(Vec3::new(0, 0, 0), Vec3::new(0, 0, 0)),
    ];
    for ray in rays.iter() {
        for bound in [far(), Ratio::new(4, 1), Ratio::new(1, 2)] {
            assert_eq!(wrapped.hit(ray, bound), block(4).hit(ray, bound));
            assert_eq!(wrapped.is_hit(ray, bound), block(4).is_hit(ray, bound));
        }
    }
    assert_eq!(wrapped.into_inner(), block(4));
}

#[test]
fn box_test_before_a_primitive() {
    let b = block(4).bounding_box();
    let ray = Ray::new(Vec3::new(0, 0, 0), Vec3::new(1, 0, 0));
    assert!(box_reached(&b, &ray, far()));
    assert!(box_reached(&b, &ray, Ratio::new(4, 1)));
    assert!(!box_reached(&b, &ray, Ratio::new(3, 1)));
    let behind = Ray::new(Vec3::new(7, 0, 0), Vec3::new(1, 0, 0));
    assert!(!box_reached(&b, &behind, far()));
    let from_face = Ray::new(Vec3::new(6, 0, 0), Vec3::new(-1, 0, 0));
    assert!(box_reached(&b, &from_face, far()));
}

#[test]
fn object_carries_its_material() {
    let plain = Object::new(block(4));
    assert_eq!(plain.material, DEFAULT_MATERIAL);
    let painted = Object::with_material(block(4), 7);
    let ray = Ray::new(Vec3::new(0, 0, 0), Vec3::new(1, 0, 0));
    let h = painted.hit(&ray, far()).unwrap();
    assert_eq!(h.material, 7);
    let bare = block(4).hit(&ray, far()).unwrap();
    assert_eq!((h.t, h.pos, h.norm, h.uv), (bare.t, bare.pos, bare.norm, bare.uv));
    assert_eq!(plain.hit(&ray, far()), Some(bare));
    assert!(painted.is_hit(&ray, far()));
    assert_eq!(painted.bounding_box(), block(4).bounding_box());
}
