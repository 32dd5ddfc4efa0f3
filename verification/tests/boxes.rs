use raybvh::Ratio;
use raybvh::Ray;
use raybvh::Vec3;
use raybvh::AABB;

fn unit_box() -> AABB {
    AABB::from_min_max(Vec3::new(-1, -1, -1), Vec3::new(1, 1, 1))
}

fn same(a: Ratio, n: i64, d: i64) -> bool {
    a.is_same(Ratio::new(n, d))
}

#[test]
fn empty_box_is_the_identity_of_union() {
    let empty = AABB::new();
    assert_eq!(empty.min, Vec3::fill(i32::MAX));
    assert_eq!(empty.max, Vec3::fill(i32::MIN));
    let b = AABB::from_min_max(Vec3::new(-3, 0, 2), Vec3::new(4, 5, 9));
    assert_eq!(empty.union(b), b);
    assert_eq!(b.union(empty), b);
    assert_eq!(empty.union(empty), empty);
}

#[test]
fn union_takes_least_and_greatest_corner() {
    let a = AABB::from_min_max(Vec3::new(0, 0, 0), Vec3::new(1, 5, 1));
    let b = AABB::from_min_max(Vec3::new(-2, 1, 0), Vec3::new(0, 2, 7));
    let u = a.union(b);
    assert_eq!(u.min, Vec3::new(-2, 0, 0));
    assert_eq!(u.max, Vec3::new(1, 5, 7));
    assert_eq!(b.union(a), u);
    assert_eq!(u.union(a), u);
}

#[test]
fn boxes_from_points() {
    let p = Vec3::new(3, -1, 2);
    let q = Vec3::new(-4, 5, 2);
    assert_eq!(AABB::from_point(p), AABB::from_min_max(p, p));
    let b = AABB::from_points(p, q);
    assert_eq!(b.min, Vec3::new(-4, -1, 2));
    assert_eq!(b.max, Vec3::new(3, 5, 2));
    assert_eq!(AABB::from_point(p).union_point(q), b);
}

#[test]
fn surface_area_formula() {
    let b = AABB::from_min_max(Vec3::new(0, 0, 0), Vec3::new(2, 3, 5));
    assert_eq!(b.surface_area(), 2 * (2 * 3 + 3 * 5 + 5 * 2));
    assert_eq!(unit_box().surface_area(), 24);
    let flat = AABB::from_min_max(Vec3::new(0, 0, 0), Vec3::new(4, 6, 0));
    assert_eq!(flat.surface_area(), 48);
    let point = AABB::from_point(Vec3::new(1, 1, 1));
    assert_eq!(point.surface_area(), 0);
}

#[test]
fn surface_area_of_the_largest_box_fits() {
    let b = AABB::from_min_max(Vec3::fill(i32::MIN), Vec3::fill(i32::MAX));
    let d = (1i128 << 32) - 1;
    assert_eq!(b.surface_area(), 6 * d * d);
}

#[test]
fn ray_through_the_middle_of_a_box() {
    let ray = Ray::new(Vec3::new(-5, 0, 0), Vec3::new(1, 0, 0));
    let (t0, t1) = unit_box().intersect_ray(&ray).unwrap();
    assert!(same(t0, 4, 1));
    assert!(same(t1, 6, 1));
}

#[test]
fn ray_against_the_axes() {
    let ray = Ray::new(Vec3::new(5, 0, 0), Vec3::new(-2, 0, 0));
    let (t0, t1) = unit_box().intersect_ray(&ray).unwrap();
    assert!(same(t0, 2, 1));
    assert!(same(t1, 3, 1));
}

#[test]
fn diagonal_ray_takes_the_latest_entry_and_the_earliest_exit() {
    let b = AABB::from_min_max(Vec3::new(0, 0, 0), Vec3::new(4, 2, 8));
    let ray = Ray::new(Vec3::new(-2, -3, -1), Vec3::new(2, 3, 4));
    // x: [1, 3], y: [1, 5/3], z: [1/4, 9/4]
    let (t0, t1) = b.intersect_ray(&ray).unwrap();
    assert!(same(t0, 1, 1));
    assert!(same(t1, 5, 3));
}

#[test]
fn box_behind_the_ray_gives_a_negative_interval() {
    let ray = Ray::new(Vec3::new(5, 0, 0), Vec3::new(1, 0, 0));
    let (t0, t1) = unit_box().intersect_ray(&ray).unwrap();
    assert!(same(t0, -6, 1));
    assert!(same(t1, -4, 1));
}

#[test]
fn ray_beside_the_box_misses() {
    let ray = Ray::new(Vec3::new(-5, 2, 0), Vec3::new(1, 0, 0));
    assert_eq!(unit_box().intersect_ray(&ray), None);
    let slanted = Ray::new(Vec3::new(-5, 0, 0), Vec3::new(1, 1, 0));
    assert_eq!(unit_box().intersect_ray(&slanted), None);
}

#[test]
fn axis_parallel_ray_on_a_face_counts_as_inside_the_slab() {
    let ray = Ray::new(Vec3::new(-5, 1, 0), Vec3::new(1, 0, 0));
    let (t0, t1) = unit_box().intersect_ray(&ray).unwrap();
    assert!(same(t0, 4, 1));
    assert!(same(t1, 6, 1));
}

#[test]
fn ray_that_only_touches_a_corner_misses() {
    let ray = Ray::new(Vec3::new(-2, 0, 0), Vec3::new(1, 1, 0));
    // x: [1, 3], y: [-1, 1]: the intervals share the single parameter 1.
    assert_eq!(unit_box().intersect_ray(&ray), None);
}

#[test]
fn flat_box_is_missed_by_a_ray_that_crosses_it() {
    let flat = AABB::from_min_max(Vec3::new(-1, -1, 0), Vec3::new(1, 1, 0));
    let ray = Ray::new(Vec3::new(0, 0, -5), Vec3::new(0, 0, 1));
    assert_eq!(flat.intersect_ray(&ray), None);
    let along = Ray::new(Vec3::new(-5, 0, 0), Vec3::new(1, 0, 0));
    let (t0, t1) = flat.intersect_ray(&along).unwrap();
    assert!(same(t0, 4, 1));
    assert!(same(t1, 6, 1));
}

#[test]
fn ray_that_does_not_move_gives_nothing() {
    let ray = Ray::new(Vec3::new(0, 0, 0), Vec3::new(0, 0, 0));
    assert!(!ray.is_valid());
    assert_eq!(unit_box().intersect_ray(&ray), None);
}

#[test]
fn empty_box_is_always_missed() {
    let ray = Ray::new(Vec3::new(0, 0, 0), Vec3::new(1, 2, 3));
    assert_eq!(AABB::new().intersect_ray(&ray), None);
}

#[test]
fn fast_test_agrees_with_the_plain_one() {
    let boxes = [
        unit_box(),
        AABB::from_min_max(Vec3::new(3, -2, 1), Vec3::new(9, 0, 4)),
        AABB::from_min_max(Vec3::new(-7, -7, -7), Vec3::new(-6, 7, 7)),
    ];
    let dirs = [
        Vec3::new(1, 0, 0),
        Vec3::new(-1, 2, 0),
        Vec3::new(3, -1, 2),
        Vec3::new(-2, -3, -5),
        Vec3::new(0, 0, -1),
    ];
    let origins = [Vec3::new(0, 0, 0), Vec3::new(-10, 1, 3), Vec3::new(6, -1, 20)];
    for b in boxes.iter() {
        for &dir in dirs.iter() {
            for &pos in origins.iter() {
                let ray = Ray::new(pos, dir);
                let fast = b.fast_intersect_ray(pos, ray.dir_magnitude(), ray.dir_sign());
                assert_eq!(fast, b.intersect_ray(&ray));
            }
        }
    }
}

#[test]
fn direction_magnitude_and_sign() {
    let ray = Ray::new(Vec3::new(0, 0, 0), Vec3::new(-3, 0, i32::MIN));
    assert_eq!(ray.dir_magnitude(), Vec3::new(3i64, 0, 1 << 31));
    assert_eq!(ray.dir_sign(), [true, false, true]);
    assert!(ray.is_valid());
}

#[test]
fn point_on_a_ray_is_scaled_by_the_denominator() {
    let ray = Ray::new(Vec3::new(1, 2, 3), Vec3::new(2, 0, -1));
    assert_eq!(ray.at(Ratio::new(3, 2)), Vec3::new(2i128 + 6, 4, 6 - 3));
    assert_eq!(ray.at_axis(Ratio::new(3, 2), 2), 3);
    assert_eq!(ray.at(Ratio::zero()), Vec3::new(1i128, 2, 3));
}

#[test]
fn slab_test_at_the_extremes_of_the_grid() {
    let b = AABB::from_min_max(Vec3::fill(i32::MIN), Vec3::fill(i32::MAX));
    let ray = Ray::new(Vec3::fill(i32::MAX), Vec3::fill(i32::MIN));
    let (t0, t1) = b.intersect_ray(&ray).unwrap();
    assert!(same(t0, 0, 1));
    assert!(same(t1, (1i64 << 32) - 1, 1i64 << 31));
}
