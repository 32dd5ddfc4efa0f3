use raybvh::sah::bucket_index;
use raybvh::sah::centroid2_of;
use raybvh::sah::centroid_range;
use raybvh::sah::cost_at;
use raybvh::sah::fill_buckets;
use raybvh::sah::find_split;
use raybvh::sah::partition_range;
use raybvh::sah::partition_sah;
use raybvh::sah::sum_sizes;
use raybvh::sah::union_hulls;
use raybvh::Cuboid;
use raybvh::Geometry;
use raybvh::Vec3;
use raybvh::AABB;

fn cube(cx: i32, cy: i32, cz: i32) -> Cuboid {
    Cuboid::new(
        Vec3::new(cx - 1, cy - 1, cz - 1),
        Vec3::new(cx + 1, cy + 1, cz + 1),
    )
}

fn boxes(objs: &[Cuboid]) -> Vec<AABB> {
    objs.iter().map(|o| o.bounding_box()).collect()
}

fn in_step(bbox: &[AABB], objs: &[Cuboid]) -> bool {
    bbox.len() == objs.len() && bbox.iter().zip(objs.iter()).all(|(b, o)| *b == o.bounding_box())
}

#[test]
fn centroid_is_doubled() {
    let b = AABB::from_min_max(Vec3::new(-3, 0, 7), Vec3::new(4, 10, 7));
    assert_eq!(centroid2_of(&b, 0), 1);
    assert_eq!(centroid2_of(&b, 1), 10);
    assert_eq!(centroid2_of(&b, 2), 14);
}

#[test]
fn centroid_range_of_a_run() {
    let objs = [cube(-10, 0, 5), cube(0, 3, 5), cube(10, -2, 5)];
    let bbox = boxes(&objs);
    assert_eq!(centroid_range(&bbox, 0, 3, 0), (-20, 20));
    assert_eq!(centroid_range(&bbox, 0, 3, 1), (-4, 6));
    assert_eq!(centroid_range(&bbox, 0, 3, 2), (10, 10));
    assert_eq!(centroid_range(&bbox, 1, 3, 0), (0, 20));
    assert_eq!(centroid_range(&bbox, 1, 1, 0), (1 << 32, -(1 << 32)));
}

#[test]
fn buckets_are_equal_parts_of_the_span() {
    let at = |c: i32| bucket_index(&cube(c, 0, 0).bounding_box(), 0, 0, 32);
    // doubled centres 0, 2, 4, ..., 32 over a span of 32: two units a bucket
    assert_eq!(at(0), 0);
    assert_eq!(at(1), 1);
    assert_eq!(at(7), 7);
    assert_eq!(at(15), 15);
    assert_eq!(at(16), 15);
    let odd = |c: i32| bucket_index(&cube(c, 0, 0).bounding_box(), 0, 0, 6);
    // 16 * 2c / 6, rounded down
    assert_eq!(odd(1), 5);
    assert_eq!(odd(2), 10);
    assert_eq!(odd(3), 15);
}

#[test]
fn without_a_span_every_box_is_in_the_first_bucket() {
    assert_eq!(bucket_index(&cube(5, 0, 0).bounding_box(), 0, 10, 0), 0);
    assert_eq!(bucket_index(&cube(5, 0, 0).bounding_box(), 1, 0, 0), 0);
}

#[test]
fn buckets_hold_counts_and_hulls() {
    let objs = [cube(0, 0, 0), cube(1, 0, 0), cube(16, 0, 0), cube(16, 4, 0)];
    let bbox = boxes(&objs);
    let (sizes, hulls) = fill_buckets(&bbox, 0, 4, 0);
    let mut expected = [0usize; 16];
    expected[0] = 1;
    expected[1] = 1;
    expected[15] = 2;
    assert_eq!(sizes, expected);
    assert_eq!(hulls[0], cube(0, 0, 0).bounding_box());
    assert_eq!(hulls[1], cube(1, 0, 0).bounding_box());
    assert_eq!(
        hulls[15],
        AABB::from_min_max(Vec3::new(15, -1, -1), Vec3::new(17, 5, 1))
    );
    assert_eq!(hulls[7], AABB::new());
    assert_eq!(sum_sizes(&sizes, 0, 16), 4);
    assert_eq!(sum_sizes(&sizes, 1, 15), 1);
    assert_eq!(sum_sizes(&sizes, 2, 15), 0);
    assert_eq!(sum_sizes(&sizes, 3, 3), 0);
    assert_eq!(union_hulls(&hulls, 2, 15), AABB::new());
    assert_eq!(
        union_hulls(&hulls, 0, 2),
        AABB::from_min_max(Vec3::new(-1, -1, -1), Vec3::new(2, 1, 1))
    );
    assert_eq!(
        union_hulls(&hulls, 0, 16),
        AABB::from_min_max(Vec3::new(-1, -1, -1), Vec3::new(17, 5, 1))
    );
}

#[test]
fn cost_is_count_times_area_on_each_side() {
    let objs = [cube(0, 0, 0), cube(1, 0, 0), cube(16, 0, 0), cube(16, 4, 0)];
    let bbox = boxes(&objs);
    let (sizes, hulls) = fill_buckets(&bbox, 0, 4, 0);
    // before bucket 2, left: two boxes in 3 x 2 x 2, right: two in 2 x 6 x 2
    let left = 2 * (3 * 2 + 2 * 2 + 2 * 3);
    let right = 2 * (2 * 6 + 6 * 2 + 2 * 2);
    assert_eq!(cost_at(&sizes, &hulls, 2), Some(2 * left + 2 * right));
    assert_eq!(cost_at(&sizes, &hulls, 15), Some(2 * left + 2 * right));
    // before bucket 1, left: one unit cube, right: three boxes in 17 x 6 x 2
    let wide = 2 * (17 * 6 + 6 * 2 + 2 * 17);
    assert_eq!(cost_at(&sizes, &hulls, 1), Some(24 + 3 * wide));
    assert_eq!(cost_at(&sizes, &hulls, 0), None);
    assert_eq!(cost_at(&sizes, &hulls, 16), None);
}

#[test]
fn the_first_of_the_cheapest_splits_wins() {
    let objs = [cube(0, 0, 0), cube(40, 0, 0)];
    let bbox = boxes(&objs);
    let split = find_split(&bbox, 0, 2).unwrap();
    assert_eq!((split.axis, split.boundary), (0, 1));
    assert_eq!((split.origin, split.span), (0, 80));
    assert_eq!(split.cost, 48);
}

#[test]
fn a_later_axis_wins_only_when_it_is_cheaper() {
    // Far apart along y, close along x: splitting along y gives smaller sides.
    let objs = [cube(0, 0, 0), cube(2, 0, 0), cube(0, 100, 0), cube(2, 100, 0)];
    let bbox = boxes(&objs);
    let split = find_split(&bbox, 0, 4).unwrap();
    assert_eq!(split.axis, 1);
    assert_eq!(split.boundary, 1);
    // each side: 4 x 2 x 2
    assert_eq!(split.cost, 2 * 2 * 2 * (4 * 2 + 2 * 2 + 2 * 4));
}

#[test]
fn no_split_when_all_centres_coincide() {
    let objs = [cube(3, 3, 3), cube(3, 3, 3), cube(3, 3, 3)];
    let bbox = boxes(&objs);
    assert!(find_split(&bbox, 0, 3).is_none());
    let nested = [
        Cuboid::new(Vec3::new(-1, -1, -1), Vec3::new(1, 1, 1)),
        Cuboid::new(Vec3::new(-5, -5, -5), Vec3::new(5, 5, 5)),
    ];
    assert!(find_split(&boxes(&nested), 0, 2).is_none());
}

#[test]
fn partition_declines_short_runs() {
    let mut objs = vec![cube(0, 0, 0)];
    let mut bbox = boxes(&objs);
    assert_eq!(partition_sah(&mut bbox, &mut objs), None);
    let mut none: Vec<Cuboid> = vec![];
    let mut no_boxes: Vec<AABB> = vec![];
    assert_eq!(partition_sah(&mut no_boxes, &mut none), None);
}

#[test]
fn partition_declines_coincident_centres_and_moves_nothing() {
    let mut objs = vec![
        Cuboid::new(Vec3::new(-1, -1, -1), Vec3::new(1, 1, 1)),
        Cuboid::new(Vec3::new(-5, -5, -5), Vec3::new(5, 5, 5)),
        Cuboid::new(Vec3::new(0, 0, 0), Vec3::new(0, 0, 0)),
    ];
    let before = objs.clone();
    let mut bbox = boxes(&objs);
    assert_eq!(partition_sah(&mut bbox, &mut objs), None);
    assert_eq!(objs, before);
    assert_eq!(bbox, boxes(&before));
}

#[test]
fn partition_moves_boxes_and_primitives_together() {
    let mut objs = vec![cube(0, 0, 0), cube(40, 0, 0)];
    let mut bbox = boxes(&objs);
    assert_eq!(partition_sah(&mut bbox, &mut objs), Some(1));
    // the side at or behind the boundary comes first
    assert_eq!(objs, vec![cube(40, 0, 0), cube(0, 0, 0)]);
    assert!(in_step(&bbox, &objs));
}

#[test]
fn partition_puts_the_far_side_first() {
    let mut objs = vec![
        cube(0, 0, 0),
        cube(100, 0, 0),
        cube(2, 0, 0),
        cube(98, 0, 0),
        cube(4, 0, 0),
    ];
    let before = objs.clone();
    let mut bbox = boxes(&objs);
    let s = partition_sah(&mut bbox, &mut objs).unwrap();
    assert_eq!(s, 2);
    assert!(objs[..s].iter().all(|o| o.bounds.min.get(0) > 50));
    assert!(objs[s..].iter().all(|o| o.bounds.min.get(0) < 50));
    assert!(in_step(&bbox, &objs));
    let mut sorted = objs.clone();
    let mut expected = before.clone();
    sorted.sort_by_key(|o| o.bounds.min.get(0));
    expected.sort_by_key(|o| o.bounds.min.get(0));
    assert_eq!(sorted, expected);
}

#[test]
fn partition_of_a_range_leaves_the_rest_alone() {
    let mut objs = vec![
        cube(7, 7, 7),
        cube(0, 0, 0),
        cube(0, 60, 0),
        cube(0, 2, 0),
        cube(-9, -9, -9),
    ];
    let mut bbox = boxes(&objs);
    let s = partition_range(&mut bbox, &mut objs, 1, 4).unwrap();
    assert_eq!(s, 1);
    assert_eq!(objs[0], cube(7, 7, 7));
    assert_eq!(objs[4], cube(-9, -9, -9));
    assert_eq!(objs[1], cube(0, 60, 0));
    assert!(in_step(&bbox, &objs));
}

#[test]
fn partition_handles_zero_volume_boxes() {
    let point = |x: i32| Cuboid::new(Vec3::new(x, 0, 0), Vec3::new(x, 0, 0));
    let mut objs = vec![point(0), point(10), point(20), point(30)];
    let mut bbox = boxes(&objs);
    let s = partition_sah(&mut bbox, &mut objs).unwrap();
    assert!(0 < s && s < 4);
    assert!(in_step(&bbox, &objs));
}
