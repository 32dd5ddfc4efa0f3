use raybvh::bvh::AABBTree;
use raybvh::bvh::HitCost;
use raybvh::Cuboid;
use raybvh::Geometry;
use raybvh::Ratio;
use raybvh::Ray;
use raybvh::Vec3;

fn cube(cx: i32, cy: i32, cz: i32) -> Cuboid {
    Cuboid::new(
        Vec3::new(cx - 1, cy - 1, cz - 1),
        Vec3::new(cx + 1, cy + 1, cz + 1),
    )
}

fn three_cubes() -> AABBTree<Cuboid> {
    let objs = vec![cube(-10, 0, 0), cube(0, 0, 0), cube(10, 0, 0)];
    AABBTree::new(objs, HitCost { hit: 4, traversal: 1 })
}

#[test]
fn three_cubes_are_split_into_leaves() {
    let tree = three_cubes();
    assert!(tree.nodes().len() > 2);
    assert_eq!(tree.primitives().len(), 3);
}

#[test]
fn three_cubes_nearest_hit_on_first_cube() {
    let tree = three_cubes();
    let ray = Ray::new(Vec3::new(-10, -5, 0), Vec3::new(0, 1, 0));
    let hit = tree.hit(&ray, Ratio::max_value()).expect("the ray hits the first cube");
    assert!(hit.t.num == 4 * hit.t.den);
    let (index, same) = tree.nearest_hit(&ray, Ratio::max_value()).unwrap();
    assert_eq!(same, hit);
    assert_eq!(tree.primitives()[index], cube(-10, 0, 0));
    assert!(tree.is_hit(&ray, Ratio::max_value()));
}

#[test]
fn three_cubes_ray_pointing_away_hits_nothing() {
    let tree = three_cubes();
    let ray = Ray::new(Vec3::new(100, 0, 0), Vec3::new(1, 0, 0));
    assert_eq!(tree.hit(&ray, Ratio::max_value()), None);
    assert!(!tree.is_hit(&ray, Ratio::max_value()));
    assert!(!tree.any_hit(&ray, Ratio::max_value()));
}
