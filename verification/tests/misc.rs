use raybvh::bvh::AABBTree;
use raybvh::texture::Checkerboard;
use raybvh::Cuboid;
use raybvh::GeometryList;

fn assert_shared<T: Send + Sync>() {}

#[test]
fn trees_and_lists_can_be_shared_between_threads() {
    assert_shared::<AABBTree<Cuboid>>();
    assert_shared::<GeometryList<Cuboid>>();
    assert_shared::<AABBTree<AABBTree<Cuboid>>>();
}

#[test]
fn checkerboard_cells() {
    let board = Checkerboard::new(8);
    assert_eq!(board.repeats(), 8);
    assert_eq!(board, Checkerboard(8));
    assert!(!Checkerboard::is_black(0, 0));
    assert!(Checkerboard::is_black(0, 1));
    assert!(Checkerboard::is_black(1, 0));
    assert!(!Checkerboard::is_black(1, 1));
    assert!(!Checkerboard::is_black(6, 4));
    assert!(Checkerboard::is_black(7, 4));
}

#[test]
fn checkerboard_cells_with_negative_indices() {
    assert!(Checkerboard::is_black(-1, 0));
    assert!(!Checkerboard::is_black(-1, -3));
    assert!(Checkerboard::is_black(-2, 5));
    assert!(!Checkerboard::is_black(-2, 4));
    assert!(Checkerboard::is_black(i32::MIN, i32::MAX));
    assert!(!Checkerboard::is_black(i32::MIN, 0));
}
