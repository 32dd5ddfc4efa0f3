use raybvh::mesh::faces_in_range;
use raybvh::mesh::merge_vertices;

#[test]
fn corners_must_name_vertices() {
    assert!(faces_in_range(&vec![], 0));
    assert!(faces_in_range(&vec![[0, 1, 2], [2, 1, 0]], 3));
    assert!(!faces_in_range(&vec![[0, 1, 2], [2, 3, 0]], 3));
    assert!(!faces_in_range(&vec![[3, 1, 2]], 3));
    assert!(!faces_in_range(&vec![[0, 1, 3]], 3));
    assert!(!faces_in_range(&vec![[0, 0, 0]], 0));
    assert!(faces_in_range(&vec![[u32::MAX, 0, 0]], usize::MAX));
}

#[test]
fn vertices_are_merged_in_the_order_of_their_first_corner() {
    let keys = vec![7u128, 9, 7, 3, 9, 9, 1 << 100, 3];
    let (first, index) = merge_vertices(&keys);
    assert_eq!(first, vec![0, 1, 3, 6]);
    assert_eq!(index, vec![0, 1, 0, 2, 1, 1, 3, 2]);
}

#[test]
fn merging_nothing_and_merging_distinct_keys() {
    assert_eq!(merge_vertices(&vec![]), (vec![], vec![]));
    let keys: Vec<u128> = (0..100).map(|k| k * k).collect();
    let (first, index) = merge_vertices(&keys);
    assert_eq!(first, (0..100).collect::<Vec<usize>>());
    assert_eq!(index, (0..100).collect::<Vec<u32>>());
    let same = vec![5u128; 40];
    assert_eq!(merge_vertices(&same), (vec![0], vec![0; 40]));
}
