use playform::bounds::Bounds;
use playform::voxel_tree::{TreeBody, VoxelTree};

#[test]
fn insert_and_lookup() {
    let mut tree: VoxelTree<i32> = VoxelTree::new();
    *tree.get_mut_or_create(&Bounds::new(1, 1, 1, 0)) = TreeBody::Leaf(1);
    *tree.get_mut_or_create(&Bounds::new(8, -8, 4, 0)) = TreeBody::Leaf(2);
    *tree.get_mut_or_create(&Bounds::new(2, 0, 4, 4)) = TreeBody::Leaf(3);
    *tree.get_mut_or_create(&Bounds::new(9, 0, 16, 2)) = TreeBody::Leaf(4);
    *tree.get_mut_or_create(&Bounds::new(9, 0, 16, 2)) = TreeBody::Leaf(5);

    assert_eq!(tree.get(&Bounds::new(1, 1, 1, 0)), Some(&1));
    assert_eq!(tree.get(&Bounds::new(8, -8, 4, 0)), Some(&2));
    assert_eq!(tree.get(&Bounds::new(9, 0, 16, 2)), Some(&5));

    assert_eq!(tree.get(&Bounds::new(2, 0, 4, 4)), None);
}

#[test]
fn wrong_voxel_size_is_not_found() {
    let mut tree: VoxelTree<i32> = VoxelTree::new();
    *tree.get_mut_or_create(&Bounds::new(4, 4, -4, 1)) = TreeBody::Leaf(1);
    assert_eq!(tree.get(&Bounds::new(4, 4, -4, 0)), None);
    assert_eq!(tree.get(&Bounds::new(4, 4, -4, 2)), None);
}

#[test]
fn grow_is_transparent() {
    let mut tree: VoxelTree<i32> = VoxelTree::new();
    *tree.get_mut_or_create(&Bounds::new(1, 1, 1, 0)) = TreeBody::Leaf(1);
    tree.grow_to_hold(&Bounds::new(0, 0, 0, 1));
    tree.grow_to_hold(&Bounds::new(0, 0, 0, 2));
    tree.grow_to_hold(&Bounds::new(-32, 32, -128, 3));

    assert_eq!(tree.get(&Bounds::new(1, 1, 1, 0)), Some(&1));
}

#[test]
fn new_tree_is_empty() {
    let tree: VoxelTree<i32> = VoxelTree::new();
    assert_eq!(tree.get(&Bounds::new(0, 0, 0, 0)), None);
    assert_eq!(tree.get(&Bounds::new(-1, -1, -1, 0)), None);
    assert!(tree.contains_bounds(&Bounds::new(-1, 0, -1, 0)));
    assert!(!tree.contains_bounds(&Bounds::new(1, 0, 0, 0)));
    assert!(!tree.contains_bounds(&Bounds::new(-2, 0, 0, 0)));
    assert!(!tree.contains_bounds(&Bounds::new(0, 0, 0, 1)));
}

#[test]
fn grow_reaches_exact_extent() {
    let mut tree: VoxelTree<i32> = VoxelTree::new();
    tree.grow_to_hold(&Bounds::new(3, 0, 0, 0));
    // The tree spans [-4, 4) now, and no more.
    assert!(tree.contains_bounds(&Bounds::new(3, -4, 0, 0)));
    assert!(!tree.contains_bounds(&Bounds::new(4, 0, 0, 0)));
    assert!(tree.contains_bounds(&Bounds::new(-1, 0, 0, 2)));
    assert!(!tree.contains_bounds(&Bounds::new(0, 0, 0, 3)));
}

#[test]
fn sub_unit_voxels_round_trip() {
    let mut tree: VoxelTree<i32> = VoxelTree::new();
    *tree.get_mut_or_create(&Bounds::new(5, -7, 3, -2)) = TreeBody::Leaf(7);
    *tree.get_mut_or_create(&Bounds::new(-9, 40, 1, -3)) = TreeBody::Leaf(8);
    assert_eq!(tree.get(&Bounds::new(5, -7, 3, -2)), Some(&7));
    assert_eq!(tree.get(&Bounds::new(-9, 40, 1, -3)), Some(&8));
    assert_eq!(tree.get(&Bounds::new(5, -7, 3, -1)), None);
    assert_eq!(tree.get(&Bounds::new(4, -7, 3, -2)), None);
}

#[test]
fn extreme_coordinates_round_trip() {
    let mut tree: VoxelTree<u8> = VoxelTree::new();
    *tree.get_mut_or_create(&Bounds::new(i32::MAX, i32::MIN, 0, 15)) = TreeBody::Leaf(1);
    *tree.get_mut_or_create(&Bounds::new(i32::MIN, i32::MAX, -1, -15)) = TreeBody::Leaf(2);
    assert_eq!(tree.get(&Bounds::new(i32::MAX, i32::MIN, 0, 15)), Some(&1));
    assert_eq!(tree.get(&Bounds::new(i32::MIN, i32::MAX, -1, -15)), Some(&2));
}

#[test]
fn writing_a_coarser_voxel_erases_finer_ones() {
    let mut tree: VoxelTree<i32> = VoxelTree::new();
    *tree.get_mut_or_create(&Bounds::new(1, 1, 1, 0)) = TreeBody::Leaf(1);
    *tree.get_mut_or_create(&Bounds::new(6, 6, 6, 0)) = TreeBody::Leaf(2);
    *tree.get_mut_or_create(&Bounds::new(0, 0, 0, 1)) = TreeBody::Leaf(3);
    assert_eq!(tree.get(&Bounds::new(0, 0, 0, 1)), Some(&3));
    assert_eq!(tree.get(&Bounds::new(1, 1, 1, 0)), None);
    assert_eq!(tree.get(&Bounds::new(6, 6, 6, 0)), Some(&2));
}

#[test]
fn get_mut_changes_in_place() {
    let mut tree: VoxelTree<i32> = VoxelTree::new();
    *tree.get_mut_or_create(&Bounds::new(2, 3, 4, 0)) = TreeBody::Leaf(10);
    match tree.get_mut(&Bounds::new(2, 3, 4, 0)) {
        Some(v) => *v = 11,
        None => panic!("voxel is missing"),
    }
    assert!(tree.get_mut(&Bounds::new(2, 3, 5, 0)).is_none());
    assert!(tree.get_mut(&Bounds::new(200, 3, 5, 0)).is_none());
    assert_eq!(tree.get(&Bounds::new(2, 3, 4, 0)), Some(&11));
}

#[test]
fn get_mut_or_create_hands_out_existing_slot() {
    let mut tree: VoxelTree<i32> = VoxelTree::new();
    *tree.get_mut_or_create(&Bounds::new(2, 3, 4, 0)) = TreeBody::Leaf(10);
    assert_eq!(*tree.get_mut_or_create(&Bounds::new(2, 3, 4, 0)), TreeBody::Leaf(10));
    assert_eq!(*tree.get_mut_or_create(&Bounds::new(2, 3, 5, 0)), TreeBody::Empty);
}
