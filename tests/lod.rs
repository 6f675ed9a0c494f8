use playform::lod::{lod_index, radius_between, BlockPosition, LODIndex, LOD_THRESHOLDS};

#[test]
fn lod_index_follows_thresholds() {
    assert_eq!(LOD_THRESHOLDS, [2, 16, 32]);
    assert_eq!(lod_index(0), LODIndex(0));
    assert_eq!(lod_index(2), LODIndex(0));
    assert_eq!(lod_index(3), LODIndex(1));
    assert_eq!(lod_index(16), LODIndex(1));
    assert_eq!(lod_index(17), LODIndex(2));
    assert_eq!(lod_index(32), LODIndex(2));
    assert_eq!(lod_index(33), LODIndex(3));
    assert_eq!(lod_index(i32::MAX), LODIndex(3));
}

#[test]
fn radius_is_chebyshev() {
    let a = BlockPosition { x: 0, y: 0, z: 0 };
    assert_eq!(radius_between(&a, &BlockPosition { x: 20, y: 0, z: 0 }), 20);
    assert_eq!(radius_between(&a, &BlockPosition { x: -3, y: 7, z: -5 }), 7);
    assert_eq!(radius_between(&BlockPosition { x: 1, y: 1, z: 1 }, &BlockPosition { x: 1, y: 1, z: 1 }), 0);
    let far = BlockPosition { x: i32::MIN, y: 0, z: 0 };
    let near = BlockPosition { x: i32::MAX, y: 0, z: 0 };
    assert_eq!(radius_between(&far, &near), u32::MAX as i64);
}
