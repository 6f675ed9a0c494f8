use playform::in_progress::InProgressTerrain;
use playform::loader::{InstallAction, LODMap, LoadAction, TerrainLoader};
use playform::lod::{BlockPosition, LODIndex, OwnerId, LOD};
use playform::terrain::Terrain;

const P: BlockPosition = BlockPosition { x: 3, y: -1, z: 0 };

fn idx(k: u32) -> LOD {
    LOD::LodIndex(LODIndex(k))
}

fn empty_terrain() -> Terrain<(), ()> {
    Terrain::new()
}

#[test]
fn lod_multiplexer_sequence() {
    let terrain = empty_terrain();
    let a = OwnerId(1);
    let b = OwnerId(2);
    let mut loader = TerrainLoader::new();

    // A asks for LOD 2: a load is issued, then the mesh is installed.
    assert_eq!(loader.load(&terrain, &P, idx(2), a), LoadAction::Fetch { lod: LODIndex(2), owner: a });
    assert_eq!(loader.insert_block(&P, LODIndex(2), a), InstallAction::Install { replaced: None });

    // B asks for the finer LOD 1: it replaces the mesh at LOD 2 on arrival.
    assert_eq!(loader.load(&terrain, &P, idx(1), b), LoadAction::Fetch { lod: LODIndex(1), owner: b });
    assert_eq!(loader.insert_block(&P, LODIndex(1), b), InstallAction::Install { replaced: Some(idx(2)) });

    // A unloads: no physics change.
    assert_eq!(loader.unload(&terrain, &P, a), LoadAction::Nothing);

    // B asks for the coarser LOD 3: the mesh at LOD 1 is replaced by LOD 3.
    assert_eq!(loader.load(&terrain, &P, idx(3), b), LoadAction::Fetch { lod: LODIndex(3), owner: b });
    assert_eq!(loader.insert_block(&P, LODIndex(3), b), InstallAction::Install { replaced: Some(idx(1)) });

    // B unloads: the block is cleared.
    assert_eq!(loader.unload(&terrain, &P, b), LoadAction::Clear { loaded: Some(idx(3)) });
    assert_eq!(loader.unload(&terrain, &P, b), LoadAction::Nothing);
}

#[test]
fn pending_request_is_recorded() {
    let terrain = empty_terrain();
    let a = OwnerId(1);
    let b = OwnerId(2);
    let mut loader = TerrainLoader::new();
    assert_eq!(loader.load(&terrain, &P, idx(2), a), LoadAction::Fetch { lod: LODIndex(2), owner: a });
    assert_eq!(loader.load(&terrain, &P, idx(1), b), LoadAction::Fetch { lod: LODIndex(1), owner: b });
    // A unloads while both loads are pending: B's request keeps the block.
    assert_eq!(loader.unload(&terrain, &P, a), LoadAction::Nothing);
    assert_eq!(loader.insert_block(&P, LODIndex(1), b), InstallAction::Install { replaced: None });
    // A's stale block is dropped, and A's request does not come back.
    assert_eq!(loader.insert_block(&P, LODIndex(2), a), InstallAction::Drop);
    assert_eq!(loader.unload(&terrain, &P, b), LoadAction::Clear { loaded: Some(idx(1)) });
    assert_eq!(loader.unload(&terrain, &P, a), LoadAction::Nothing);
}

#[test]
fn cached_mesh_is_installed_at_once() {
    let mut terrain = empty_terrain();
    *terrain.load(&P, LODIndex(0)) = Some(());
    let mut loader = TerrainLoader::new();
    assert_eq!(loader.load(&terrain, &P, idx(0), OwnerId(1)), LoadAction::Install { lod: LODIndex(0), replaced: None });
    // Delivered again later: installed already, so dropped.
    assert_eq!(loader.insert_block(&P, LODIndex(0), OwnerId(1)), InstallAction::Drop);
}

#[test]
fn unload_downgrades_to_next_finest() {
    let mut terrain = empty_terrain();
    let mut loader = TerrainLoader::new();
    loader.load(&terrain, &P, idx(1), OwnerId(1));
    loader.insert_block(&P, LODIndex(1), OwnerId(1));
    assert_eq!(loader.load(&terrain, &P, idx(3), OwnerId(2)), LoadAction::Nothing);
    // Not cached: the coarser mesh is fetched for the owner that wants it.
    assert_eq!(loader.unload(&terrain, &P, OwnerId(1)), LoadAction::Fetch { lod: LODIndex(3), owner: OwnerId(2) });
    assert_eq!(loader.insert_block(&P, LODIndex(3), OwnerId(2)), InstallAction::Install { replaced: Some(idx(1)) });

    // Cached: installed at once.
    let q = BlockPosition { x: 9, y: 9, z: 9 };
    *terrain.load(&q, LODIndex(4)) = Some(());
    loader.load(&terrain, &q, idx(0), OwnerId(1));
    loader.insert_block(&q, LODIndex(0), OwnerId(1));
    loader.load(&terrain, &q, idx(4), OwnerId(2));
    assert_eq!(loader.unload(&terrain, &q, OwnerId(1)), LoadAction::Install { lod: LODIndex(4), replaced: Some(idx(0)) });
}

#[test]
fn coarser_request_beside_finer_changes_nothing() {
    let terrain = empty_terrain();
    let mut loader = TerrainLoader::new();
    loader.load(&terrain, &P, idx(1), OwnerId(1));
    loader.insert_block(&P, LODIndex(1), OwnerId(1));
    assert_eq!(loader.load(&terrain, &P, idx(4), OwnerId(2)), LoadAction::Nothing);
    assert_eq!(loader.load(&terrain, &P, idx(1), OwnerId(1)), LoadAction::Nothing);
    assert_eq!(loader.load(&terrain, &P, LOD::Placeholder, OwnerId(3)), LoadAction::Nothing);
}

#[test]
fn placeholder_for_new_block() {
    let terrain = empty_terrain();
    let mut loader = TerrainLoader::new();
    assert_eq!(loader.load(&terrain, &P, LOD::Placeholder, OwnerId(1)), LoadAction::InsertPlaceholder { replaced: None });
    // The mesh replaces the placeholder.
    assert_eq!(loader.load(&terrain, &P, idx(0), OwnerId(1)), LoadAction::Fetch { lod: LODIndex(0), owner: OwnerId(1) });
    assert_eq!(
        loader.insert_block(&P, LODIndex(0), OwnerId(1)),
        InstallAction::Install { replaced: Some(LOD::Placeholder) }
    );
}

#[test]
fn stale_block_is_dropped() {
    let terrain = empty_terrain();
    let mut loader = TerrainLoader::new();
    loader.load(&terrain, &P, idx(2), OwnerId(1));
    loader.insert_block(&P, LODIndex(2), OwnerId(1));
    loader.load(&terrain, &P, idx(0), OwnerId(2));
    loader.insert_block(&P, LODIndex(0), OwnerId(2));
    // A block at LOD 1 that owner 1 never asked for arrives.
    assert_eq!(loader.insert_block(&P, LODIndex(1), OwnerId(1)), InstallAction::Drop);
    // One for a block nobody wants.
    assert_eq!(loader.insert_block(&BlockPosition { x: 0, y: 0, z: 0 }, LODIndex(1), OwnerId(1)), InstallAction::Drop);
}

#[test]
fn lod_map_records_requests() {
    let mut map = LODMap::new();
    let q = BlockPosition { x: 0, y: 0, z: 0 };
    assert_eq!(map.insert(q, idx(2), OwnerId(1)), None);
    assert_eq!(map.insert(q, idx(3), OwnerId(2)), None);
    assert_eq!(map.insert(q, idx(1), OwnerId(2)), Some(idx(3)));
    assert_eq!(map.remove(q, OwnerId(2)), Some(idx(1)));
    assert_eq!(map.remove(q, OwnerId(2)), None);
    assert_eq!(map.remove(q, OwnerId(1)), Some(idx(2)));
    assert_eq!(map.remove(q, OwnerId(1)), None);
}

#[test]
fn in_progress_blocks_keep_one_placeholder() {
    let mut t = InProgressTerrain::new();
    let q = BlockPosition { x: 0, y: 0, z: 0 };
    assert!(!t.contains(&P));
    assert!(t.insert(&P, 7));
    assert!(!t.insert(&P, 8));
    assert!(t.insert(&q, 9));
    assert!(t.contains(&P));
    assert_eq!(t.remove(&P), Some(7));
    assert_eq!(t.remove(&P), None);
    assert!(!t.contains(&P));
    assert_eq!(t.remove(&q), Some(9));
}
