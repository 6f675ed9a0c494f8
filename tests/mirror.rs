use playform::lod::{lod_index, BlockPosition, LODIndex};
use playform::mirror::{apply_surroundings_change, load_terrain_block, ClientMirror, ClientToView, TerrainBlock, TerrainBlockSend};
use playform::surroundings::SurroundingsChange;

fn send(x: i32, lod: u32, ids: Vec<u32>, mesh: &'static str) -> TerrainBlockSend<&'static str> {
    TerrainBlockSend { position: BlockPosition { x, y: 0, z: 0 }, block: TerrainBlock { ids, mesh }, lod: LODIndex(lod) }
}

fn describe(events: &[ClientToView<&'static str>]) -> Vec<String> {
    events
        .iter()
        .map(|e| match e {
            ClientToView::AddBlock(p, b, l) => format!("add {} {} {:?} {}", p.x, l.0, b.ids, b.mesh),
            ClientToView::RemoveTerrain(id) => format!("remove {}", id),
            ClientToView::RemoveBlockData(p, l) => format!("forget {} {}", p.x, l.0),
        })
        .collect()
}

#[test]
fn client_drops_far_blocks() {
    let mut mirror = ClientMirror::new();
    let player = BlockPosition { x: 0, y: 0, z: 0 };
    for lod in 0..5 {
        let events = load_terrain_block(&mut mirror, &player, 8, send(20, lod, vec![1], "far"));
        assert!(events.is_empty());
    }
    let lod = lod_index(2).0;
    let events = load_terrain_block(&mut mirror, &player, 8, send(2, lod, vec![5, 6], "a"));
    assert_eq!(describe(&events), vec!["add 2 0 [5, 6] a".to_string()]);
    // At another LOD than the distance calls for: dropped.
    let events = load_terrain_block(&mut mirror, &player, 8, send(2, 1, vec![7], "b"));
    assert!(events.is_empty());
    // A second arrival at the right LOD takes the first down before it is shown.
    let events = load_terrain_block(&mut mirror, &player, 8, send(2, lod, vec![8], "c"));
    assert_eq!(
        describe(&events),
        vec!["remove 5".to_string(), "remove 6".to_string(), "forget 2 0".to_string(), "add 2 0 [8] c".to_string()]
    );
}

#[test]
fn client_mirror_converges_on_last_accepted_send() {
    let mut mirror = ClientMirror::new();
    let player = BlockPosition { x: 0, y: 0, z: 0 };
    load_terrain_block(&mut mirror, &player, 8, send(5, 1, vec![1], "a"));
    load_terrain_block(&mut mirror, &player, 8, send(5, 1, vec![2, 3], "b"));
    load_terrain_block(&mut mirror, &player, 8, send(5, 0, vec![4], "wrong lod"));
    // What is installed shows in what the next accepted send takes down.
    let events = load_terrain_block(&mut mirror, &player, 8, send(5, 1, vec![], "d"));
    assert_eq!(
        describe(&events),
        vec!["remove 2".to_string(), "remove 3".to_string(), "forget 5 1".to_string(), "add 5 1 [] d".to_string()]
    );
    // Other positions are unaffected.
    let events = load_terrain_block(&mut mirror, &player, 8, send(-1, 0, vec![9], "e"));
    assert_eq!(describe(&events), vec!["add -1 0 [9] e".to_string()]);
}

#[test]
fn negative_load_distance_accepts_nothing() {
    let mut mirror = ClientMirror::new();
    let player = BlockPosition { x: 0, y: 0, z: 0 };
    let events = load_terrain_block(&mut mirror, &player, -1, send(0, 0, vec![1], "a"));
    assert!(events.is_empty());
}

#[test]
fn client_unloads_and_requests_blocks() {
    let mut mirror = ClientMirror::new();
    let player = BlockPosition { x: 0, y: 0, z: 0 };
    let p = BlockPosition { x: 2, y: 0, z: 0 };
    // Not installed: ask for it at the LOD its distance calls for.
    assert_eq!(mirror.wanted_lod(&p, 2), Some(LODIndex(0)));
    let (events, request) = apply_surroundings_change::<&'static str>(&mut mirror, SurroundingsChange::Load(p, 20));
    assert!(events.is_empty());
    assert_eq!(request, Some((p, LODIndex(2))));
    load_terrain_block(&mut mirror, &player, 8, send(2, 0, vec![5, 6], "a"));
    // Installed at the right LOD: nothing to ask for; at another LOD: ask.
    assert_eq!(mirror.wanted_lod(&p, 1), None);
    assert_eq!(mirror.wanted_lod(&p, 3), Some(LODIndex(1)));
    let (_, request) = apply_surroundings_change::<&'static str>(&mut mirror, SurroundingsChange::Load(p, 0));
    assert_eq!(request, None);
    // Unloading takes the block down, once.
    let (events, request) = apply_surroundings_change::<&'static str>(&mut mirror, SurroundingsChange::Unload(p));
    assert_eq!(request, None);
    assert_eq!(describe(&events), vec!["remove 5".to_string(), "remove 6".to_string(), "forget 2 0".to_string()]);
    assert!(mirror.unload::<&'static str>(&p).is_empty());
    assert_eq!(mirror.wanted_lod(&p, 1), Some(LODIndex(0)));
}
