use playform::lod::BlockPosition;
use playform::surroundings::{SurroundingsChange, SurroundingsLoader};

fn bp(x: i32, y: i32, z: i32) -> BlockPosition {
    BlockPosition { x, y, z }
}

#[test]
fn loads_cube_around_focus_a_few_at_a_time() {
    let mut s = SurroundingsLoader::new();
    s.update_queues(bp(0, 0, 0));
    assert_eq!(s.want_loaded.len(), 27);
    assert_eq!(s.load_queue.len(), 27);
    // Nearest first: the focus block, then the ring around it.
    assert_eq!(s.load_queue[0], bp(0, 0, 0));
    assert_eq!(s.load_queue[1], bp(-1, -1, -1));
    assert_eq!(s.load_queue[13], bp(0, 0, -1));
    assert_eq!(s.load_queue[14], bp(0, 0, 1));
    assert_eq!(s.load_queue[26], bp(1, 1, 1));
    let first = s.load_some();
    assert_eq!(
        first,
        vec![
            SurroundingsChange::Load(bp(0, 0, 0), 0),
            SurroundingsChange::Load(bp(-1, -1, -1), 1),
            SurroundingsChange::Load(bp(-1, -1, 0), 1),
            SurroundingsChange::Load(bp(-1, -1, 1), 1),
        ]
    );
    assert_eq!(s.loaded.len(), 4);
    let mut total = 4;
    loop {
        let more = s.load_some();
        if more.is_empty() {
            break;
        }
        assert!(more.len() <= 4);
        total += more.len();
    }
    assert_eq!(total, 27);
    assert_eq!(s.loaded.len(), 27);
}

#[test]
fn moving_focus_unloads_blocks_left_behind_first() {
    let mut s = SurroundingsLoader::new();
    s.update_queues(bp(0, 0, 0));
    while !s.load_some().is_empty() {}
    // Same position: nothing changes.
    s.update_queues(bp(0, 0, 0));
    assert!(s.load_queue.is_empty());
    s.update_queues(bp(1, 0, 0));
    // The x = -1 slab is left behind; the x = 2 slab is new.
    assert_eq!(s.unload_queue.len(), 9);
    assert!(s.unload_queue.iter().all(|p| p.x == -1));
    assert_eq!(s.load_queue.len(), 9);
    assert!(s.load_queue.iter().all(|p| p.x == 2));
    let step = s.load_some();
    assert_eq!(step.len(), 4);
    assert!(step.iter().all(|c| matches!(c, SurroundingsChange::Unload(p) if p.x == -1)));
    while !s.load_some().is_empty() {}
    assert_eq!(s.loaded.len(), 27);
    assert!(s.loaded.iter().all(|p| p.x >= 0 && p.x <= 2));
}
