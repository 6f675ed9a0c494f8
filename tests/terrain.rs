use playform::bounds::Bounds;
use playform::brush::{Brush, BrushBounds, Point, Voxel};
use playform::lod::{BlockPosition, LODIndex};
use playform::terrain::{MipMesh, MipMeshMap, Terrain};
use playform::voxel_tree::TreeBody;

/// Removes a ball of radius `r` around the origin.
struct Ball {
    r: i64,
}

impl Brush<()> for Ball {
    fn surface_in(&self, _bounds: Bounds) {}

    fn holds_corner(&self, b: Bounds) -> bool {
        self.contains_corner(&b)
    }

    fn vertex_in(&self, _bounds: &Bounds) {}

    fn contains_corner(&self, b: &Bounds) -> bool {
        let w = |c: i32| (c as i64) << b.lg_size;
        w(b.x) * w(b.x) + w(b.y) * w(b.y) + w(b.z) * w(b.z) < self.r * self.r
    }
}

fn bp(x: i32, y: i32, z: i32) -> BlockPosition {
    BlockPosition { x, y, z }
}

#[test]
fn brush_regenerates_touched_cached_blocks() {
    let mut terrain: Terrain<(), &'static str> = Terrain::new();
    // A solid ball of radius 10 voxels at the origin.
    for x in -10..10 {
        for y in -10..10 {
            for z in -10..10 {
                let inside = x * x + y * y + z * z < 100;
                *terrain.voxels.get_mut_or_create(&Bounds::new(x, y, z, 0)) = TreeBody::Leaf(Voxel::Volume(inside));
            }
        }
    }
    // Cached meshes: blocks are 8 units wide.
    for (p, lod) in [(bp(0, 0, 0), 0), (bp(0, 0, 0), 2), (bp(-1, -1, -1), 1), (bp(1, 0, 0), 0), (bp(0, -2, 0), 3)] {
        *terrain.load(&p, LODIndex(lod)) = Some("mesh");
    }
    // An empty slot made on the way is not a cached mesh.
    assert_eq!(*terrain.load(&bp(-1, 0, 0), LODIndex(1)), None);

    let bounds = BrushBounds { low: Point { x: -4, y: -4, z: -4 }, high: Point { x: 4, y: 4, z: 4 } };
    let mut changed = terrain.remove(&Ball { r: 4 }, &bounds);
    changed.sort_by_key(|(p, l)| (p.x, p.y, p.z, l.0));
    assert_eq!(changed, vec![(bp(-1, -1, -1), LODIndex(1)), (bp(0, 0, 0), LODIndex(0)), (bp(0, 0, 0), LODIndex(2))]);

    // The ball's middle is carved out; its rim is not.
    let at = |t: &Terrain<(), &'static str>, x, y, z| match t.voxels.get(&Bounds::new(x, y, z, 0)) {
        Some(Voxel::Volume(b)) => Some(*b),
        Some(Voxel::Surface(s)) => Some(s.corner_inside_surface),
        None => None,
    };
    assert_eq!(at(&terrain, 0, 0, 0), Some(false));
    assert_eq!(at(&terrain, 3, 0, 0), Some(false));
    assert_eq!(at(&terrain, 5, 0, 0), Some(true));
    assert_eq!(at(&terrain, 9, 0, 0), Some(true));
}

#[test]
fn mip_mesh_slots_grow_on_demand() {
    let mut m: MipMesh<u8> = MipMesh { lods: Vec::new() };
    *m.get_mut(2) = Some(5);
    assert_eq!(m.lods, vec![None, None, Some(5)]);
    assert_eq!(*m.get_mut(0), None);
    assert_eq!(m.lods.len(), 3);

    let mut map: MipMeshMap<u8> = MipMeshMap::new();
    assert!(map.get(&bp(1, 2, 3)).is_none());
    *map.get_mut(&bp(1, 2, 3)).get_mut(1) = Some(9);
    assert_eq!(map.get(&bp(1, 2, 3)).map(|m| m.lods.clone()), Some(vec![None, Some(9)]));
    assert!(map.get(&bp(1, 2, 4)).is_none());
}
