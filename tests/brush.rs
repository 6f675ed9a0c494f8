use playform::bounds::Bounds;
use playform::brush::{brush_overlaps, Brush, BrushBounds, Point, SurfaceVoxel, Voxel};
use playform::voxel_tree::{TreeBody, VoxelTree};

/// A brush that carves out the cube [-r, r)^3 and reports each voxel's
/// low corner as its surface.
struct CubeBrush {
    r: i32,
}

impl Brush<(i32, i32, i32, i16)> for CubeBrush {
    fn surface_in(&self, bounds: Bounds) -> (i32, i32, i32, i16) {
        self.vertex_in(&bounds)
    }

    fn holds_corner(&self, bounds: Bounds) -> bool {
        self.contains_corner(&bounds)
    }

    fn vertex_in(&self, bounds: &Bounds) -> (i32, i32, i32, i16) {
        (bounds.x, bounds.y, bounds.z, bounds.lg_size)
    }

    fn contains_corner(&self, bounds: &Bounds) -> bool {
        let inside = |c: i32| {
            let w = if bounds.lg_size >= 0 { (c as i64) << bounds.lg_size } else { (c as i64) >> -bounds.lg_size };
            -(self.r as i64) <= w && w < self.r as i64
        };
        inside(bounds.x) && inside(bounds.y) && inside(bounds.z)
    }
}

fn bb(lx: i32, ly: i32, lz: i32, hx: i32, hy: i32, hz: i32) -> BrushBounds {
    BrushBounds { low: Point { x: lx, y: ly, z: lz }, high: Point { x: hx, y: hy, z: hz } }
}

type V = Voxel<(i32, i32, i32, i16)>;

fn solid(v: Option<&V>) -> Option<bool> {
    v.map(|v| match v {
        Voxel::Volume(b) => *b,
        Voxel::Surface(s) => s.corner_inside_surface,
    })
}

#[test]
fn overlaps_unit_and_coarse_voxels() {
    let b = bb(0, 0, 0, 4, 4, 4);
    assert!(brush_overlaps(&Bounds::new(0, 0, 0, 0), &b));
    assert!(brush_overlaps(&Bounds::new(3, 3, 3, 0), &b));
    assert!(!brush_overlaps(&Bounds::new(4, 0, 0, 0), &b));
    assert!(!brush_overlaps(&Bounds::new(-1, 0, 0, 0), &b));
    // [4, 8) misses [0, 4); [0, 8) meets it.
    assert!(!brush_overlaps(&Bounds::new(1, 0, 0, 2), &b));
    assert!(brush_overlaps(&Bounds::new(0, 0, 0, 3), &b));
    assert!(brush_overlaps(&Bounds::new(-1, -1, -1, 3), &bb(-1, -1, -1, 0, 0, 0)));
}

#[test]
fn overlaps_sub_unit_voxels() {
    let b = bb(1, 1, 1, 2, 2, 2);
    // Voxels of side 1/4: [1, 2) holds indices 4..8.
    assert!(brush_overlaps(&Bounds::new(4, 4, 4, -2), &b));
    assert!(brush_overlaps(&Bounds::new(7, 7, 7, -2), &b));
    assert!(!brush_overlaps(&Bounds::new(8, 4, 4, -2), &b));
    assert!(!brush_overlaps(&Bounds::new(3, 4, 4, -2), &b));
}

#[test]
fn brush_carves_solid_and_surface_voxels() {
    let mut tree: VoxelTree<V> = VoxelTree::new();
    *tree.get_mut_or_create(&Bounds::new(0, 0, 0, 0)) = TreeBody::Leaf(Voxel::Volume(true));
    *tree.get_mut_or_create(&Bounds::new(1, 0, 0, 0)) = TreeBody::Leaf(Voxel::Volume(false));
    *tree.get_mut_or_create(&Bounds::new(-1, 0, 0, 0)) =
        TreeBody::Leaf(Voxel::Surface(SurfaceVoxel { surface: (9, 9, 9, 9), corner_inside_surface: true }));
    *tree.get_mut_or_create(&Bounds::new(5, 5, 5, 0)) = TreeBody::Leaf(Voxel::Volume(true));
    let brush = CubeBrush { r: 2 };
    tree.remove(&brush, &bb(-2, -2, -2, 2, 2, 2));

    // Solid voxels inside the brush become surface voxels with an empty corner.
    assert_eq!(
        tree.get(&Bounds::new(0, 0, 0, 0)),
        Some(&Voxel::Surface(SurfaceVoxel { surface: (0, 0, 0, 0), corner_inside_surface: false }))
    );
    assert_eq!(
        tree.get(&Bounds::new(-1, 0, 0, 0)),
        Some(&Voxel::Surface(SurfaceVoxel { surface: (-1, 0, 0, 0), corner_inside_surface: false }))
    );
    // Empty volume stays empty.
    assert_eq!(tree.get(&Bounds::new(1, 0, 0, 0)), Some(&Voxel::Volume(false)));
    // Outside the brush's box: untouched.
    assert_eq!(tree.get(&Bounds::new(5, 5, 5, 0)), Some(&Voxel::Volume(true)));
}

#[test]
fn brush_keeps_corner_outside_its_region() {
    let mut tree: VoxelTree<V> = VoxelTree::new();
    *tree.get_mut_or_create(&Bounds::new(1, 1, 1, 1)) = TreeBody::Leaf(Voxel::Volume(true));
    // The box meets the voxel [2, 4)^3, but the brush's region [-1, 1)^3
    // does not hold its low corner.
    let brush = CubeBrush { r: 1 };
    tree.remove(&brush, &bb(-4, -4, -4, 3, 3, 3));
    assert_eq!(
        tree.get(&Bounds::new(1, 1, 1, 1)),
        Some(&Voxel::Surface(SurfaceVoxel { surface: (1, 1, 1, 1), corner_inside_surface: true }))
    );
}

#[test]
fn brush_never_adds_solid() {
    let mut tree: VoxelTree<V> = VoxelTree::new();
    let mut cells = Vec::new();
    for x in -3..3 {
        for y in -3..3 {
            let b = Bounds::new(x, y, 0, 0);
            let solid_here = (x + y) % 2 == 0;
            *tree.get_mut_or_create(&b) = TreeBody::Leaf(Voxel::Volume(solid_here));
            cells.push(b);
        }
    }
    let before: Vec<Option<bool>> = cells.iter().map(|b| solid(tree.get(b))).collect();
    tree.remove(&CubeBrush { r: 2 }, &bb(-2, -2, -2, 2, 2, 2));
    for (b, was) in cells.iter().zip(before.iter()) {
        let now = solid(tree.get(b));
        assert!(now.is_some());
        if now == Some(true) {
            assert_eq!(*was, Some(true));
        }
    }
}
