use std::cell::Cell;
use std::collections::BTreeSet;
use terrain::grid::{half_patches_per_side, Terrain};
use terrain::lod::TerrainLod;
use terrain::topology::{indices, VERTICES_PER_SIDE};

fn coords(t: &Terrain<(i32, i32)>) -> BTreeSet<(i32, i32)> {
    t.patches().iter().map(|p| p.index).collect()
}

fn window(center: (i32, i32), half: i32) -> BTreeSet<(i32, i32)> {
    let mut s = BTreeSet::new();
    for ix in center.0 - half..=center.0 + half {
        for iy in center.1 - half..=center.1 + half {
            s.insert((ix, iy));
        }
    }
    s
}

fn standard(_: (i32, i32)) -> TerrainLod {
    TerrainLod::Standard
}

fn pos2patch(patch_size: f32, x: f32, z: f32) -> (i32, i32) {
    ((x / patch_size).floor() as i32, (z / patch_size).floor() as i32)
}

fn policy(d: f32) -> TerrainLod {
    if d < 20.0 {
        TerrainLod::Standard
    } else if d < 60.0 {
        TerrainLod::Coarse
    } else {
        TerrainLod::VeryCoarse
    }
}

fn distance_lod(patch_size: f32, x: f32, z: f32) -> impl Fn((i32, i32)) -> TerrainLod {
    move |(ix, iy)| {
        let cx = (ix as f32 + 0.5) * patch_size;
        let cz = (iy as f32 + 0.5) * patch_size;
        policy(((cx - x) * (cx - x) + (cz - z) * (cz - z)).sqrt())
    }
}

#[test]
fn scenario_three_by_three_moves_two_columns() {
    let built = Cell::new(0usize);
    let build = |i: (i32, i32)| {
        built.set(built.get() + 1);
        i
    };
    let start = pos2patch(10.0, 0.0, 0.0);
    let mut t = Terrain::new(3, start, &build);
    assert_eq!(t.center(), (0, 0));
    assert_eq!(t.patches().len(), 9);
    assert_eq!(coords(&t), window((0, 0), 1));
    assert_eq!(built.get(), 9);

    let target = pos2patch(10.0, 25.0, 0.0);
    assert_eq!(target, (2, 0));
    t.update(target, &build, &distance_lod(10.0, 25.0, 0.0));
    assert_eq!(t.center(), (2, 0));
    assert_eq!(t.patches().len(), 9);
    assert_eq!(coords(&t), window((2, 0), 1));
    // two re-centering steps, one new column of three patches each
    assert_eq!(built.get(), 9 + 6);
    // every centroid of this small window lies within 20 of (25, 0, 0)
    for p in t.patches().iter() {
        assert_eq!(p.lod, TerrainLod::Standard);
    }
}

#[test]
fn distance_policy_assigns_coarser_levels_far_away() {
    let build = |i: (i32, i32)| i;
    let mut t = Terrain::new(9, (0, 0), &build);
    t.update(pos2patch(10.0, 25.0, 0.0), &build, &distance_lod(10.0, 25.0, 0.0));
    let lod_of = |c: (i32, i32)| t.patches().iter().find(|p| p.index == c).unwrap().lod;
    assert_eq!(lod_of((2, 0)), TerrainLod::Standard);
    assert_eq!(lod_of((5, 0)), TerrainLod::Coarse);
    assert_eq!(lod_of((6, 4)), TerrainLod::VeryCoarse);
    for k in 0..t.patches().len() {
        let lod = t.patches()[k].lod;
        assert_eq!(t.patch_topology(k), t.topology(lod));
    }
}

#[test]
fn window_holds_after_any_sequence_of_updates() {
    let build = |i: (i32, i32)| i;
    let mut t = Terrain::new(5, (3, -7), &build);
    let targets = [(4, -7), (4, -6), (-20, 15), (-20, 15), (0, 0), (1000, -1000), (999, -998)];
    for target in targets.iter() {
        t.update(*target, &build, &standard);
        assert_eq!(t.center(), *target);
        assert_eq!(t.patches().len(), 25);
        assert_eq!(coords(&t), window(*target, 2));
        for p in t.patches().iter() {
            assert!((p.index.0 - target.0).abs().max((p.index.1 - target.1).abs()) <= 2);
            // the geometry was built for this very coordinate
            assert_eq!(p.data, p.index);
        }
    }
}

#[test]
fn one_step_builds_one_edge() {
    let built = Cell::new(0usize);
    let build = |i: (i32, i32)| {
        built.set(built.get() + 1);
        i
    };
    let mut t = Terrain::new(5, (0, 0), &build);
    // (target, whether a column enters, the coordinate of the entering edge)
    let steps = [((1, 0), true, 3), ((1, 1), false, 3), ((0, 1), true, -2), ((0, 0), false, -2)];
    for (target, column, edge) in steps.iter() {
        let before = coords(&t);
        let n0 = built.get();
        t.update(*target, &build, &standard);
        let after = coords(&t);
        assert_eq!(built.get() - n0, 5);
        assert_eq!(after.difference(&before).count(), 5);
        assert_eq!(before.difference(&after).count(), 5);
        for c in after.difference(&before) {
            if *column {
                assert_eq!(c.0, *edge);
            } else {
                assert_eq!(c.1, *edge);
            }
        }
    }
}

#[test]
fn repeated_update_is_a_fixed_point() {
    let built = Cell::new(0usize);
    let build = |i: (i32, i32)| {
        built.set(built.get() + 1);
        i
    };
    let mut t = Terrain::new(7, (0, 0), &build);
    t.update((3, -2), &build, &standard);
    let n = built.get();
    let first: Vec<(i32, i32)> = t.patches().iter().map(|p| p.index).collect();
    t.update((3, -2), &build, &standard);
    assert_eq!(built.get(), n);
    let second: Vec<(i32, i32)> = t.patches().iter().map(|p| p.index).collect();
    assert_eq!(first, second);
}

#[test]
fn long_jump_steps_one_edge_at_a_time() {
    let built = Cell::new(0usize);
    let build = |i: (i32, i32)| {
        built.set(built.get() + 1);
        i
    };
    let mut t = Terrain::new(5, (0, 0), &build);
    t.update((100, -50), &build, &standard);
    assert_eq!(built.get(), 25 + 150 * 5);
    assert_eq!(coords(&t), window((100, -50), 2));
}

#[test]
fn single_patch_window() {
    let build = |i: (i32, i32)| i;
    let mut t = Terrain::new(1, (5, 5), &build);
    assert_eq!(t.patches().len(), 1);
    t.update((-3, 8), &build, &standard);
    assert_eq!(t.patches().len(), 1);
    assert_eq!(t.patches()[0].index, (-3, 8));
    assert_eq!(t.patches()[0].data, (-3, 8));
}

#[test]
fn index_lists_have_six_entries_per_cell() {
    let side = VERTICES_PER_SIDE;
    assert_eq!(indices(1, side).len() as u32, 6 * (side - 1) * (side - 1));
    assert_eq!(indices(1, side).len(), 6144);
    assert_eq!(indices(4, side).len(), 384);
    assert_eq!(indices(8, side).len(), 96);
    assert_eq!(indices(1, side), indices(1, side));
    assert_eq!(indices(8, side), indices(8, side));
}

#[test]
fn index_list_corners() {
    assert_eq!(indices(1, 2), vec![0, 1, 3, 0, 3, 2]);
    let full = indices(1, 33);
    assert_eq!(&full[0..6], &[0, 1, 34, 0, 34, 33]);
    // second cell of the first row: one cell on, 33 vertex numbers further
    assert_eq!(&full[6..12], &[33, 34, 67, 33, 67, 66]);
    let coarse = indices(4, 33);
    assert_eq!(&coarse[0..6], &[0, 4, 136, 0, 136, 132]);
    let last = indices(8, 33);
    let (near, far) = (24 + 24 * 33, 32 + 32 * 33);
    assert_eq!(&last[90..96], &[near, 32 + 24 * 33, far, near, far, 24 + 32 * 33]);
    assert_eq!(*full.iter().max().unwrap(), 33 * 33 - 1);
}

#[test]
fn both_triangles_of_a_cell_share_the_near_to_far_diagonal() {
    let side = VERTICES_PER_SIDE;
    for resolution in [1u32, 4, 8].iter() {
        let list = indices(*resolution, side);
        let m = ((side - 1) / resolution) as usize;
        for cell in 0..m * m {
            let (r, c) = ((cell / m) as u32, (cell % m) as u32);
            let near = r * resolution + c * resolution * side;
            let far = near + resolution + resolution * side;
            let t = &list[6 * cell..6 * cell + 6];
            assert!(t[0..3].contains(&near) && t[0..3].contains(&far));
            assert!(t[3..6].contains(&near) && t[3..6].contains(&far));
        }
    }
}

#[test]
fn three_distinct_shared_topologies() {
    let build = |i: (i32, i32)| i;
    let t = Terrain::new(3, (0, 0), &build);
    assert_eq!(t.topology(TerrainLod::Standard), &indices(1, 33));
    assert_eq!(t.topology(TerrainLod::Coarse), &indices(4, 33));
    assert_eq!(t.topology(TerrainLod::VeryCoarse), &indices(8, 33));
    assert_ne!(t.topology(TerrainLod::Standard), t.topology(TerrainLod::Coarse));
    assert_ne!(t.topology(TerrainLod::Coarse), t.topology(TerrainLod::VeryCoarse));
    for k in 0..9 {
        assert_eq!(t.patches()[k].lod, TerrainLod::Standard);
        assert!(std::ptr::eq(t.patch_topology(k), t.topology(TerrainLod::Standard)));
    }
}

#[test]
fn lod_resolutions_and_half_width() {
    assert_eq!(TerrainLod::Standard.resolution(), 1);
    assert_eq!(TerrainLod::Coarse.resolution(), 4);
    assert_eq!(TerrainLod::VeryCoarse.resolution(), 8);
    assert_eq!(half_patches_per_side(1), 0);
    assert_eq!(half_patches_per_side(3), 1);
    assert_eq!(half_patches_per_side(9), 4);
}
