use diorama::render::{RenderOpts, MAX_DEPTH};
use diorama::scene::{
    build_world, flatten, M_DIRT, M_FLAME, M_GLASS, M_GLOWSTONE, M_GRASS, M_LAVA, M_LEAVES, M_NETHERRACK,
    M_OBSIDIAN, M_PORTAL, M_STONE, M_WATER, M_WOOD, SEA_LEVEL,
};

fn grid(f: impl Fn(i32, i32) -> i32) -> Vec<i32> {
    let mut v = Vec::new();
    for x in 0..16 {
        for z in 0..16 {
            v.push(f(x, z));
        }
    }
    v
}

#[test]
fn level_diorama() {
    let layout = build_world(&grid(|_, _| 12), &grid(|_, _| 0));
    let w = &layout.world;
    assert_eq!(w.len(), 2109);
    assert_eq!(w.min(), (0, 0, 0));
    assert_eq!(w.max(), (15, 17, 15));
    assert_eq!(layout.cabin_floor, 13);
    assert_eq!(layout.portal_base, 13);
    assert_eq!(layout.torches, vec![(6, 17, 6), (13, 17, 11), (2, 17, 5)]);
    assert_eq!(
        layout.glowstones,
        vec![(5, 0, 5), (10, 0, 4), (8, 0, 12), (12, 0, 9)]
    );
    // the two worlds
    assert_eq!(w.get(0, 7, 0), Some(M_STONE));
    assert_eq!(w.get(0, 0, 0), Some(M_NETHERRACK));
    assert_eq!(w.get(5, 0, 5), Some(M_GLOWSTONE));
    assert_eq!(w.get(5, 6, 5), Some(M_LAVA));
    assert_eq!(w.get(3, 6, 3), Some(M_LAVA));
    assert_eq!(w.get(2, 3, 2), Some(M_NETHERRACK));
    // the cabin
    assert_eq!(w.get(10, 13, 3), Some(M_WOOD));
    assert_eq!(w.get(11, 15, 3), Some(M_GLASS));
    assert_eq!(w.get(12, 15, 3), Some(M_WOOD));
    assert_eq!(w.get(12, 14, 5), None);
    // the overworld portal
    assert_eq!(w.get(1, 13, 2), Some(M_OBSIDIAN));
    assert_eq!(w.get(2, 14, 2), Some(M_PORTAL));
    // a torch and a tree
    assert_eq!(w.get(6, 13, 6), Some(M_OBSIDIAN));
    assert_eq!(w.get(6, 15, 6), Some(M_OBSIDIAN));
    assert_eq!(w.get(6, 16, 6), Some(M_FLAME));
    assert_eq!(w.get(7, 16, 13), Some(M_LEAVES));
    assert_eq!(w.get(6, 16, 12), Some(M_LEAVES));
    assert_eq!(w.get(7, 17, 13), Some(M_LEAVES));
}

#[test]
fn tall_column_under_the_cabin_is_flattened() {
    let heights = grid(|x, z| if (x, z) == (11, 4) { 16 } else { 9 });
    let layout = build_world(&heights, &grid(|_, _| 0));
    let w = &layout.world;
    assert_eq!(w.len(), 1808);
    assert_eq!(w.max(), (15, 16, 15));
    assert_eq!(layout.cabin_floor, 12);
    assert_eq!(layout.portal_base, 12);
    assert_eq!(layout.torches, vec![(6, 14, 6), (13, 14, 11), (2, 14, 5)]);
    // the floor lies on flattened grass, and nothing is left inside
    assert_eq!(w.get(10, 12, 3), Some(M_WOOD));
    assert_eq!(w.get(11, 12, 4), Some(M_WOOD));
    assert_eq!(w.get(11, 11, 4), Some(M_GRASS));
    assert_eq!(w.get(10, 10, 3), Some(M_DIRT));
    for x in 11..14 {
        for z in 4..6 {
            for y in 13..16 {
                assert_eq!(w.get(x, y, z), None);
            }
        }
    }
    assert_eq!(w.get(11, 16, 4), Some(M_WOOD));
    // low ground is flooded up to the sea level
    assert_eq!(w.get(0, 9, 0), Some(M_DIRT));
    assert_eq!(w.get(0, 10, 0), Some(M_WATER));
    assert_eq!(w.get(0, 11, 0), Some(M_WATER));
    assert_eq!(w.get(0, 12, 0), None);
    // a torch post stands in the water; no tree grows on a flooded column
    assert_eq!(w.get(6, 10, 6), Some(M_OBSIDIAN));
    assert_eq!(w.get(6, 11, 6), Some(M_OBSIDIAN));
    assert_eq!(w.get(6, 12, 6), Some(M_OBSIDIAN));
    assert_eq!(w.get(6, 13, 6), Some(M_FLAME));
    assert_eq!(w.get(7, 10, 13), Some(M_WATER));
    // the portal pad is raised to the sea level too
    assert_eq!(w.get(1, 11, 2), Some(M_GRASS));
    assert_eq!(w.get(1, 12, 2), Some(M_OBSIDIAN));
    assert_eq!(w.get(2, 13, 2), Some(M_PORTAL));
}

#[test]
fn varied_diorama() {
    let heights = grid(|x, z| 9 + (x * 7 + z * 3) % 8);
    let relief = grid(|x, z| (x + z) % 3);
    let layout = build_world(&heights, &relief);
    let w = &layout.world;
    assert_eq!(w.len(), 2601);
    assert_eq!(w.min(), (0, 0, 0));
    assert_eq!(w.max(), (15, 21, 15));
    assert_eq!(layout.cabin_floor, 17);
    assert_eq!(layout.portal_base, 12);
    assert_eq!(layout.torches, vec![(6, 18, 6), (13, 18, 11), (2, 19, 5)]);
    assert_eq!(
        layout.glowstones,
        vec![(5, 1, 5), (10, 2, 4), (8, 2, 12), (12, 0, 9)]
    );
    assert_eq!(w.get(2, 2, 0), Some(M_NETHERRACK));
    assert_eq!(w.get(10, 9, 3), Some(M_STONE));
    assert_eq!(w.get(12, 14, 5), Some(M_STONE));
    assert_eq!(w.get(7, 13, 13), None);
    assert_eq!(w.get(0, 9, 0), Some(M_DIRT));
    assert_eq!(w.get(0, 10, 0), Some(M_WATER));
}

#[test]
fn two_worlds_split_by_stone() {
    for (heights, relief) in [
        (grid(|_, _| 9), grid(|_, _| 2)),
        (grid(|x, z| 9 + (x * 7 + z * 3) % 8), grid(|x, z| (x * 5 + z) % 3)),
    ] {
        let layout = build_world(&heights, &relief);
        let w = &layout.world;
        for x in 0..16 {
            for z in 0..16 {
                assert_eq!(w.get(x, 7, z), Some(M_STONE));
                assert!(w.get(x, 0, z).is_some());
                for y in 0..7 {
                    if let Some(m) = w.get(x, y, z) {
                        assert!([M_NETHERRACK, M_LAVA, M_GLOWSTONE, M_OBSIDIAN, M_PORTAL]
                            .contains(&m));
                    }
                }
                for y in 7..24 {
                    if let Some(m) = w.get(x, y, z) {
                        assert!(![M_NETHERRACK, M_LAVA, M_GLOWSTONE].contains(&m));
                    }
                }
            }
        }
    }
}

#[test]
fn cabin_interior_is_empty_and_its_ground_solid() {
    for heights in [
        grid(|_, _| 9),
        grid(|x, z| 9 + (x * 7 + z * 3) % 8),
        grid(|x, z| 16 - (x + z) % 8),
    ] {
        let layout = build_world(&heights, &grid(|_, _| 1));
        let w = &layout.world;
        let b = layout.cabin_floor;
        assert!(b > SEA_LEVEL);
        for x in 10..15 {
            for z in 3..7 {
                for y in 8..b {
                    let m = w.get(x, y, z);
                    assert!(m.is_some() && m != Some(M_WATER));
                }
                assert_eq!(w.get(x, b, z), Some(M_WOOD));
                assert_eq!(w.get(x, b + 4, z), Some(M_WOOD));
                let border = x == 10 || x == 14 || z == 3 || z == 6;
                for y in b + 1..b + 4 {
                    if border {
                        assert!(w.get(x, y, z).is_some());
                    } else {
                        assert_eq!(w.get(x, y, z), None);
                    }
                }
            }
        }
    }
}

#[test]
fn water_fills_up_to_sea_level() {
    let heights = grid(|x, z| 9 + (x + 2 * z) % 8);
    let layout = build_world(&heights, &grid(|_, _| 0));
    let w = &layout.world;
    let torches = [(6, 6), (13, 11), (2, 5)];
    for x in 0..16 {
        for z in 0..16 {
            if (10..15).contains(&x) && (3..7).contains(&z) {
                continue;
            }
            if (1..5).contains(&x) && (1..4).contains(&z) {
                continue;
            }
            let g = heights[(x * 16 + z) as usize];
            for y in 8..=g {
                assert!(w.get(x, y, z).is_some());
            }
            if !torches.contains(&(x, z)) {
                for y in g + 1..=SEA_LEVEL {
                    assert_eq!(w.get(x, y, z), Some(M_WATER));
                }
            }
        }
    }
}

#[test]
fn flatten_levels_cabin_and_portal_footprints() {
    let heights = grid(|x, z| match (x, z) {
        (10, 3) => 13,
        (1, 1) => 10,
        (12, 5) => 16,
        _ => 9,
    });
    let flat = flatten(&heights);
    assert_eq!(flat.len(), 256);
    let at = |x: i32, z: i32| flat[(x * 16 + z) as usize];
    assert_eq!(at(10, 3), 13);
    assert_eq!(at(12, 5), 13);
    assert_eq!(at(11, 4), 13);
    assert_eq!(at(14, 6), 13);
    assert_eq!(at(15, 6), 9);
    assert_eq!(at(10, 7), 9);
    assert_eq!(at(1, 1), 11);
    assert_eq!(at(2, 2), 11);
    assert_eq!(at(4, 3), 11);
    assert_eq!(at(5, 1), 9);
    assert_eq!(at(0, 0), 9);
    assert_eq!(at(5, 5), 9);
}

#[test]
fn default_render_opts() {
    let o = RenderOpts::default();
    assert_eq!(o.samples, 2);
    assert_eq!(o.max_depth, MAX_DEPTH);
    assert_eq!(o.max_depth, 3);
    assert_eq!(o.threads, 4);
}
