//! The diorama's voxel layout, two worlds stacked in a cutaway block:
//!
//! - below, the Nether (`y = 0 ..= 6`): a netherrack floor with relief, a
//!   sea of lava hanging from the ceiling, glowstone set in the floor,
//!   netherrack columns and an obsidian portal;
//! - a stone layer at `y = 7` that separates the two worlds;
//! - above, the overworld: a 16 by 16 terrain whose surface lies between
//!   `y = 9` and `y = 16`, with water up to the sea level `y = 11`, a
//!   wooden cabin with glass windows, a second portal, torches and trees.
//!   The terrain under the cabin and under the portal is flattened first.
//!
//! The two height maps (terrain and Nether relief) come from fractal noise
//! computed outside the library.

use crate::world::{Cell, World};
use vstd::prelude::*;

verus! {

pub const M_GRASS: u8 = 0;

pub const M_DIRT: u8 = 1;

pub const M_STONE: u8 = 2;

pub const M_WOOD: u8 = 3;

pub const M_WATER: u8 = 4;

pub const M_LAVA: u8 = 5;

pub const M_OBSIDIAN: u8 = 6;

pub const M_GLASS: u8 = 7;

pub const M_NETHERRACK: u8 = 8;

pub const M_GLOWSTONE: u8 = 9;

pub const M_PORTAL: u8 = 10;

pub const M_FLAME: u8 = 11;

pub const M_LEAVES: u8 = 12;

/// Columns per side of the diorama.
pub const SIZE: i32 = 16;

/// Water fills the overworld up to this height.
pub const SEA_LEVEL: i32 = 11;

/// The highest layer of the Nether.
pub const NETHER_TOP: i32 = 6;

/// The stone layer between the Nether and the overworld.
pub const DIVIDER: i32 = 7;

/// The lowest and highest overworld terrain surface.
pub const SURFACE_MIN: i32 = 9;

pub const SURFACE_MAX: i32 = 16;

/// The Nether portal stands in the plane `z = 10`, from `x = 3`, on `y = 1`.
pub const NETHER_PORTAL_X: i32 = 3;

pub const NETHER_PORTAL_Y: i32 = 1;

pub const NETHER_PORTAL_Z: i32 = 10;

/// The overworld portal stands in the plane `z = 2`, from `x = 1`.
pub const PORTAL_X: i32 = 1;

pub const PORTAL_Z: i32 = 2;

pub open spec fn in_square(x: int, z: int) -> bool {
    0 <= x < 16 && 0 <= z < 16
}

/// Entry `(x, z)` of a 16 by 16 map stored row by row, `x` major.
pub open spec fn map_at(m: Seq<i32>, x: int, z: int) -> int {
    m[x * 16 + z] as int
}

/// The terrain height map: one surface height per column, from 9 to 16.
pub open spec fn valid_heights(heights: Seq<i32>) -> bool {
    heights.len() == 256 && forall|i: int| 0 <= i < 256 ==> SURFACE_MIN <= #[trigger] heights[i] <= SURFACE_MAX
}

/// The Nether relief: how high the netherrack floor rises in each column,
/// from 0 to 2.
pub open spec fn valid_relief(relief: Seq<i32>) -> bool {
    relief.len() == 256 && forall|i: int| 0 <= i < 256 ==> 0 <= #[trigger] relief[i] <= 2
}

/// The cells `x0 <= x < x1`, `y0 <= y < y1`, `z0 <= z < z1`, all holding
/// `mat`.
pub open spec fn box_map(x0: int, x1: int, y0: int, y1: int, z0: int, z1: int, mat: u8) -> Map<
    Cell,
    u8,
> {
    Map::new(
        |c: Cell| x0 <= c.0 < x1 && y0 <= c.1 < y1 && z0 <= c.2 < z1,
        |c: Cell| mat,
    )
}

// ---------------------------------------------------------------------------
// The Nether
// ---------------------------------------------------------------------------

/// The netherrack floor: layer 0 everywhere, raised by the relief.
pub open spec fn nether_floor(relief: Seq<i32>) -> Map<Cell, u8> {
    Map::new(
        |c: Cell| in_square(c.0 as int, c.2 as int) && 0 <= c.1 <= map_at(relief, c.0 as int, c.2 as int),
        |c: Cell| M_NETHERRACK,
    )
}

/// The lava sea hanging from the ceiling over the back half (`z < 8`).
pub open spec fn lava_sea() -> Map<Cell, u8> {
    box_map(0, 16, 6, 7, 0, 8, M_LAVA)
}

pub open spec fn is_pillar(x: int, z: int) -> bool {
    (x == 2 && z == 2) || (x == 13 && z == 2) || (x == 13 && z == 13)
}

/// Netherrack columns from the floor to the ceiling.
pub open spec fn pillars() -> Map<Cell, u8> {
    Map::new(|c: Cell| is_pillar(c.0 as int, c.2 as int) && 1 <= c.1 <= 6, |c: Cell| M_NETHERRACK)
}

pub open spec fn is_glow(x: int, z: int) -> bool {
    (x == 5 && z == 5) || (x == 10 && z == 4) || (x == 8 && z == 12) || (x == 12 && z == 9)
}

/// Glowstone set in the top block of the floor of four columns.
pub open spec fn glowstones(relief: Seq<i32>) -> Map<Cell, u8> {
    Map::new(
        |c: Cell| is_glow(c.0 as int, c.2 as int) && c.1 == map_at(relief, c.0 as int, c.2 as int),
        |c: Cell| M_GLOWSTONE,
    )
}

/// A portal in the plane `z`: a 4 wide, 5 high obsidian frame whose lower
/// left corner is `(x0, y0)`, filled with portal blocks.
pub open spec fn portal_frame(x0: int, y0: int, z: int) -> Map<Cell, u8> {
    Map::new(
        |c: Cell| c.2 == z && x0 <= c.0 <= x0 + 3 && y0 <= c.1 <= y0 + 4,
        |c: Cell|
            if c.0 == x0 || c.0 == x0 + 3 || c.1 == y0 || c.1 == y0 + 4 {
                M_OBSIDIAN
            } else {
                M_PORTAL
            },
    )
}

/// The Nether.
pub open spec fn nether(relief: Seq<i32>) -> Map<Cell, u8> {
    nether_floor(relief).union_prefer_right(lava_sea()).union_prefer_right(pillars()).union_prefer_right(
        glowstones(relief),
    ).union_prefer_right(portal_frame(NETHER_PORTAL_X as int, NETHER_PORTAL_Y as int, NETHER_PORTAL_Z as int))
}

// ---------------------------------------------------------------------------
// The overworld
// ---------------------------------------------------------------------------

/// The stone layer between the two worlds.
pub open spec fn divider() -> Map<Cell, u8> {
    box_map(0, 16, 7, 8, 0, 16, M_STONE)
}

/// The cabin's footprint: the 5 by 4 columns from `(10, 3)`.
pub open spec fn in_cabin(x: int, z: int) -> bool {
    10 <= x < 15 && 3 <= z < 7
}

/// The pad the overworld portal stands on: the 4 by 3 columns from `(1, 1)`.
pub open spec fn in_pad(x: int, z: int) -> bool {
    1 <= x < 5 && 1 <= z < 4
}

pub open spec fn at_least_sea(h: int) -> int {
    if h >= SEA_LEVEL {
        h
    } else {
        SEA_LEVEL as int
    }
}

/// The flattened ground under the cabin: its corner column's height, raised
/// to the sea level.
pub open spec fn cabin_ground(heights: Seq<i32>) -> int {
    at_least_sea(map_at(heights, 10, 3))
}

/// The flattened ground under the portal: its corner column's height,
/// raised to the sea level.
pub open spec fn pad_ground(heights: Seq<i32>) -> int {
    at_least_sea(map_at(heights, 1, 1))
}

/// The height of the cabin's wooden floor.
pub open spec fn cabin_floor(heights: Seq<i32>) -> int {
    cabin_ground(heights) + 1
}

/// The terrain surface of column `(x, z)` once the footprints of the cabin
/// and the portal are flattened.
pub open spec fn ground(heights: Seq<i32>, x: int, z: int) -> int {
    if in_cabin(x, z) {
        cabin_ground(heights)
    } else if in_pad(x, z) {
        pad_ground(heights)
    } else {
        map_at(heights, x, z)
    }
}

/// Whether an overworld column with surface `g` has a block at height `y`:
/// ground from just above the stone layer up to `g`, then water up to the
/// sea level.
pub open spec fn column_has(g: int, y: int) -> bool {
    (DIVIDER < y <= g) || (g < y <= SEA_LEVEL)
}

/// The block at height `y` of a column with surface `g`: the top is grass
/// at or above the sea level and dirt below it, one layer of dirt lies
/// under the top, stone lies deeper, and water stands above the top.
pub open spec fn column_material(g: int, y: int) -> u8 {
    if y > g {
        M_WATER
    } else if y == g {
        if g >= SEA_LEVEL {
            M_GRASS
        } else {
            M_DIRT
        }
    } else if y >= g - 1 {
        M_DIRT
    } else {
        M_STONE
    }
}

/// The overworld terrain over the flattened height map.
pub open spec fn terrain(heights: Seq<i32>) -> Map<Cell, u8> {
    Map::new(
        |c: Cell|
            in_square(c.0 as int, c.2 as int) && column_has(ground(heights, c.0 as int, c.2 as int), c.1 as int),
        |c: Cell| column_material(ground(heights, c.0 as int, c.2 as int), c.1 as int),
    )
}

pub open spec fn in_cabin_cell(c: Cell) -> bool {
    in_cabin(c.0 as int, c.2 as int)
}

/// The outer ring of the footprint, where the walls stand.
pub open spec fn on_cabin_border(c: Cell) -> bool {
    c.0 == 10 || c.0 == 14 || c.2 == 3 || c.2 == 6
}

/// Wall cells of the window row alternate between glass and wood.
pub open spec fn is_window(c: Cell) -> bool {
    (c.0 + c.2) % 2 == 0
}

/// Walls three blocks high around the border of the footprint, with windows
/// in the middle row, and a wooden roof over the whole footprint.
pub open spec fn shell(base: int) -> Map<Cell, u8> {
    Map::new(
        |c: Cell| in_cabin_cell(c) && ((on_cabin_border(c) && base < c.1 < base + 4) || c.1 == base + 4),
        |c: Cell|
            if c.1 == base + 2 && is_window(c) {
                M_GLASS
            } else {
                M_WOOD
            },
    )
}

/// The cabin: a wooden floor on the flattened ground, then the shell.
pub open spec fn cabin(heights: Seq<i32>) -> Map<Cell, u8> {
    let base = cabin_floor(heights);
    box_map(10, 15, base, base + 1, 3, 7, M_WOOD).union_prefer_right(shell(base))
}

/// The overworld portal, standing on its flattened pad.
pub open spec fn overworld_portal(heights: Seq<i32>) -> Map<Cell, u8> {
    portal_frame(PORTAL_X as int, pad_ground(heights) + 1, PORTAL_Z as int)
}

pub open spec fn is_torch(x: int, z: int) -> bool {
    (x == 6 && z == 6) || (x == 13 && z == 11) || (x == 2 && z == 5)
}

/// A torch on column `(x, z)`: three blocks of obsidian post on the surface
/// and a flame on top.
pub open spec fn torch(heights: Seq<i32>, x: int, z: int) -> Map<Cell, u8> {
    let t = ground(heights, x, z);
    Map::new(
        |c: Cell| c.0 == x && c.2 == z && t + 1 <= c.1 <= t + 4,
        |c: Cell|
            if c.1 == t + 4 {
                M_FLAME
            } else {
                M_OBSIDIAN
            },
    )
}

/// The torches at `(6, 6)`, `(13, 11)` and `(2, 5)`.
pub open spec fn torches(heights: Seq<i32>) -> Map<Cell, u8> {
    torch(heights, 6, 6).union_prefer_right(torch(heights, 13, 11)).union_prefer_right(
        torch(heights, 2, 5),
    )
}

/// A tree on column `(x, z)` when its surface is grass (at or above the sea
/// level): a trunk three blocks high, a 3 by 3 crown of leaves on it and one
/// more leaf block on top. No tree grows on a flooded column.
pub open spec fn tree(heights: Seq<i32>, x: int, z: int) -> Map<Cell, u8> {
    let t = ground(heights, x, z);
    if t >= SEA_LEVEL {
        Map::new(
            |c: Cell|
                (c.0 == x && c.2 == z && t + 1 <= c.1 <= t + 3) || (x - 1 <= c.0 <= x + 1 && z - 1 <= c.2
                    <= z + 1 && c.1 == t + 4) || (c.0 == x && c.2 == z && c.1 == t + 5),
            |c: Cell|
                if c.1 <= t + 3 {
                    M_WOOD
                } else {
                    M_LEAVES
                },
        )
    } else {
        Map::empty()
    }
}

/// The trees at `(7, 13)`, `(12, 14)` and `(5, 9)`.
pub open spec fn trees(heights: Seq<i32>) -> Map<Cell, u8> {
    tree(heights, 7, 13).union_prefer_right(tree(heights, 12, 14)).union_prefer_right(
        tree(heights, 5, 9),
    )
}

/// The whole diorama: the Nether, the stone layer, the overworld terrain,
/// the cabin, the portal, the torches and the trees, each laid over what
/// came before.
pub open spec fn scene_cells(heights: Seq<i32>, relief: Seq<i32>) -> Map<Cell, u8> {
    nether(relief).union_prefer_right(divider()).union_prefer_right(terrain(heights)).union_prefer_right(
        cabin(heights),
    ).union_prefer_right(overworld_portal(heights)).union_prefer_right(torches(heights)).union_prefer_right(
        trees(heights),
    )
}

// ---------------------------------------------------------------------------
// Building
// ---------------------------------------------------------------------------

/// Sets every cell `(x, y, z)` with `x0 <= x < x1`, `z0 <= z < z1` to `mat`.
fn fill_layer(world: &mut World, x0: i32, x1: i32, z0: i32, z1: i32, y: i32, mat: u8)
    requires
        old(world).wf(),
        x0 <= x1,
        z0 <= z1,
    ensures
        final(world).wf(),
        final(world)@ == old(world)@.union_prefer_right(
            Map::new(|c: Cell| x0 <= c.0 < x1 && z0 <= c.2 < z1 && c.1 == y, |c: Cell| mat),
        ),
{
    let ghost start = world@;
    let mut x = x0;
    while x < x1
        invariant
            world.wf(),
            x0 <= x <= x1,
            z0 <= z1,
            world@ == start.union_prefer_right(
                Map::new(|c: Cell| x0 <= c.0 < x && z0 <= c.2 < z1 && c.1 == y, |c: Cell| mat),
            ),
        decreases x1 - x,
    {
        let mut z = z0;
        while z < z1
            invariant
                world.wf(),
                x0 <= x < x1,
                z0 <= z <= z1,
                world@ == start.union_prefer_right(
                    Map::new(
                        |c: Cell|
                            ((x0 <= c.0 < x && z0 <= c.2 < z1) || (c.0 == x && z0 <= c.2 < z)) && c.1
                                == y,
                        |c: Cell| mat,
                    ),
                ),
            decreases z1 - z,
        {
            world.set(x, y, z, mat);
            z = z + 1;
            proof {
                assert(world@ =~= start.union_prefer_right(
                    Map::new(
                        |c: Cell|
                            ((x0 <= c.0 < x && z0 <= c.2 < z1) || (c.0 == x && z0 <= c.2 < z)) && c.1
                                == y,
                        |c: Cell| mat,
                    ),
                ));
            }
        }
        x = x + 1;
        proof {
            assert(world@ =~= start.union_prefer_right(
                Map::new(|c: Cell| x0 <= c.0 < x && z0 <= c.2 < z1 && c.1 == y, |c: Cell| mat),
            ));
        }
    }
}

/// Sets the cells of column `(x, z)` from height `y0` up to, not including,
/// `y1` to `mat`.
fn fill_post(world: &mut World, x: i32, z: i32, y0: i32, y1: i32, mat: u8)
    requires
        old(world).wf(),
        y0 <= y1,
    ensures
        final(world).wf(),
        final(world)@ == old(world)@.union_prefer_right(
            Map::new(|c: Cell| c.0 == x && c.2 == z && y0 <= c.1 < y1, |c: Cell| mat),
        ),
{
    let ghost start = world@;
    let mut y = y0;
    while y < y1
        invariant
            world.wf(),
            y0 <= y <= y1,
            world@ == start.union_prefer_right(
                Map::new(|c: Cell| c.0 == x && c.2 == z && y0 <= c.1 < y, |c: Cell| mat),
            ),
        decreases y1 - y,
    {
        world.set(x, y, z, mat);
        y = y + 1;
        proof {
            assert(world@ =~= start.union_prefer_right(
                Map::new(|c: Cell| c.0 == x && c.2 == z && y0 <= c.1 < y, |c: Cell| mat),
            ));
        }
    }
}

/// Fills the box `x0 <= x < x1`, `y0 <= y < y1`, `z0 <= z < z1` with `mat`.
fn fill_box(world: &mut World, x0: i32, x1: i32, y0: i32, y1: i32, z0: i32, z1: i32, mat: u8)
    requires
        old(world).wf(),
        x0 <= x1,
        y0 <= y1,
        z0 <= z1,
    ensures
        final(world).wf(),
        final(world)@ == old(world)@.union_prefer_right(
            box_map(x0 as int, x1 as int, y0 as int, y1 as int, z0 as int, z1 as int, mat),
        ),
{
    let ghost start = world@;
    let mut y = y0;
    while y < y1
        invariant
            world.wf(),
            y0 <= y <= y1,
            x0 <= x1,
            z0 <= z1,
            world@ == start.union_prefer_right(
                box_map(x0 as int, x1 as int, y0 as int, y as int, z0 as int, z1 as int, mat),
            ),
        decreases y1 - y,
    {
        fill_layer(world, x0, x1, z0, z1, y, mat);
        y = y + 1;
        proof {
            assert(world@ =~= start.union_prefer_right(
                box_map(x0 as int, x1 as int, y0 as int, y as int, z0 as int, z1 as int, mat),
            ));
        }
    }
}

/// Raises a portal: the obsidian frame, then the portal blocks inside it.
fn build_portal(world: &mut World, x0: i32, y0: i32, z: i32)
    requires
        old(world).wf(),
        0 <= x0 < 100,
        0 <= y0 < 100,
        0 <= z < 100,
    ensures
        final(world).wf(),
        final(world)@ == old(world)@.union_prefer_right(portal_frame(x0 as int, y0 as int, z as int)),
{
    let ghost start = world@;
    fill_box(world, x0, x0 + 4, y0, y0 + 5, z, z + 1, M_OBSIDIAN);
    fill_box(world, x0 + 1, x0 + 3, y0 + 1, y0 + 4, z, z + 1, M_PORTAL);
    proof {
        assert(world@ =~= start.union_prefer_right(portal_frame(x0 as int, y0 as int, z as int)));
    }
}

/// The terrain surface of column `(x, z)` after flattening.
fn ground_at(heights: &Vec<i32>, x: i32, z: i32) -> (g: i32)
    requires
        valid_heights(heights@),
        in_square(x as int, z as int),
    ensures
        g == ground(heights@, x as int, z as int),
        SURFACE_MIN <= g <= SURFACE_MAX,
{
    let h = if 10 <= x && x < 15 && 3 <= z && z < 7 {
        heights[10 * 16 + 3]
    } else if 1 <= x && x < 5 && 1 <= z && z < 4 {
        heights[1 * 16 + 1]
    } else {
        heights[(x * 16 + z) as usize]
    };
    assert(SURFACE_MIN <= heights@[x * 16 + z] <= SURFACE_MAX);
    assert(SURFACE_MIN <= heights@[163int] <= SURFACE_MAX);
    assert(SURFACE_MIN <= heights@[17int] <= SURFACE_MAX);
    if (10 <= x && x < 15 && 3 <= z && z < 7) || (1 <= x && x < 5 && 1 <= z && z < 4) {
        if h >= SEA_LEVEL {
            h
        } else {
            SEA_LEVEL
        }
    } else {
        h
    }
}

/// Lays down overworld column `(x, z)` with surface `g`.
fn fill_column(world: &mut World, x: i32, z: i32, g: i32)
    requires
        old(world).wf(),
        SURFACE_MIN <= g <= SURFACE_MAX,
    ensures
        final(world).wf(),
        final(world)@ == old(world)@.union_prefer_right(
            Map::new(
                |c: Cell| c.0 == x && c.2 == z && column_has(g as int, c.1 as int),
                |c: Cell| column_material(g as int, c.1 as int),
            ),
        ),
{
    let ghost start = world@;
    let top = if g >= SEA_LEVEL {
        g
    } else {
        SEA_LEVEL
    };
    let mut y: i32 = DIVIDER + 1;
    while y <= top
        invariant
            world.wf(),
            DIVIDER + 1 <= y <= top + 1,
            top == (if g >= SEA_LEVEL {
                g
            } else {
                SEA_LEVEL
            }),
            SURFACE_MIN <= g <= SURFACE_MAX,
            world@ == start.union_prefer_right(
                Map::new(
                    |c: Cell| c.0 == x && c.2 == z && column_has(g as int, c.1 as int) && c.1 < y,
                    |c: Cell| column_material(g as int, c.1 as int),
                ),
            ),
        decreases top + 1 - y,
    {
        let mat = if y > g {
            M_WATER
        } else if y == g {
            if g >= SEA_LEVEL {
                M_GRASS
            } else {
                M_DIRT
            }
        } else if y >= g - 1 {
            M_DIRT
        } else {
            M_STONE
        };
        world.set(x, y, z, mat);
        y = y + 1;
        proof {
            assert(world@ =~= start.union_prefer_right(
                Map::new(
                    |c: Cell| c.0 == x && c.2 == z && column_has(g as int, c.1 as int) && c.1 < y,
                    |c: Cell| column_material(g as int, c.1 as int),
                ),
            ));
        }
    }
    proof {
        assert(world@ =~= start.union_prefer_right(
            Map::new(
                |c: Cell| c.0 == x && c.2 == z && column_has(g as int, c.1 as int),
                |c: Cell| column_material(g as int, c.1 as int),
            ),
        ));
    }
}

/// A height map whose every column holds the flattened surface `ground`.
pub open spec fn is_flattening(heights: Seq<i32>, flat: Seq<i32>) -> bool {
    flat.len() == 256 && forall|x: int, z: int|
        #![trigger map_at(flat, x, z)]
        in_square(x, z) ==> map_at(flat, x, z) == ground(heights, x, z)
}

/// Flattens the terrain under the cabin's footprint and the portal's pad:
/// every column there takes the height of the footprint's corner column,
/// raised to the sea level; the other columns keep their height.
pub fn flatten(heights: &Vec<i32>) -> (flat: Vec<i32>)
    requires
        valid_heights(heights@),
    ensures
        is_flattening(heights@, flat@),
        valid_heights(flat@),
{
    let mut flat: Vec<i32> = Vec::new();
    let mut x: i32 = 0;
    while x < SIZE
        invariant
            0 <= x <= SIZE,
            valid_heights(heights@),
            flat@.len() == x * 16,
            forall|i: int, k: int|
                #![trigger map_at(flat@, i, k)]
                0 <= i < x && 0 <= k < 16 ==> map_at(flat@, i, k) == ground(heights@, i, k),
            forall|i: int| 0 <= i < flat@.len() ==> SURFACE_MIN <= #[trigger] flat@[i] <= SURFACE_MAX,
        decreases SIZE - x,
    {
        let mut z: i32 = 0;
        while z < SIZE
            invariant
                0 <= x < SIZE,
                0 <= z <= SIZE,
                valid_heights(heights@),
                flat@.len() == x * 16 + z,
                forall|i: int, k: int|
                    #![trigger map_at(flat@, i, k)]
                    (0 <= i < x && 0 <= k < 16) || (i == x && 0 <= k < z) ==> map_at(flat@, i, k)
                        == ground(heights@, i, k),
                forall|i: int| 0 <= i < flat@.len() ==> SURFACE_MIN <= #[trigger] flat@[i] <= SURFACE_MAX,
            decreases SIZE - z,
        {
            let g = ground_at(heights, x, z);
            let ghost prev = flat@;
            flat.push(g);
            proof {
                assert forall|i: int, k: int|
                    (0 <= i < x && 0 <= k < 16) || (i == x && 0 <= k <= z) implies map_at(flat@, i, k)
                    == ground(heights@, i, k) by {
                    if !(i == x && k == z) {
                        assert(map_at(prev, i, k) == ground(heights@, i, k));
                    }
                }
            }
            z = z + 1;
        }
        x = x + 1;
    }
    flat
}

/// Lays the overworld terrain over the whole square, column by column,
/// from the flattened height map.
fn build_terrain(world: &mut World, heights: &Vec<i32>, flat: &Vec<i32>)
    requires
        old(world).wf(),
        valid_heights(heights@),
        is_flattening(heights@, flat@),
    ensures
        final(world).wf(),
        final(world)@ == old(world)@.union_prefer_right(terrain(heights@)),
{
    let ghost start = world@;
    let ghost t = terrain(heights@);
    let mut x: i32 = 0;
    proof {
        assert(world@ =~= start.union_prefer_right(t.restrict(Set::new(|c: Cell| c.0 < 0))));
    }
    while x < SIZE
        invariant
            world.wf(),
            0 <= x <= SIZE,
            valid_heights(heights@),
            is_flattening(heights@, flat@),
            t == terrain(heights@),
            world@ == start.union_prefer_right(t.restrict(Set::new(|c: Cell| c.0 < x))),
        decreases SIZE - x,
    {
        let mut z: i32 = 0;
        proof {
            assert(t.restrict(Set::new(|c: Cell| c.0 < x)) =~= t.restrict(
                Set::new(|c: Cell| c.0 < x || (c.0 == x && c.2 < 0)),
            ));
        }
        while z < SIZE
            invariant
                world.wf(),
                0 <= x < SIZE,
                0 <= z <= SIZE,
                valid_heights(heights@),
                is_flattening(heights@, flat@),
                t == terrain(heights@),
                world@ == start.union_prefer_right(
                    t.restrict(Set::new(|c: Cell| c.0 < x || (c.0 == x && c.2 < z))),
                ),
            decreases SIZE - z,
        {
            let g = flat[(x * 16 + z) as usize];
            proof {
                assert(map_at(flat@, x as int, z as int) == ground(heights@, x as int, z as int));
                lemma_ground_bounds(heights@, x as int, z as int);
            }
            fill_column(world, x, z, g);
            z = z + 1;
            proof {
                assert(world@ =~= start.union_prefer_right(
                    t.restrict(Set::new(|c: Cell| c.0 < x || (c.0 == x && c.2 < z))),
                ));
            }
        }
        x = x + 1;
        proof {
            assert(world@ =~= start.union_prefer_right(t.restrict(Set::new(|c: Cell| c.0 < x))));
        }
    }
    proof {
        assert(t.restrict(Set::new(|c: Cell| c.0 < x)) =~= t);
    }
}

/// Lays the netherrack floor over the whole square, column by column.
fn build_nether_floor(world: &mut World, relief: &Vec<i32>)
    requires
        old(world).wf(),
        valid_relief(relief@),
    ensures
        final(world).wf(),
        final(world)@ == old(world)@.union_prefer_right(nether_floor(relief@)),
{
    let ghost start = world@;
    let ghost t = nether_floor(relief@);
    let mut x: i32 = 0;
    proof {
        assert(world@ =~= start.union_prefer_right(t.restrict(Set::new(|c: Cell| c.0 < 0))));
    }
    while x < SIZE
        invariant
            world.wf(),
            0 <= x <= SIZE,
            valid_relief(relief@),
            t == nether_floor(relief@),
            world@ == start.union_prefer_right(t.restrict(Set::new(|c: Cell| c.0 < x))),
        decreases SIZE - x,
    {
        let mut z: i32 = 0;
        proof {
            assert(t.restrict(Set::new(|c: Cell| c.0 < x)) =~= t.restrict(
                Set::new(|c: Cell| c.0 < x || (c.0 == x && c.2 < 0)),
            ));
        }
        while z < SIZE
            invariant
                world.wf(),
                0 <= x < SIZE,
                0 <= z <= SIZE,
                valid_relief(relief@),
                t == nether_floor(relief@),
                world@ == start.union_prefer_right(
                    t.restrict(Set::new(|c: Cell| c.0 < x || (c.0 == x && c.2 < z))),
                ),
            decreases SIZE - z,
        {
            let r = relief[(x * 16 + z) as usize];
            assert(0 <= relief@[x * 16 + z] <= 2);
            fill_post(world, x, z, 0, r + 1, M_NETHERRACK);
            z = z + 1;
            proof {
                assert(world@ =~= start.union_prefer_right(
                    t.restrict(Set::new(|c: Cell| c.0 < x || (c.0 == x && c.2 < z))),
                ));
            }
        }
        x = x + 1;
        proof {
            assert(world@ =~= start.union_prefer_right(t.restrict(Set::new(|c: Cell| c.0 < x))));
        }
    }
    proof {
        assert(t.restrict(Set::new(|c: Cell| c.0 < x)) =~= t);
    }
}

/// Builds the Nether on an empty world; returns the glowstone cells.
fn build_nether(world: &mut World, relief: &Vec<i32>) -> (glow: Vec<Cell>)
    requires
        old(world).wf(),
        old(world)@ == Map::<Cell, u8>::empty(),
        valid_relief(relief@),
    ensures
        final(world).wf(),
        final(world)@ == nether(relief@),
        glow@ == seq![
            (5i32, map_at(relief@, 5, 5) as i32, 5i32),
            (10i32, map_at(relief@, 10, 4) as i32, 4i32),
            (8i32, map_at(relief@, 8, 12) as i32, 12i32),
            (12i32, map_at(relief@, 12, 9) as i32, 9i32),
        ],
{
    build_nether_floor(world, relief);
    proof {
        assert(world@ =~= nether_floor(relief@));
    }
    fill_box(world, 0, 16, 6, 7, 0, 8, M_LAVA);
    let ghost m1 = world@;
    fill_post(world, 2, 2, 1, 7, M_NETHERRACK);
    fill_post(world, 13, 2, 1, 7, M_NETHERRACK);
    fill_post(world, 13, 13, 1, 7, M_NETHERRACK);
    proof {
        assert(world@ =~= m1.union_prefer_right(pillars()));
    }
    let ghost m2 = world@;
    let mut glow: Vec<Cell> = Vec::new();
    let r = relief[5 * 16 + 5];
    world.set(5, r, 5, M_GLOWSTONE);
    glow.push((5, r, 5));
    let r = relief[10 * 16 + 4];
    world.set(10, r, 4, M_GLOWSTONE);
    glow.push((10, r, 4));
    let r = relief[8 * 16 + 12];
    world.set(8, r, 12, M_GLOWSTONE);
    glow.push((8, r, 12));
    let r = relief[12 * 16 + 9];
    world.set(12, r, 9, M_GLOWSTONE);
    glow.push((12, r, 9));
    proof {
        assert(world@ =~= m2.union_prefer_right(glowstones(relief@)));
    }
    build_portal(world, NETHER_PORTAL_X, NETHER_PORTAL_Y, NETHER_PORTAL_Z);
    proof {
        assert(glow@ =~= seq![
            (5i32, map_at(relief@, 5, 5) as i32, 5i32),
            (10i32, map_at(relief@, 10, 4) as i32, 4i32),
            (8i32, map_at(relief@, 8, 12) as i32, 12i32),
            (12i32, map_at(relief@, 12, 9) as i32, 9i32),
        ]);
    }
    glow
}

/// One layer of the walls, at height `y`.
fn wall_layer(world: &mut World, y: i32, glass: bool)
    requires
        old(world).wf(),
    ensures
        final(world).wf(),
        final(world)@ == old(world)@.union_prefer_right(
            Map::new(
                |c: Cell| in_cabin_cell(c) && on_cabin_border(c) && c.1 == y,
                |c: Cell|
                    if glass && is_window(c) {
                        M_GLASS
                    } else {
                        M_WOOD
                    },
            ),
        ),
{
    let ghost start = world@;
    let mut x: i32 = 10;
    while x < 15
        invariant
            world.wf(),
            10 <= x <= 15,
            world@ == start.union_prefer_right(
                Map::new(
                    |c: Cell| in_cabin_cell(c) && on_cabin_border(c) && c.1 == y && c.0 < x,
                    |c: Cell|
                        if glass && is_window(c) {
                            M_GLASS
                        } else {
                            M_WOOD
                        },
                ),
            ),
        decreases 15 - x,
    {
        let mut z: i32 = 3;
        while z < 7
            invariant
                world.wf(),
                10 <= x < 15,
                3 <= z <= 7,
                world@ == start.union_prefer_right(
                    Map::new(
                        |c: Cell|
                            in_cabin_cell(c) && on_cabin_border(c) && c.1 == y && (c.0 < x || (c.0 == x
                                && c.2 < z)),
                        |c: Cell|
                            if glass && is_window(c) {
                                M_GLASS
                            } else {
                                M_WOOD
                            },
                    ),
                ),
            decreases 7 - z,
        {
            let border = x == 10 || x == 14 || z == 3 || z == 6;
            if border {
                let window = glass && (x + z) % 2 == 0;
                world.set(x, y, z, if window { M_GLASS } else { M_WOOD });
            }
            z = z + 1;
            proof {
                assert(world@ =~= start.union_prefer_right(
                    Map::new(
                        |c: Cell|
                            in_cabin_cell(c) && on_cabin_border(c) && c.1 == y && (c.0 < x || (c.0 == x
                                && c.2 < z)),
                        |c: Cell|
                            if glass && is_window(c) {
                                M_GLASS
                            } else {
                                M_WOOD
                            },
                    ),
                ));
            }
        }
        x = x + 1;
        proof {
            assert(world@ =~= start.union_prefer_right(
                Map::new(
                    |c: Cell| in_cabin_cell(c) && on_cabin_border(c) && c.1 == y && c.0 < x,
                    |c: Cell|
                        if glass && is_window(c) {
                            M_GLASS
                        } else {
                            M_WOOD
                        },
                ),
            ));
        }
    }
}

/// Builds the cabin on its flattened ground; returns the floor height.
fn build_cabin(world: &mut World, heights: &Vec<i32>) -> (base: i32)
    requires
        old(world).wf(),
        valid_heights(heights@),
    ensures
        final(world).wf(),
        final(world)@ == old(world)@.union_prefer_right(cabin(heights@)),
        base == cabin_floor(heights@),
{
    let ghost m0 = world@;
    let g = ground_at(heights, 10, 3);
    let base = g + 1;
    fill_layer(world, 10, 15, 3, 7, base, M_WOOD);
    let ghost m1 = world@;
    wall_layer(world, base + 1, false);
    wall_layer(world, base + 2, true);
    wall_layer(world, base + 3, false);
    fill_layer(world, 10, 15, 3, 7, base + 4, M_WOOD);
    proof {
        let b = base as int;
        assert(m1 =~= m0.union_prefer_right(box_map(10, 15, b, b + 1, 3, 7, M_WOOD)));
        assert(world@ =~= m1.union_prefer_right(shell(b)));
        assert(world@ =~= m0.union_prefer_right(cabin(heights@)));
    }
    base
}

/// Places a torch on column `(x, z)`; returns the cell just above its
/// flame, where its light sits.
fn build_torch(world: &mut World, heights: &Vec<i32>, x: i32, z: i32) -> (light: Cell)
    requires
        old(world).wf(),
        valid_heights(heights@),
        in_square(x as int, z as int),
    ensures
        final(world).wf(),
        final(world)@ == old(world)@.union_prefer_right(torch(heights@, x as int, z as int)),
        light == (x, (ground(heights@, x as int, z as int) + 5) as i32, z),
{
    let ghost m0 = world@;
    let t = ground_at(heights, x, z);
    fill_post(world, x, z, t + 1, t + 4, M_OBSIDIAN);
    world.set(x, t + 4, z, M_FLAME);
    proof {
        assert(world@ =~= m0.union_prefer_right(torch(heights@, x as int, z as int)));
    }
    (x, t + 5, z)
}

/// Grows a tree on column `(x, z)` if its surface is grass.
fn build_tree(world: &mut World, heights: &Vec<i32>, x: i32, z: i32)
    requires
        old(world).wf(),
        valid_heights(heights@),
        1 <= x < 15,
        1 <= z < 15,
    ensures
        final(world).wf(),
        final(world)@ == old(world)@.union_prefer_right(tree(heights@, x as int, z as int)),
{
    let ghost m0 = world@;
    let t = ground_at(heights, x, z);
    if t < SEA_LEVEL {
        assert(world@ =~= m0.union_prefer_right(tree(heights@, x as int, z as int)));
        return;
    }
    fill_post(world, x, z, t + 1, t + 4, M_WOOD);
    fill_layer(world, x - 1, x + 2, z - 1, z + 2, t + 4, M_LEAVES);
    world.set(x, t + 5, z, M_LEAVES);
    proof {
        assert(world@ =~= m0.union_prefer_right(tree(heights@, x as int, z as int)));
    }
}

/// The voxel layout of the diorama and the integer anchors of its lights.
pub struct SceneLayout {
    pub world: World,
    /// Height of the cabin's wooden floor.
    pub cabin_floor: i32,
    /// Height of the bottom row of the overworld portal's frame.
    pub portal_base: i32,
    /// The cell just above each torch flame, in the order the torches are
    /// placed.
    pub torches: Vec<Cell>,
    /// The glowstone blocks of the Nether floor.
    pub glowstones: Vec<Cell>,
}

/// Builds the diorama from the terrain height map `heights` and the Nether
/// relief `relief` (one entry per column of the 16 by 16 square, row by
/// row, `x` major).
pub fn build_world(heights: &Vec<i32>, relief: &Vec<i32>) -> (layout: SceneLayout)
    requires
        valid_heights(heights@),
        valid_relief(relief@),
    ensures
        layout.world.wf(),
        layout.world@ == scene_cells(heights@, relief@),
        layout.cabin_floor == cabin_floor(heights@),
        layout.portal_base == pad_ground(heights@) + 1,
        layout.torches@ == seq![
            (6i32, (ground(heights@, 6, 6) + 5) as i32, 6i32),
            (13i32, (ground(heights@, 13, 11) + 5) as i32, 11i32),
            (2i32, (ground(heights@, 2, 5) + 5) as i32, 5i32),
        ],
        layout.glowstones@ == seq![
            (5i32, map_at(relief@, 5, 5) as i32, 5i32),
            (10i32, map_at(relief@, 10, 4) as i32, 4i32),
            (8i32, map_at(relief@, 8, 12) as i32, 12i32),
            (12i32, map_at(relief@, 12, 9) as i32, 9i32),
        ],
{
    let mut world = World::new();
    let glowstones = build_nether(&mut world, relief);
    fill_box(&mut world, 0, 16, DIVIDER, DIVIDER + 1, 0, 16, M_STONE);
    let flat = flatten(heights);
    build_terrain(&mut world, heights, &flat);
    let cabin_floor = build_cabin(&mut world, heights);
    let pg = ground_at(heights, PORTAL_X, 1);
    let portal_base = pg + 1;
    build_portal(&mut world, PORTAL_X, portal_base, PORTAL_Z);
    let ghost before_torches = world@;
    let mut lights: Vec<Cell> = Vec::new();
    let a = build_torch(&mut world, heights, 6, 6);
    lights.push(a);
    let b = build_torch(&mut world, heights, 13, 11);
    lights.push(b);
    let c = build_torch(&mut world, heights, 2, 5);
    lights.push(c);
    proof {
        assert(world@ =~= before_torches.union_prefer_right(torches(heights@)));
    }
    let ghost before_trees = world@;
    build_tree(&mut world, heights, 7, 13);
    build_tree(&mut world, heights, 12, 14);
    build_tree(&mut world, heights, 5, 9);
    proof {
        assert(world@ =~= before_trees.union_prefer_right(trees(heights@)));
        assert(lights@ =~= seq![
            (6i32, (ground(heights@, 6, 6) + 5) as i32, 6i32),
            (13i32, (ground(heights@, 13, 11) + 5) as i32, 11i32),
            (2i32, (ground(heights@, 2, 5) + 5) as i32, 5i32),
        ]);
    }
    SceneLayout { world, cabin_floor, portal_base, torches: lights, glowstones }
}


// ---------------------------------------------------------------------------
// What the layout guarantees
// ---------------------------------------------------------------------------

/// The blocks the Nether is made of.
pub open spec fn is_nether_material(m: u8) -> bool {
    m == M_NETHERRACK || m == M_LAVA || m == M_GLOWSTONE || m == M_OBSIDIAN || m == M_PORTAL
}

/// The columns a tree's crown may reach.
pub open spec fn under_crown(x: int, z: int) -> bool {
    (6 <= x <= 8 && 12 <= z <= 14) || (11 <= x <= 13 && 13 <= z <= 15) || (4 <= x <= 6 && 8 <= z <= 10)
}

proof fn lemma_ground_bounds(heights: Seq<i32>, x: int, z: int)
    requires
        valid_heights(heights),
        in_square(x, z),
    ensures
        SURFACE_MIN <= ground(heights, x, z) <= SURFACE_MAX,
        SEA_LEVEL <= cabin_ground(heights) <= SURFACE_MAX,
        SEA_LEVEL <= pad_ground(heights) <= SURFACE_MAX,
{
    assert(SURFACE_MIN <= heights[x * 16 + z] <= SURFACE_MAX);
    assert(SURFACE_MIN <= heights[163int] <= SURFACE_MAX);
    assert(SURFACE_MIN <= heights[17int] <= SURFACE_MAX);
}

/// Where each part of the diorama lies and what it is made of.
proof fn lemma_parts(heights: Seq<i32>, relief: Seq<i32>, c: Cell)
    requires
        valid_heights(heights),
        valid_relief(relief),
    ensures
        nether(relief).contains_key(c) ==> in_square(c.0 as int, c.2 as int) && 0 <= c.1 <= NETHER_TOP
            && is_nether_material(nether(relief)[c]),
        divider().contains_key(c) ==> c.1 == DIVIDER,
        terrain(heights).contains_key(c) ==> DIVIDER < c.1 <= SURFACE_MAX,
        cabin(heights).contains_key(c) ==> in_cabin(c.0 as int, c.2 as int) && cabin_floor(heights) <= c.1
            <= cabin_floor(heights) + 4,
        overworld_portal(heights).contains_key(c) ==> c.2 == PORTAL_Z && PORTAL_X <= c.0 <= PORTAL_X + 3
            && pad_ground(heights) < c.1 <= pad_ground(heights) + 5,
        torches(heights).contains_key(c) ==> is_torch(c.0 as int, c.2 as int) && ground(
            heights,
            c.0 as int,
            c.2 as int,
        ) < c.1 <= ground(heights, c.0 as int, c.2 as int) + 4,
        trees(heights).contains_key(c) ==> SEA_LEVEL < c.1 <= SURFACE_MAX + 5 && under_crown(
            c.0 as int,
            c.2 as int,
        ),
{
    let x = c.0 as int;
    let z = c.2 as int;
    if in_square(x, z) {
        lemma_ground_bounds(heights, x, z);
        assert(0 <= relief[x * 16 + z] <= 2);
    }
    lemma_ground_bounds(heights, 0, 0);
    lemma_ground_bounds(heights, 6, 6);
    lemma_ground_bounds(heights, 13, 11);
    lemma_ground_bounds(heights, 2, 5);
    lemma_ground_bounds(heights, 7, 13);
    lemma_ground_bounds(heights, 12, 14);
    lemma_ground_bounds(heights, 5, 9);
}

/// The diorama is two worlds: every column of the square has stone at the
/// divider height `y = 7`, the Nether floor reaches down to `y = 0` in
/// every column, everything at or below `y = 6` is Nether material, and no
/// netherrack, lava or glowstone lies at or above the divider.
pub proof fn lemma_two_worlds(heights: Seq<i32>, relief: Seq<i32>)
    requires
        valid_heights(heights),
        valid_relief(relief),
    ensures
        SEA_LEVEL == 11,
        forall|x: i32, z: i32|
            #![trigger scene_cells(heights, relief)[(x, DIVIDER, z)]]
            in_square(x as int, z as int) ==> scene_cells(heights, relief).contains_key((x, DIVIDER, z))
                && scene_cells(heights, relief)[(x, DIVIDER, z)] == M_STONE,
        forall|x: i32, z: i32|
            in_square(x as int, z as int) ==> #[trigger] scene_cells(heights, relief).contains_key(
                (x, 0i32, z),
            ),
        forall|c: Cell|
            #[trigger] scene_cells(heights, relief).contains_key(c) && c.1 <= NETHER_TOP ==> is_nether_material(
                scene_cells(heights, relief)[c],
            ),
        forall|c: Cell|
            #[trigger] scene_cells(heights, relief).contains_key(c) && c.1 >= DIVIDER ==> {
                let m = scene_cells(heights, relief)[c];
                m != M_NETHERRACK && m != M_LAVA && m != M_GLOWSTONE
            },
{
    let s = scene_cells(heights, relief);
    assert forall|x: i32, z: i32| in_square(x as int, z as int) implies s.contains_key((x, DIVIDER, z))
        && s[(x, DIVIDER, z)] == M_STONE by {
        lemma_parts(heights, relief, (x, DIVIDER, z));
    }
    assert forall|x: i32, z: i32| in_square(x as int, z as int) implies s.contains_key((x, 0i32, z)) by {
        assert(0 <= relief[x * 16 + z] <= 2);
        assert(nether_floor(relief).contains_key((x, 0i32, z)));
    }
    assert forall|c: Cell| s.contains_key(c) && c.1 <= NETHER_TOP implies is_nether_material(s[c]) by {
        lemma_parts(heights, relief, c);
    }
    assert forall|c: Cell| s.contains_key(c) && c.1 >= DIVIDER implies {
        let m = s[c];
        m != M_NETHERRACK && m != M_LAVA && m != M_GLOWSTONE
    } by {
        lemma_parts(heights, relief, c);
    }
}


/// The overworld column `(x, z)`: its surface lies between `y = 9` and
/// `y = 16`; it is solid from just above the stone layer up to the surface;
/// unless a torch stands on it, water fills it from the surface up to the
/// sea level; and unless a tree's crown reaches over it, its top block is
/// grass at or above the sea level and dirt below it.
pub proof fn lemma_overworld_column(heights: Seq<i32>, relief: Seq<i32>, x: i32, z: i32)
    requires
        valid_heights(heights),
        valid_relief(relief),
        in_square(x as int, z as int),
    ensures
        SURFACE_MIN <= ground(heights, x as int, z as int) <= SURFACE_MAX,
        forall|y: i32|
            #![trigger scene_cells(heights, relief)[(x, y, z)]]
            DIVIDER < y <= ground(heights, x as int, z as int) ==> scene_cells(heights, relief).contains_key(
                (x, y, z),
            ) && scene_cells(heights, relief)[(x, y, z)] != M_WATER,
        forall|y: i32|
            #![trigger scene_cells(heights, relief)[(x, y, z)]]
            ground(heights, x as int, z as int) < y <= SEA_LEVEL && !is_torch(x as int, z as int)
                ==> scene_cells(heights, relief).contains_key((x, y, z)) && scene_cells(heights, relief)[(
                x,
                y,
                z,
            )] == M_WATER,
        !under_crown(x as int, z as int) ==> {
            let g = ground(heights, x as int, z as int);
            scene_cells(heights, relief)[(x, g as i32, z)] == if g >= SEA_LEVEL {
                M_GRASS
            } else {
                M_DIRT
            }
        },
{
    let s = scene_cells(heights, relief);
    let g = ground(heights, x as int, z as int);
    lemma_ground_bounds(heights, x as int, z as int);
    assert forall|y: i32| DIVIDER < y <= g implies s.contains_key((x, y, z)) && s[(x, y, z)] != M_WATER by {
        lemma_parts(heights, relief, (x, y, z));
    }
    assert forall|y: i32| g < y <= SEA_LEVEL && !is_torch(x as int, z as int) implies s.contains_key(
        (x, y, z),
    ) && s[(x, y, z)] == M_WATER by {
        lemma_parts(heights, relief, (x, y, z));
    }
    lemma_parts(heights, relief, (x, g as i32, z));
}

/// The cabin stands on flattened ground: every column of its footprint has
/// the same surface, the wooden floor lies one block above it and is whole,
/// the ground below the floor is solid down to the stone layer, the walls
/// (glass in alternate cells of the middle row) and the roof are whole, and
/// nothing lies inside.
pub proof fn lemma_cabin(heights: Seq<i32>, relief: Seq<i32>)
    requires
        valid_heights(heights),
        valid_relief(relief),
    ensures
        SEA_LEVEL < cabin_floor(heights) <= SURFACE_MAX + 1,
        forall|x: int, z: int| in_cabin(x, z) ==> #[trigger] ground(heights, x, z) + 1 == cabin_floor(heights),
        forall|c: Cell|
            #![trigger scene_cells(heights, relief).contains_key(c)]
            #![trigger scene_cells(heights, relief)[c]]
            in_cabin_cell(c) && (c.1 == cabin_floor(heights) || c.1 == cabin_floor(heights) + 4) ==> scene_cells(
                heights,
                relief,
            ).contains_key(c) && scene_cells(heights, relief)[c] == M_WOOD,
        forall|c: Cell|
            #![trigger scene_cells(heights, relief).contains_key(c)]
            #![trigger scene_cells(heights, relief)[c]]
            in_cabin_cell(c) && on_cabin_border(c) && cabin_floor(heights) < c.1 < cabin_floor(heights) + 4
                ==> scene_cells(heights, relief).contains_key(c) && scene_cells(heights, relief)[c] == if c.1
                == cabin_floor(heights) + 2 && is_window(c) {
                M_GLASS
            } else {
                M_WOOD
            },
        forall|c: Cell|
            #![trigger scene_cells(heights, relief).contains_key(c)]
            #![trigger scene_cells(heights, relief)[c]]
            in_cabin_cell(c) && DIVIDER < c.1 < cabin_floor(heights) ==> scene_cells(heights, relief).contains_key(c)
                && scene_cells(heights, relief)[c] != M_WATER,
        forall|c: Cell|
            in_cabin_cell(c) && !on_cabin_border(c) && cabin_floor(heights) < c.1 < cabin_floor(heights) + 4
                ==> !#[trigger] scene_cells(heights, relief).contains_key(c),
{
    let s = scene_cells(heights, relief);
    let b = cabin_floor(heights);
    lemma_ground_bounds(heights, 10, 3);
    assert forall|c: Cell| in_cabin_cell(c) && (c.1 == b || c.1 == b + 4) implies s.contains_key(c) && s[c]
        == M_WOOD by {
        lemma_parts(heights, relief, c);
    }
    assert forall|c: Cell| in_cabin_cell(c) && on_cabin_border(c) && b < c.1 < b + 4 implies s.contains_key(c)
        && s[c] == if c.1 == b + 2 && is_window(c) {
        M_GLASS
    } else {
        M_WOOD
    } by {
        lemma_parts(heights, relief, c);
    }
    assert forall|c: Cell| in_cabin_cell(c) && DIVIDER < c.1 < b implies s.contains_key(c) && s[c] != M_WATER by {
        lemma_parts(heights, relief, c);
    }
    assert forall|c: Cell| in_cabin_cell(c) && !on_cabin_border(c) && b < c.1 < b + 4 implies !s.contains_key(c) by {
        lemma_parts(heights, relief, c);
    }
}


/// The overworld portal stands on flattened ground: every column of its pad
/// has the same grass-topped surface at or above the sea level, and the
/// frame rises from the block just above it, obsidian on its border and
/// portal blocks inside.
pub proof fn lemma_overworld_portal(heights: Seq<i32>, relief: Seq<i32>)
    requires
        valid_heights(heights),
        valid_relief(relief),
    ensures
        SEA_LEVEL <= pad_ground(heights) <= SURFACE_MAX,
        forall|x: int, z: int| in_pad(x, z) ==> #[trigger] ground(heights, x, z) == pad_ground(heights),
        forall|x: i32|
            #![trigger scene_cells(heights, relief)[(x, pad_ground(heights) as i32, PORTAL_Z)]]
            PORTAL_X <= x <= PORTAL_X + 3 ==> scene_cells(heights, relief)[(
                x,
                pad_ground(heights) as i32,
                PORTAL_Z,
            )] == M_GRASS,
        forall|c: Cell|
            #![trigger scene_cells(heights, relief).contains_key(c)]
            #![trigger scene_cells(heights, relief)[c]]
            c.2 == PORTAL_Z && PORTAL_X <= c.0 <= PORTAL_X + 3 && pad_ground(heights) < c.1 <= pad_ground(
                heights,
            ) + 5 ==> scene_cells(heights, relief).contains_key(c) && scene_cells(heights, relief)[c] == if c.0
                == PORTAL_X || c.0 == PORTAL_X + 3 || c.1 == pad_ground(heights) + 1 || c.1 == pad_ground(
                heights,
            ) + 5 {
                M_OBSIDIAN
            } else {
                M_PORTAL
            },
{
    let s = scene_cells(heights, relief);
    let p = pad_ground(heights);
    lemma_ground_bounds(heights, 1, 1);
    assert forall|x: i32| PORTAL_X <= x <= PORTAL_X + 3 implies #[trigger] s[(x, p as i32, PORTAL_Z)] == M_GRASS by {
        lemma_parts(heights, relief, (x, p as i32, PORTAL_Z));
    }
    assert forall|c: Cell|
        c.2 == PORTAL_Z && PORTAL_X <= c.0 <= PORTAL_X + 3 && p < c.1 <= p + 5 implies s.contains_key(c)
        && s[c] == if c.0 == PORTAL_X || c.0 == PORTAL_X + 3 || c.1 == p + 1 || c.1 == p + 5 {
        M_OBSIDIAN
    } else {
        M_PORTAL
    } by {
        lemma_parts(heights, relief, c);
    }
}


/// Every block of the diorama lies over the 16 by 16 square, between
/// `y = 0` and `y = 21`: tree crowns, torches, the cabin and the portals
/// all stay inside the block.
pub proof fn lemma_scene_in_block(heights: Seq<i32>, relief: Seq<i32>, c: Cell)
    requires
        valid_heights(heights),
        valid_relief(relief),
        scene_cells(heights, relief).contains_key(c),
    ensures
        in_square(c.0 as int, c.2 as int),
        0 <= c.1 <= SURFACE_MAX + 5,
{
    lemma_parts(heights, relief, c);
    lemma_ground_bounds(heights, 10, 3);
}


/// The tree columns.
pub open spec fn is_tree(x: int, z: int) -> bool {
    (x == 7 && z == 13) || (x == 12 && z == 14) || (x == 5 && z == 9)
}

/// Whether cell `c` belongs to the crown of a tree on column `(x, z)`
/// with a grass surface `g`: the 3 by 3 layer at `g + 4` or the top leaf at
/// `g + 5`.
pub open spec fn in_crown_of(heights: Seq<i32>, x: int, z: int, c: Cell) -> bool {
    let g = heights[x * 16 + z];
    g >= SEA_LEVEL && ((c.1 == g + 4 && x - 1 <= c.0 <= x + 1 && z - 1 <= c.2 <= z + 1) || (c.0 == x
        && c.2 == z && c.1 == g + 5))
}

/// Leaves lie only in tree crowns.
pub proof fn lemma_leaves_only_in_crowns(heights: Seq<i32>, relief: Seq<i32>, c: Cell)
    requires
        valid_heights(heights),
        valid_relief(relief),
        scene_cells(heights, relief).contains_key(c),
        scene_cells(heights, relief)[c] == M_LEAVES,
    ensures
        in_crown_of(heights, 7, 13, c) || in_crown_of(heights, 12, 14, c) || in_crown_of(heights, 5, 9, c),
{
    lemma_parts(heights, relief, c);
}

/// Trees grow exactly on the tree columns whose surface is grass, that is
/// at or above the sea level: there the built world holds a wooden trunk in
/// the three cells above the surface `g`, leaves in the 3 by 3 layer at
/// `g + 4` and one leaf at `g + 5`. On a flooded tree column nothing lies
/// above the water.
pub proof fn lemma_trees(heights: Seq<i32>, relief: Seq<i32>)
    requires
        valid_heights(heights),
        valid_relief(relief),
    ensures
        forall|x: i32, z: i32, y: i32|
            #![trigger scene_cells(heights, relief)[(x, y, z)]]
            is_tree(x as int, z as int) && heights[x * 16 + z] >= SEA_LEVEL && heights[x * 16 + z] < y
                <= heights[x * 16 + z] + 3 ==> scene_cells(heights, relief).contains_key((x, y, z))
                && scene_cells(heights, relief)[(x, y, z)] == M_WOOD,
        forall|x: i32, z: i32, dx: i32, dz: i32|
            #![trigger scene_cells(heights, relief)[(
                (x + dx) as i32,
                (heights[x * 16 + z] + 4) as i32,
                (z + dz) as i32,
            )]]
            is_tree(x as int, z as int) && heights[x * 16 + z] >= SEA_LEVEL && -1 <= dx <= 1 && -1 <= dz
                <= 1 ==> scene_cells(heights, relief).contains_key(
                ((x + dx) as i32, (heights[x * 16 + z] + 4) as i32, (z + dz) as i32),
            ) && scene_cells(heights, relief)[(
                (x + dx) as i32,
                (heights[x * 16 + z] + 4) as i32,
                (z + dz) as i32,
            )] == M_LEAVES,
        forall|x: i32, z: i32|
            #![trigger scene_cells(heights, relief)[(x, (heights[x * 16 + z] + 5) as i32, z)]]
            is_tree(x as int, z as int) && heights[x * 16 + z] >= SEA_LEVEL ==> scene_cells(
                heights,
                relief,
            ).contains_key((x, (heights[x * 16 + z] + 5) as i32, z)) && scene_cells(heights, relief)[(
                x,
                (heights[x * 16 + z] + 5) as i32,
                z,
            )] == M_LEAVES,
        forall|x: i32, z: i32, y: i32|
            #![trigger scene_cells(heights, relief).contains_key((x, y, z))]
            is_tree(x as int, z as int) && heights[x * 16 + z] < SEA_LEVEL && y > SEA_LEVEL
                ==> !scene_cells(heights, relief).contains_key((x, y, z)),
{
    let s = scene_cells(heights, relief);
    assert forall|x: i32, z: i32, y: i32|
        is_tree(x as int, z as int) && heights[x * 16 + z] >= SEA_LEVEL && heights[x * 16 + z] < y
            <= heights[x * 16 + z] + 3 implies s.contains_key((x, y, z)) && s[(x, y, z)] == M_WOOD by {
        lemma_parts(heights, relief, (x, y, z));
    }
    assert forall|x: i32, z: i32, dx: i32, dz: i32|
        is_tree(x as int, z as int) && heights[x * 16 + z] >= SEA_LEVEL && -1 <= dx <= 1 && -1 <= dz
            <= 1 implies s.contains_key(((x + dx) as i32, (heights[x * 16 + z] + 4) as i32, (z + dz) as i32))
        && #[trigger] s[((x + dx) as i32, (heights[x * 16 + z] + 4) as i32, (z + dz) as i32)] == M_LEAVES by {
        lemma_parts(heights, relief, ((x + dx) as i32, (heights[x * 16 + z] + 4) as i32, (z + dz) as i32));
    }
    assert forall|x: i32, z: i32|
        is_tree(x as int, z as int) && heights[x * 16 + z] >= SEA_LEVEL implies s.contains_key(
        (x, (heights[x * 16 + z] + 5) as i32, z),
    ) && #[trigger] s[(x, (heights[x * 16 + z] + 5) as i32, z)] == M_LEAVES by {
        lemma_parts(heights, relief, (x, (heights[x * 16 + z] + 5) as i32, z));
    }
    assert forall|x: i32, z: i32, y: i32|
        is_tree(x as int, z as int) && heights[x * 16 + z] < SEA_LEVEL && y > SEA_LEVEL implies !s.contains_key(
        (x, y, z),
    ) by {
        lemma_parts(heights, relief, (x, y, z));
    }
}

/// The Nether floor follows the relief: column `(x, z)` holds blocks from
/// `y = 0` up to exactly `relief[x * 16 + z]`, nothing lies just above it
/// (away from the columns and the Nether portal), its top block is
/// glowstone on the glowstone columns and netherrack elsewhere, and the
/// blocks below the top are netherrack (away from the portal).
pub proof fn lemma_nether_floor(heights: Seq<i32>, relief: Seq<i32>)
    requires
        valid_heights(heights),
        valid_relief(relief),
    ensures
        forall|x: i32, z: i32, y: i32|
            #![trigger scene_cells(heights, relief).contains_key((x, y, z))]
            in_square(x as int, z as int) && 0 <= y <= relief[x * 16 + z] ==> scene_cells(
                heights,
                relief,
            ).contains_key((x, y, z)),
        forall|x: i32, z: i32|
            #![trigger scene_cells(heights, relief).contains_key((x, (relief[x * 16 + z] + 1) as i32, z))]
            in_square(x as int, z as int) && !is_pillar(x as int, z as int) && !(z == NETHER_PORTAL_Z
                && NETHER_PORTAL_X <= x <= NETHER_PORTAL_X + 3) ==> !scene_cells(
                heights,
                relief,
            ).contains_key((x, (relief[x * 16 + z] + 1) as i32, z)),
        forall|x: i32, z: i32, y: i32|
            #![trigger scene_cells(heights, relief)[(x, y, z)]]
            in_square(x as int, z as int) && 0 <= y <= relief[x * 16 + z] && !(z == NETHER_PORTAL_Z
                && NETHER_PORTAL_X <= x <= NETHER_PORTAL_X + 3) ==> scene_cells(heights, relief)[(
                x,
                y,
                z,
            )] == if y == relief[x * 16 + z] && is_glow(x as int, z as int) {
                M_GLOWSTONE
            } else {
                M_NETHERRACK
            },
        forall|x: i32, z: i32|
            #![trigger scene_cells(heights, relief)[(x, relief[x * 16 + z], z)]]
            is_glow(x as int, z as int) ==> scene_cells(heights, relief)[(x, relief[x * 16 + z], z)]
                == M_GLOWSTONE,
{
    let s = scene_cells(heights, relief);
    assert forall|x: i32, z: i32, y: i32|
        in_square(x as int, z as int) && 0 <= y <= relief[x * 16 + z] implies s.contains_key((x, y, z)) by {
        lemma_parts(heights, relief, (x, y, z));
        assert(nether_floor(relief).contains_key((x, y, z)));
    }
    assert forall|x: i32, z: i32|
        in_square(x as int, z as int) && !is_pillar(x as int, z as int) && !(z == NETHER_PORTAL_Z
            && NETHER_PORTAL_X <= x <= NETHER_PORTAL_X + 3) implies !s.contains_key(
        (x, (relief[x * 16 + z] + 1) as i32, z),
    ) by {
        assert(0 <= relief[x * 16 + z] <= 2);
        lemma_parts(heights, relief, (x, (relief[x * 16 + z] + 1) as i32, z));
    }
    assert forall|x: i32, z: i32, y: i32|
        in_square(x as int, z as int) && 0 <= y <= relief[x * 16 + z] && !(z == NETHER_PORTAL_Z
            && NETHER_PORTAL_X <= x <= NETHER_PORTAL_X + 3) implies s[(x, y, z)] == if y == relief[x * 16
        + z] && is_glow(x as int, z as int) {
        M_GLOWSTONE
    } else {
        M_NETHERRACK
    } by {
        assert(0 <= relief[x * 16 + z] <= 2);
        lemma_parts(heights, relief, (x, y, z));
    }
    assert forall|x: i32, z: i32| is_glow(x as int, z as int) implies #[trigger] s[(
        x,
        relief[x * 16 + z],
        z,
    )] == M_GLOWSTONE by {
        assert(0 <= relief[x * 16 + z] <= 2);
        lemma_parts(heights, relief, (x, relief[x * 16 + z], z));
    }
}

} // verus!
