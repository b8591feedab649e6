//! Sparse voxel world: a map from integer cells to material ids, with the
//! axis-aligned bounding box of the occupied cells kept up to date.

use std::collections::HashMap;
use vstd::prelude::*;

verus! {

broadcast use vstd::std_specs::hash::group_hash_axioms;

/// A voxel cell coordinate.
pub type Cell = (i32, i32, i32);

/// Offset that moves an `i32` coordinate into `0 .. 2^32`.
pub open spec fn shifted(v: i32) -> int {
    v as int + 0x8000_0000
}

/// The hash-table key under which a cell is stored: the three shifted
/// coordinates packed as 32-bit digits of a 96-bit number.
pub open spec fn cell_key(c: Cell) -> u128 {
    (shifted(c.0) * 0x1_0000_0000_0000_0000 + shifted(c.1) * 0x1_0000_0000 + shifted(c.2)) as u128
}

/// Two different cells never share a key.
pub proof fn lemma_cell_key_injective(a: Cell, b: Cell)
    ensures
        cell_key(a) == cell_key(b) ==> a == b,
{
    let va = shifted(a.0) * 0x1_0000_0000_0000_0000 + shifted(a.1) * 0x1_0000_0000 + shifted(a.2);
    let vb = shifted(b.0) * 0x1_0000_0000_0000_0000 + shifted(b.1) * 0x1_0000_0000 + shifted(b.2);
    assert(0 <= va < 0x1_0000_0000_0000_0000_0000_0000);
    assert(0 <= vb < 0x1_0000_0000_0000_0000_0000_0000);
    if cell_key(a) == cell_key(b) {
        assert(va == vb);
        assert(shifted(a.2) == shifted(b.2));
        assert(shifted(a.1) == shifted(b.1));
        assert(shifted(a.0) == shifted(b.0));
    }
}

fn key(x: i32, y: i32, z: i32) -> (k: u128)
    ensures
        k == cell_key((x, y, z)),
{
    let a = (x as i64 + 0x8000_0000i64) as u128;
    let b = (y as i64 + 0x8000_0000i64) as u128;
    let c = (z as i64 + 0x8000_0000i64) as u128;
    a * 0x1_0000_0000_0000_0000u128 + b * 0x1_0000_0000u128 + c
}

/// The voxel world. Its view maps each occupied cell to its material id;
/// cells are stored in a hash map under `cell_key`, next to the bounding
/// box of the occupied cells.
pub struct World {
    voxels: HashMap<u128, u8>,
    min: Cell,
    max: Cell,
    cells: Ghost<Map<Cell, u8>>,
}

impl View for World {
    type V = Map<Cell, u8>;

    closed spec fn view(&self) -> Map<Cell, u8> {
        self.cells@
    }
}

/// Every cell of `m` lies in the box from `lo` to `hi`, both corners
/// included.
pub open spec fn encloses(m: Map<Cell, u8>, lo: Cell, hi: Cell) -> bool {
    forall|c: Cell|
        #[trigger] m.contains_key(c) ==> lo.0 <= c.0 <= hi.0 && lo.1 <= c.1 <= hi.1 && lo.2 <= c.2
            <= hi.2
}

/// `lo` and `hi` are the tightest box around the cells of `m`; for no cell
/// they are the sentinels `(i32::MAX, ..)` and `(i32::MIN, ..)`.
pub open spec fn tight_bounds(m: Map<Cell, u8>, lo: Cell, hi: Cell) -> bool {
    if m.dom().is_empty() {
        lo == (i32::MAX, i32::MAX, i32::MAX) && hi == (i32::MIN, i32::MIN, i32::MIN)
    } else {
        &&& encloses(m, lo, hi)
        &&& exists|c: Cell| #[trigger] m.contains_key(c) && c.0 == lo.0
        &&& exists|c: Cell| #[trigger] m.contains_key(c) && c.1 == lo.1
        &&& exists|c: Cell| #[trigger] m.contains_key(c) && c.2 == lo.2
        &&& exists|c: Cell| #[trigger] m.contains_key(c) && c.0 == hi.0
        &&& exists|c: Cell| #[trigger] m.contains_key(c) && c.1 == hi.1
        &&& exists|c: Cell| #[trigger] m.contains_key(c) && c.2 == hi.2
    }
}

pub open spec fn min_i32(a: i32, b: i32) -> i32 {
    if a <= b { a } else { b }
}

pub open spec fn max_i32(a: i32, b: i32) -> i32 {
    if a >= b { a } else { b }
}

/// Inserting a cell grows the tight box exactly by that cell.
proof fn lemma_tight_bounds_insert(m: Map<Cell, u8>, lo: Cell, hi: Cell, c: Cell, mat: u8)
    requires
        tight_bounds(m, lo, hi),
    ensures
        tight_bounds(
            m.insert(c, mat),
            (min_i32(lo.0, c.0), min_i32(lo.1, c.1), min_i32(lo.2, c.2)),
            (max_i32(hi.0, c.0), max_i32(hi.1, c.1), max_i32(hi.2, c.2)),
        ),
{
    let n = m.insert(c, mat);
    let nlo = (min_i32(lo.0, c.0), min_i32(lo.1, c.1), min_i32(lo.2, c.2));
    let nhi = (max_i32(hi.0, c.0), max_i32(hi.1, c.1), max_i32(hi.2, c.2));
    assert(n.contains_key(c));
    assert(!n.dom().is_empty());
    if m.dom().is_empty() {
        assert forall|d: Cell| #[trigger] n.contains_key(d) implies d == c by {
            if d != c {
                assert(m.dom().contains(d));
            }
        }
    } else {
        let w0 = choose|d: Cell| #[trigger] m.contains_key(d) && d.0 == lo.0;
        let w1 = choose|d: Cell| #[trigger] m.contains_key(d) && d.1 == lo.1;
        let w2 = choose|d: Cell| #[trigger] m.contains_key(d) && d.2 == lo.2;
        let w3 = choose|d: Cell| #[trigger] m.contains_key(d) && d.0 == hi.0;
        let w4 = choose|d: Cell| #[trigger] m.contains_key(d) && d.1 == hi.1;
        let w5 = choose|d: Cell| #[trigger] m.contains_key(d) && d.2 == hi.2;
        assert(n.contains_key(w0) && n.contains_key(w1) && n.contains_key(w2));
        assert(n.contains_key(w3) && n.contains_key(w4) && n.contains_key(w5));
        assert forall|d: Cell| #[trigger] n.contains_key(d) implies nlo.0 <= d.0 <= nhi.0 && nlo.1
            <= d.1 <= nhi.1 && nlo.2 <= d.2 <= nhi.2 by {
            if d != c {
                assert(m.contains_key(d));
            }
        }
    }
}

impl World {
    /// Lower corner of the bounding box of the occupied cells.
    pub closed spec fn lower(&self) -> Cell {
        self.min
    }

    /// Upper corner (inclusive) of the bounding box of the occupied cells.
    pub closed spec fn upper(&self) -> Cell {
        self.max
    }

    /// The hash map holds exactly the cells of the view, under their keys,
    /// and the kept box is the tightest one around them.
    pub closed spec fn wf(&self) -> bool {
        &&& forall|c: Cell|
            #![trigger self.cells@.contains_key(c)]
            #![trigger self.voxels@.contains_key(cell_key(c))]
            self.cells@.contains_key(c) <==> self.voxels@.contains_key(cell_key(c))
        &&& forall|c: Cell|
            #[trigger] self.cells@.contains_key(c) ==> self.voxels@[cell_key(c)] == self.cells@[c]
        &&& self.cells@.dom().finite()
        &&& self.voxels@.len() == self.cells@.dom().len()
        &&& tight_bounds(self.cells@, self.min, self.max)
    }

    /// An empty world.
    pub fn new() -> (w: World)
        ensures
            w.wf(),
            w@ == Map::<Cell, u8>::empty(),
            w.lower() == (i32::MAX, i32::MAX, i32::MAX),
            w.upper() == (i32::MIN, i32::MIN, i32::MIN),
    {
        let w = World {
            voxels: HashMap::new(),
            min: (i32::MAX, i32::MAX, i32::MAX),
            max: (i32::MIN, i32::MIN, i32::MIN),
            cells: Ghost(Map::empty()),
        };
        assert(w.cells@.dom() =~= Set::empty());
        w
    }

    /// Puts material `mat` in cell `(x, y, z)`, replacing what was there,
    /// and grows the bounding box to take the cell in.
    pub fn set(&mut self, x: i32, y: i32, z: i32, mat: u8)
        requires
            old(self).wf(),
        ensures
            final(self).wf(),
            final(self)@ == old(self)@.insert((x, y, z), mat),
            final(self).lower() == (
                min_i32(old(self).lower().0, x),
                min_i32(old(self).lower().1, y),
                min_i32(old(self).lower().2, z),
            ),
            final(self).upper() == (
                max_i32(old(self).upper().0, x),
                max_i32(old(self).upper().1, y),
                max_i32(old(self).upper().2, z),
            ),
    {
        let k = key(x, y, z);
        let ghost c: Cell = (x, y, z);
        let ghost old_cells = self.cells@;
        let ghost old_vox = self.voxels@;
        let ghost old_lo = self.min;
        let ghost old_hi = self.max;
        proof {
            assert(old_cells.contains_key(c) <==> old_vox.contains_key(k));
        }
        self.voxels.insert(k, mat);
        self.cells = Ghost(self.cells@.insert(c, mat));
        let lo = (
            if x < self.min.0 { x } else { self.min.0 },
            if y < self.min.1 { y } else { self.min.1 },
            if z < self.min.2 { z } else { self.min.2 },
        );
        let hi = (
            if x > self.max.0 { x } else { self.max.0 },
            if y > self.max.1 { y } else { self.max.1 },
            if z > self.max.2 { z } else { self.max.2 },
        );
        self.min = lo;
        self.max = hi;
        proof {
            assert forall|d: Cell|
                #![trigger self.cells@.contains_key(d)]
                #![trigger self.voxels@.contains_key(cell_key(d))]
                self.cells@.contains_key(d) <==> self.voxels@.contains_key(cell_key(d)) by {
                lemma_cell_key_injective(c, d);
            }
            assert forall|d: Cell| #[trigger]
                self.cells@.contains_key(d) implies self.voxels@[cell_key(d)] == self.cells@[d] by {
                lemma_cell_key_injective(c, d);
            }
            if old_cells.contains_key(c) {
                assert(self.cells@.dom() =~= old_cells.dom());
                assert(self.voxels@.dom() =~= old_vox.dom());
            } else {
                assert(self.cells@.dom() =~= old_cells.dom().insert(c));
                assert(self.voxels@.dom() =~= old_vox.dom().insert(k));
            }
            lemma_tight_bounds_insert(old_cells, old_lo, old_hi, c, mat);
        }
    }

    /// The material in cell `(x, y, z)`, if any.
    pub fn get(&self, x: i32, y: i32, z: i32) -> (r: Option<u8>)
        requires
            self.wf(),
        ensures
            r == (if self@.contains_key((x, y, z)) {
                Some(self@[(x, y, z)])
            } else {
                None
            }),
    {
        let k = key(x, y, z);
        match self.voxels.get(&k) {
            Some(v) => Some(*v),
            None => None,
        }
    }

    /// Number of occupied cells.
    pub fn len(&self) -> (n: usize)
        requires
            self.wf(),
        ensures
            n == self@.len(),
    {
        self.voxels.len()
    }

    /// Lower corner of the bounding box of the occupied cells.
    pub fn min(&self) -> (c: Cell)
        ensures
            c == self.lower(),
    {
        self.min
    }

    /// Upper corner (inclusive) of the bounding box of the occupied cells.
    pub fn max(&self) -> (c: Cell)
        ensures
            c == self.upper(),
    {
        self.max
    }
}

/// The box a well-formed world keeps is the tightest box around its cells:
/// every cell lies in it and every face touches a cell; an empty world
/// keeps the sentinel corners.
pub proof fn lemma_world_bounds(w: &World)
    requires
        w.wf(),
    ensures
        tight_bounds(w@, w.lower(), w.upper()),
        encloses(w@, w.lower(), w.upper()),
        w@.dom().finite(),
{
}

/// Reading a cell after a `set` gives what was written there, and every
/// other cell keeps what it held.
pub proof fn lemma_get_after_set(before: Map<Cell, u8>, c: Cell, mat: u8, d: Cell)
    ensures
        before.insert(c, mat).contains_key(c) && before.insert(c, mat)[c] == mat,
        d != c ==> (before.insert(c, mat).contains_key(d) == before.contains_key(d) && (
        before.contains_key(d) ==> before.insert(c, mat)[d] == before[d])),
{
}

/// `set` adds one to the count of occupied cells when the cell was empty
/// and leaves the count as it was when the cell was occupied.
pub proof fn lemma_len_after_set(before: Map<Cell, u8>, c: Cell, mat: u8)
    requires
        before.dom().finite(),
    ensures
        before.insert(c, mat).len() == if before.contains_key(c) {
            before.len()
        } else {
            before.len() + 1
        },
{
    if before.contains_key(c) {
        assert(before.insert(c, mat).dom() =~= before.dom());
    } else {
        assert(before.insert(c, mat).dom() =~= before.dom().insert(c));
    }
}

} // verus!
