//! Planning how a [`Schematic`] is written into a world.
//!
//! A paste places every non-air cell at `origin + offset + [x, y, z]`, then
//! writes the block entities at their positions. [`paste_plan`] computes
//! those writes; performing them is the caller's part.
use vstd::prelude::*;

use crate::block::{block_view, is_air, names_air};
use crate::schematic::{cell_coords, cell_index, in_bounds, lemma_coords_bound, lemma_coords_of_index, Schematic};

verus! {

/// The world position of the schematic's minimum corner for a paste at `origin`.
pub open spec fn paste_base(s: Schematic, origin: [i32; 3]) -> [int; 3] {
    [
        origin[0] + s.placement()[0],
        origin[1] + s.placement()[1],
        origin[2] + s.placement()[2],
    ]
}

/// Whether `x` is an `i32` value.
pub open spec fn fits_i32(x: int) -> bool {
    i32::MIN <= x <= i32::MAX
}

/// Whether cell `i` is written by a paste: its palette entry is not air.
pub open spec fn written(s: Schematic, i: int) -> bool {
    !names_air(block_view(s.palette_seq()[s.cells()[i] as int]))
}

/// The world position of cell `i` for a paste at `origin`: the base plus the
/// cell's coordinates, each taken as an `i32`.
pub open spec fn cell_position(s: Schematic, origin: [i32; 3], i: int) -> [int; 3] {
    let c = cell_coords(s.dims(), i);
    let base = paste_base(s, origin);
    [base[0] + (c[0] as i32), base[1] + (c[1] as i32), base[2] + (c[2] as i32)]
}

/// Cell `i`'s world position lies inside `i32`.
pub open spec fn cell_fits(s: Schematic, origin: [i32; 3], i: int) -> bool {
    let p = cell_position(s, origin, i);
    fits_i32(p[0]) && fits_i32(p[1]) && fits_i32(p[2])
}

/// The world position of block entity `j` for a paste at `origin`.
pub open spec fn entity_position(s: Schematic, origin: [i32; 3], j: int) -> [int; 3] {
    let p = s.entities()[j].0;
    let base = paste_base(s, origin);
    [base[0] + (p[0] as i32), base[1] + (p[1] as i32), base[2] + (p[2] as i32)]
}

/// Block entity `j`'s world position lies inside `i32`.
pub open spec fn entity_fits(s: Schematic, origin: [i32; 3], j: int) -> bool {
    let p = entity_position(s, origin, j);
    fits_i32(p[0]) && fits_i32(p[1]) && fits_i32(p[2])
}

/// A paste at `origin` keeps inside `i32` its base and every position it
/// writes: those of the non-air cells and of the block entities.
pub open spec fn paste_fits(s: Schematic, origin: [i32; 3]) -> bool {
    let base = paste_base(s, origin);
    &&& fits_i32(base[0]) && fits_i32(base[1]) && fits_i32(base[2])
    &&& forall|i: int| 0 <= i < s.cells().len() && written(s, i) ==> #[trigger] cell_fits(s, origin, i)
    &&& forall|j: int| 0 <= j < s.entities().len() ==> #[trigger] entity_fits(s, origin, j)
}

/// The block writes of a paste, for the first `n` cells in canonical order:
/// each non-air cell's world position and palette index.
pub open spec fn cell_writes(s: Schematic, origin: [i32; 3], n: int) -> Seq<([i32; 3], u32)>
    decreases n,
{
    if n <= 0 {
        Seq::empty()
    } else {
        let rest = cell_writes(s, origin, n - 1);
        if written(s, n - 1) {
            let q = cell_position(s, origin, n - 1);
            rest.push(([q[0] as i32, q[1] as i32, q[2] as i32], s.cells()[n - 1]))
        } else {
            rest
        }
    }
}

/// Every non-air cell is written where its coordinates put it: the cell at
/// `(x, y, z)` (flat index `cell_index(size, x, y, z)`) is written, with its
/// palette index, at `origin + offset + [x, y, z]`, axis by axis.
pub proof fn law_paste_places_cells(s: Schematic, origin: [i32; 3], x: u32, y: u32, z: u32, n: int)
    requires
        in_bounds(s.dims(), x as int, y as int, z as int),
        cell_index(s.dims(), x as int, y as int, z as int) < n <= s.cells().len(),
        written(s, cell_index(s.dims(), x as int, y as int, z as int)),
    ensures
        cell_writes(s, origin, n).contains(
            (
                [
                    (origin[0] + s.placement()[0] + (x as i32)) as i32,
                    (origin[1] + s.placement()[1] + (y as i32)) as i32,
                    (origin[2] + s.placement()[2] + (z as i32)) as i32,
                ],
                s.cells()[cell_index(s.dims(), x as int, y as int, z as int)],
            ),
        ),
    decreases n,
{
    let i = cell_index(s.dims(), x as int, y as int, z as int);
    let rest = cell_writes(s, origin, n - 1);
    if n - 1 == i {
        lemma_coords_of_index(s.dims(), x as int, y as int, z as int);
        let w = cell_writes(s, origin, n);
        assert(w[w.len() - 1] == (
            [
                (origin[0] + s.placement()[0] + (x as i32)) as i32,
                (origin[1] + s.placement()[1] + (y as i32)) as i32,
                (origin[2] + s.placement()[2] + (z as i32)) as i32,
            ],
            s.cells()[i],
        ));
    } else {
        law_paste_places_cells(s, origin, x, y, z, n - 1);
        let e = choose|k: int| 0 <= k < rest.len() && rest[k] == (
            [
                (origin[0] + s.placement()[0] + (x as i32)) as i32,
                (origin[1] + s.placement()[1] + (y as i32)) as i32,
                (origin[2] + s.placement()[2] + (z as i32)) as i32,
            ],
            s.cells()[i],
        );
        assert(cell_writes(s, origin, n)[e] == rest[e]);
    }
}

/// A paste never writes air, so existing terrain survives wherever the
/// schematic is empty: every block write names a palette entry that is not air.
pub proof fn law_paste_skips_air(s: Schematic, origin: [i32; 3], n: int)
    requires
        s.well_formed(),
        0 <= n <= s.cells().len(),
    ensures
        forall|k: int|
            0 <= k < cell_writes(s, origin, n).len() ==> {
                let p = (#[trigger] cell_writes(s, origin, n)[k]).1;
                p < s.palette_seq().len() && !names_air(block_view(s.palette_seq()[p as int]))
            },
    decreases n,
{
    if n > 0 {
        law_paste_skips_air(s, origin, n - 1);
        let rest = cell_writes(s, origin, n - 1);
        let p = s.cells()[n - 1];
        assert(p < s.palette_seq().len());
        assert forall|k: int| 0 <= k < cell_writes(s, origin, n).len() implies {
            let q = (#[trigger] cell_writes(s, origin, n)[k]).1;
            q < s.palette_seq().len() && !names_air(block_view(s.palette_seq()[q as int]))
        } by {
            if k < rest.len() {
                assert(cell_writes(s, origin, n)[k] == rest[k]);
            }
        }
    }
}

/// The writes a paste makes: blocks first, then block entities.
pub struct PastePlan {
    /// Each non-air cell's world position and palette index, in canonical order.
    pub blocks: Vec<([i32; 3], u32)>,
    /// Each block entity's world position, in the schematic's order.
    pub entities: Vec<[i32; 3]>,
}

/// The writes that pasting `schem` with its minimum corner at `origin` makes:
/// every non-air cell at `origin + offset + [x, y, z]`, then every block
/// entity at `origin + offset + pos`.
pub fn paste_plan(schem: &Schematic, origin: [i32; 3]) -> (r: PastePlan)
    requires
        paste_fits(*schem, origin),
    ensures
        r.blocks@ == cell_writes(*schem, origin, schem.cells().len() as int),
        r.entities@.len() == schem.entities().len(),
        forall|j: int|
            0 <= j < r.entities@.len() ==> {
                let q = entity_position(*schem, origin, j);
                #[trigger] r.entities@[j] == [q[0] as i32, q[1] as i32, q[2] as i32]
            },
{
    let offset = schem.offset();
    proof {
        assert(paste_base(*schem, origin)[0] == origin[0] + offset[0]);
        assert(paste_base(*schem, origin)[1] == origin[1] + offset[1]);
        assert(paste_base(*schem, origin)[2] == origin[2] + offset[2]);
    }
    let base: [i32; 3] = [origin[0] + offset[0], origin[1] + offset[1], origin[2] + offset[2]];
    let size = schem.size();
    let cells = schem.cell_indices();
    let palette = schem.palette();
    let n = cells.len();
    let mut blocks: Vec<([i32; 3], u32)> = Vec::new();
    let mut i: usize = 0;
    while i < n
        invariant
            n == schem.cells().len(),
            cells@ == schem.cells(),
            palette@ == schem.palette_seq(),
            size == schem.dims(),
            schem.well_formed(),
            paste_fits(*schem, origin),
            forall|a: int| 0 <= a < 3 ==> base[a] == #[trigger] paste_base(*schem, origin)[a],
            i <= n,
            blocks@ == cell_writes(*schem, origin, i as int),
        decreases n - i,
    {
        let p = cells[i];
        if !is_air(&palette[p as usize]) {
            proof {
                lemma_coords_bound(size, i as int);
                assert(written(*schem, i as int));
                assert(cell_fits(*schem, origin, i as int));
            }
            let layer = size[0] as usize * size[2] as usize;
            let y = i / layer;
            let rem = i % layer;
            let z = rem / size[0] as usize;
            let x = rem % size[0] as usize;
            let ghost c = cell_coords(size, i as int);
            assert(x == c[0] && y == c[1] && z == c[2]);
            let xi: i32 = #[verifier::truncate] (x as i32);
            let yi: i32 = #[verifier::truncate] (y as i32);
            let zi: i32 = #[verifier::truncate] (z as i32);
            assert(xi == c[0] as i32 && yi == c[1] as i32 && zi == c[2] as i32);
            blocks.push(([base[0] + xi, base[1] + yi, base[2] + zi], p));
        }
        i = i + 1;
    }
    let entities = schem.block_entities();
    let mut out: Vec<[i32; 3]> = Vec::new();
    let mut j: usize = 0;
    while j < entities.len()
        invariant
            entities@ == schem.entities(),
            paste_fits(*schem, origin),
            forall|a: int| 0 <= a < 3 ==> base[a] == #[trigger] paste_base(*schem, origin)[a],
            j <= entities@.len(),
            out@.len() == j,
            forall|m: int|
                0 <= m < j ==> {
                    let q = entity_position(*schem, origin, m);
                    #[trigger] out@[m] == [q[0] as i32, q[1] as i32, q[2] as i32]
                },
        decreases entities@.len() - j,
    {
        let p = entities[j].0;
        proof {
            assert(entity_fits(*schem, origin, j as int));
        }
        let px: i32 = #[verifier::truncate] (p[0] as i32);
        let py: i32 = #[verifier::truncate] (p[1] as i32);
        let pz: i32 = #[verifier::truncate] (p[2] as i32);
        out.push([base[0] + px, base[1] + py, base[2] + pz]);
        j = j + 1;
    }
    PastePlan { blocks, entities: out }
}

} // verus!
