//! Format-agnostic in-memory representation of a schematic.
//!
//! Every format loader converts its native layout into this single canonical
//! structure. Blocks live in a dense, palette-indexed array using one fixed
//! coordinate ordering (`x + z*size_x + y*size_x*size_z`), so consumers never
//! need to know which format the data came from.
use vstd::prelude::*;
use vstd::arithmetic::div_mod::{lemma_fundamental_div_mod, lemma_fundamental_div_mod_converse};

use crate::block::{block_view, BlockSpec, BlockView};
use crate::nbt::Compound;

verus! {

/// The number of cells of a cuboid of the given dimensions.
pub open spec fn volume_of(size: [u32; 3]) -> int {
    size[0] * size[1] * size[2]
}

/// The flat index of a cell, in the order `x + z*size_x + y*size_x*size_z`.
pub open spec fn cell_index(size: [u32; 3], x: int, y: int, z: int) -> int {
    x + z * size[0] + y * size[0] * size[2]
}

/// The coordinate `[x, y, z]` of the cell with flat index `i`.
pub open spec fn cell_coords(size: [u32; 3], i: int) -> [int; 3] {
    let layer = size[0] * size[2];
    [(i % layer) % (size[0] as int), i / layer, (i % layer) / (size[0] as int)]
}

/// Whether `[x, y, z]` lies inside a cuboid of the given dimensions.
pub open spec fn in_bounds(size: [u32; 3], x: int, y: int, z: int) -> bool {
    0 <= x < size[0] && 0 <= y < size[1] && 0 <= z < size[2]
}

/// Entities whose positions are equal and whose compounds are equal in every part.
pub open spec fn same_entities(a: Seq<([u32; 3], Compound)>, b: Seq<([u32; 3], Compound)>) -> bool {
    &&& a.len() == b.len()
    &&& forall|i: int| 0 <= i < a.len() ==> (#[trigger] a[i]).0 == b[i].0 && a[i].1.deep_eq(b[i].1)
}

/// What a loader's result is, as its contract states it.
pub struct SchematicModel {
    pub size: [u32; 3],
    pub palette: Seq<BlockView>,
    pub cells: Seq<u32>,
    pub entities: Seq<([u32; 3], Compound)>,
    pub offset: [i32; 3],
}

/// A loaded schematic: a fixed-size cuboid of blocks plus block-entity NBT.
#[derive(Debug)]
pub struct Schematic {
    /// Dimensions in blocks, `[x, y, z]`.
    size: [u32; 3],
    /// The blocks that `blocks` indexes into. The loaders merge repeated
    /// entries, so a loaded palette holds no block twice.
    palette: Vec<BlockSpec>,
    /// Palette index for every cell, ordered `x + z*size_x + y*size_x*size_z`.
    blocks: Vec<u32>,
    /// Block-entity NBT keyed by relative position `[x, y, z]`.
    block_entities: Vec<([u32; 3], Compound)>,
    /// Suggested placement offset relative to the paste origin.
    offset: [i32; 3],
}

impl Schematic {
    #[verifier::type_invariant]
    closed spec fn inv(self) -> bool {
        &&& self.blocks@.len() == volume_of(self.size)
        &&& forall|i: int| 0 <= i < self.blocks@.len() ==> #[trigger] self.blocks@[i] < self.palette@.len()
    }

    /// Dimensions in blocks.
    pub closed spec fn dims(self) -> [u32; 3] {
        self.size
    }

    /// The palette.
    pub closed spec fn palette_seq(self) -> Seq<BlockSpec> {
        self.palette@
    }

    /// The palette index of every cell, in canonical order.
    pub closed spec fn cells(self) -> Seq<u32> {
        self.blocks@
    }

    /// The block entities.
    pub closed spec fn entities(self) -> Seq<([u32; 3], Compound)> {
        self.block_entities@
    }

    /// The placement offset.
    pub closed spec fn placement(self) -> [i32; 3] {
        self.offset
    }

    /// This schematic is `m`: the same dimensions, palette, cells and offset,
    /// and block entities equal in every part.
    pub open spec fn models(self, m: SchematicModel) -> bool {
        &&& self.dims() == m.size
        &&& self.palette_seq().len() == m.palette.len()
        &&& forall|i: int|
            0 <= i < m.palette.len() ==> block_view(#[trigger] self.palette_seq()[i]) == m.palette[i]
        &&& self.cells() == m.cells
        &&& same_entities(self.entities(), m.entities)
        &&& self.placement() == m.offset
    }

    /// One cell per position of the cuboid, each a valid palette index.
    pub open spec fn well_formed(self) -> bool {
        &&& self.cells().len() == volume_of(self.dims())
        &&& forall|i: int| 0 <= i < self.cells().len() ==> #[trigger] self.cells()[i] < self.palette_seq().len()
    }

    /// Build a schematic from its parts: `blocks.len()` must equal
    /// `size_x * size_y * size_z` and every entry must be a valid index into
    /// `palette`; otherwise `None` is returned.
    pub fn new(
        size: [u32; 3],
        palette: Vec<BlockSpec>,
        blocks: Vec<u32>,
        block_entities: Vec<([u32; 3], Compound)>,
        offset: [i32; 3],
    ) -> (r: Option<Schematic>)
        ensures
            r is Some <==> (blocks@.len() == volume_of(size) && forall|i: int|
                0 <= i < blocks@.len() ==> #[trigger] blocks@[i] < palette@.len()),
            r matches Some(s) ==> {
                &&& s.dims() == size
                &&& s.palette_seq() == palette@
                &&& s.cells() == blocks@
                &&& s.entities() == block_entities@
                &&& s.placement() == offset
            },
    {
        assert((size[0] as u64) * (size[1] as u64) <= 0xffff_ffff_ffff_ffffu64) by (nonlinear_arith)
            requires
                size[0] <= 0xffff_ffffu32,
                size[1] <= 0xffff_ffffu32,
        ;
        let xy: u64 = (size[0] as u64) * (size[1] as u64);
        assert(xy * size[2] <= 0xffff_ffff_ffff_ffffu128 * 0xffff_ffffu128) by (nonlinear_arith)
            requires
                xy <= 0xffff_ffff_ffff_ffffu64,
                size[2] <= 0xffff_ffffu32,
        ;
        let volume: u128 = (xy as u128) * (size[2] as u128);
        if blocks.len() as u128 != volume {
            return None;
        }
        let mut i: usize = 0;
        while i < blocks.len()
            invariant
                i <= blocks@.len(),
                forall|j: int| 0 <= j < i ==> #[trigger] blocks@[j] < palette@.len(),
            decreases blocks@.len() - i,
        {
            if blocks[i] as usize >= palette.len() {
                return None;
            }
            i = i + 1;
        }
        Some(Schematic { size, palette, blocks, block_entities, offset })
    }

    /// Dimensions in blocks, `[x, y, z]`.
    pub fn size(&self) -> (r: [u32; 3])
        ensures
            r == self.dims(),
    {
        self.size
    }

    /// Total number of cells (`size_x * size_y * size_z`).
    pub fn volume(&self) -> (r: usize)
        ensures
            r == volume_of(self.dims()),
    {
        proof {
            use_type_invariant(self);
        }
        self.blocks.len()
    }

    /// Placement offset relative to the paste origin.
    pub fn offset(&self) -> (r: [i32; 3])
        ensures
            r == self.placement(),
    {
        self.offset
    }

    /// The block palette.
    pub fn palette(&self) -> (r: &[BlockSpec])
        ensures
            r@ == self.palette_seq(),
    {
        self.palette.as_slice()
    }

    /// Block-entity NBT entries, keyed by relative position.
    pub fn block_entities(&self) -> (r: &[([u32; 3], Compound)])
        ensures
            r@ == self.entities(),
    {
        self.block_entities.as_slice()
    }

    /// The palette index of every cell, in canonical order.
    pub fn cell_indices(&self) -> (r: &[u32])
        ensures
            r@ == self.cells(),
            self.well_formed(),
    {
        proof {
            use_type_invariant(self);
        }
        self.blocks.as_slice()
    }

    /// Flat index for a coordinate, or `None` if out of bounds.
    fn index(&self, x: u32, y: u32, z: u32) -> (r: Option<usize>)
        ensures
            match r {
                Some(i) => in_bounds(self.dims(), x as int, y as int, z as int) && i
                    == cell_index(self.dims(), x as int, y as int, z as int) && i
                    < self.cells().len(),
                None => !in_bounds(self.dims(), x as int, y as int, z as int),
            },
    {
        proof {
            use_type_invariant(self);
        }
        if x >= self.size[0] || y >= self.size[1] || z >= self.size[2] {
            return None;
        }
        let sx = self.size[0] as usize;
        let sy = self.size[1] as usize;
        let sz = self.size[2] as usize;
        proof {
            lemma_cell_index_bound(self.size, x as int, y as int, z as int);
            assert(self.blocks.len() <= usize::MAX);
            assert(sx == self.size[0] && sz == self.size[2]);
        }
        Some(x as usize + z as usize * sx + y as usize * sx * sz)
    }

    /// The block at a relative coordinate, or `None` if out of bounds.
    pub fn block_at(&self, x: u32, y: u32, z: u32) -> (r: Option<&BlockSpec>)
        ensures
            match r {
                Some(b) => in_bounds(self.dims(), x as int, y as int, z as int) && *b
                    == self.palette_seq()[self.cells()[cell_index(
                    self.dims(),
                    x as int,
                    y as int,
                    z as int,
                )] as int],
                None => !in_bounds(self.dims(), x as int, y as int, z as int),
            },
    {
        proof {
            use_type_invariant(self);
        }
        let idx = match self.index(x, y, z) {
            Some(i) => i,
            None => return None,
        };
        let pal = self.blocks[idx] as usize;
        Some(&self.palette[pal])
    }

    /// Every cell as `([x, y, z], block)`, in canonical order.
    pub fn blocks(&self) -> (r: Vec<([u32; 3], &BlockSpec)>)
        ensures
            r@.len() == self.cells().len(),
            forall|i: int|
                0 <= i < r@.len() ==> {
                    let c = cell_coords(self.dims(), i);
                    &&& (#[trigger] r@[i]).0[0] == c[0]
                    &&& r@[i].0[1] == c[1]
                    &&& r@[i].0[2] == c[2]
                    &&& *r@[i].1 == self.palette_seq()[self.cells()[i] as int]
                },
    {
        proof {
            use_type_invariant(self);
        }
        let n = self.blocks.len();
        let sx = self.size[0];
        let sz = self.size[2];
        let mut out: Vec<([u32; 3], &BlockSpec)> = Vec::new();
        let mut i: usize = 0;
        while i < n
            invariant
                n == self.blocks@.len(),
                n == volume_of(self.size),
                sx == self.size[0],
                sz == self.size[2],
                i <= n,
                out@.len() == i,
                forall|j: int| 0 <= j < self.blocks@.len() ==> #[trigger] self.blocks@[j] < self.palette@.len(),
                forall|j: int|
                    0 <= j < i ==> {
                        let c = cell_coords(self.size, j);
                        &&& (#[trigger] out@[j]).0[0] == c[0]
                        &&& out@[j].0[1] == c[1]
                        &&& out@[j].0[2] == c[2]
                        &&& *out@[j].1 == self.palette@[self.blocks@[j] as int]
                    },
            decreases n - i,
        {
            proof {
                lemma_coords_bound(self.size, i as int);
            }
            let layer = sx as usize * sz as usize;
            let y = i / layer;
            let rem = i % layer;
            let z = rem / sx as usize;
            let x = rem % sx as usize;
            let pal = self.blocks[i] as usize;
            out.push(([x as u32, y as u32, z as u32], &self.palette[pal]));
            i = i + 1;
        }
        out
    }
}

/// An in-bounds coordinate has an in-range flat index.
pub proof fn lemma_cell_index_bound(size: [u32; 3], x: int, y: int, z: int)
    requires
        in_bounds(size, x, y, z),
    ensures
        0 <= cell_index(size, x, y, z) < volume_of(size),
        0 <= x + z * size[0] < volume_of(size),
        0 <= z * size[0] < volume_of(size),
        0 <= y * size[0] <= y * size[0] * size[2] < volume_of(size),
{
    let sx = size[0] as int;
    let sy = size[1] as int;
    let sz = size[2] as int;
    assert(0 <= x + z * sx + y * sx * sz < sx * sy * sz && 0 <= x + z * sx < sx * sy * sz && 0
        <= z * sx < sx * sy * sz && 0 <= y * sx <= y * sx * sz < sx * sy * sz) by (nonlinear_arith)
        requires
            0 <= x < sx,
            0 <= y < sy,
            0 <= z < sz,
    {
        assert(x + z * sx <= (sx - 1) + (sz - 1) * sx);
        assert((sx - 1) + (sz - 1) * sx == sx * sz - 1);
        assert(y * sx * sz <= (sy - 1) * sx * sz);
        assert((sy - 1) * sx * sz + sx * sz == sy * sx * sz);
    }
}

/// The coordinates of an in-range flat index lie inside the cuboid.
pub proof fn lemma_coords_bound(size: [u32; 3], i: int)
    requires
        0 <= i < volume_of(size),
    ensures
        0 < size[0] * size[2] <= volume_of(size),
        size[0] > 0,
        size[2] > 0,
        in_bounds(size, cell_coords(size, i)[0], cell_coords(size, i)[1], cell_coords(size, i)[2]),
{
    let sx = size[0] as int;
    let sy = size[1] as int;
    let sz = size[2] as int;
    assert(sx > 0 && sy > 0 && sz > 0 && 0 < sx * sz <= sx * sy * sz) by (nonlinear_arith)
        requires
            0 <= i < sx * sy * sz,
            sx >= 0,
            sy >= 0,
            sz >= 0,
    ;
    let layer = sx * sz;
    assert(0 <= i / layer < sy) by (nonlinear_arith)
        requires
            0 <= i < sx * sy * sz,
            layer == sx * sz,
            layer > 0,
    {
        assert(i < layer * sy);
    }
    assert(0 <= (i % layer) / sx < sz) by (nonlinear_arith)
        requires
            layer == sx * sz,
            layer > 0,
            sx > 0,
            0 <= i % layer < layer,
    ;
    assert(0 <= (i % layer) % sx < sx) by (nonlinear_arith)
        requires
            sx > 0,
    ;
}

/// The coordinates of a cell's flat index are the cell's coordinates.
pub proof fn lemma_coords_of_index(size: [u32; 3], x: int, y: int, z: int)
    requires
        in_bounds(size, x, y, z),
    ensures
        cell_coords(size, cell_index(size, x, y, z)) == [x, y, z],
{
    let sx = size[0] as int;
    let sz = size[2] as int;
    let layer = sx * sz;
    let i = cell_index(size, x, y, z);
    assert(y * sx * sz == y * layer && 0 <= x + z * sx < layer) by (nonlinear_arith)
        requires
            layer == sx * sz,
            0 <= x < sx,
            0 <= z < sz,
    {
        assert(x + z * sx <= (sx - 1) + (sz - 1) * sx);
    }
    lemma_fundamental_div_mod_converse(i, layer, y, x + z * sx);
    lemma_fundamental_div_mod_converse(x + z * sx, sx, z, x);
}

/// The flat index of an index's coordinates is the index itself.
pub proof fn lemma_index_of_coords(size: [u32; 3], i: int)
    requires
        0 <= i < volume_of(size),
    ensures
        cell_index(size, cell_coords(size, i)[0], cell_coords(size, i)[1], cell_coords(size, i)[2]) == i,
{
    lemma_coords_bound(size, i);
    let sx = size[0] as int;
    let sz = size[2] as int;
    let layer = sx * sz;
    let rem = i % layer;
    lemma_fundamental_div_mod(i, layer);
    lemma_fundamental_div_mod(rem, sx);
    let y = i / layer;
    assert(y * sx * sz == y * layer && layer * y == y * layer) by (nonlinear_arith)
        requires
            layer == sx * sz,
    ;
    assert(sx * (rem / sx) == (rem / sx) * sx) by (nonlinear_arith);
}

} // verus!
