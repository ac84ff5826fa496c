//! Litematica `.litematic` loader.
//!
//! Stores one or more *regions*, each with its own palette and packed index
//! array. A region may extend in the negative direction (its `Size` components
//! can be negative); this loader normalizes every region to a common coordinate
//! space, computes the enclosing bounding box, and merges them into one
//! canonical [`Schematic`].
use vstd::prelude::*;
use vstd::arithmetic::power2::{lemma2_to64, lemma_pow2_pos, lemma_pow2_strictly_increases, lemma_pow2_unfold, pow2};
use vstd::bits::{lemma_u64_low_bits_mask_is_mod, lemma_u64_shl_is_mul, lemma_u64_shr_is_div, low_bits_mask};
use vstd::string::StringExecFns;

use crate::block::{air_block, block_view, BlockSpec, BlockView};
use crate::error::{Failure, SchematicError};
use crate::formats::structure::{air_view, entry_block, resolve_entries};
use crate::nbt::{Compound, List, Value};
use crate::palette::{
    distinct_views, extend_views, lemma_extend_views, merge_palette, region_map, views,
};
use crate::outcome::{first_failure_at, lemma_map_all, lemma_map_all_err, lemma_map_all_ok, map_all, outcome};
use crate::schematic::{
    cell_coords, cell_index, in_bounds, lemma_cell_index_bound, lemma_coords_bound, lemma_coords_of_index,
    lemma_index_of_coords, same_entities, volume_of, Schematic, SchematicModel,
};

verus! {

/// The number of binary digits of `v`.
pub open spec fn bit_length(v: nat) -> nat
    decreases v,
{
    if v == 0 {
        0
    } else {
        1 + bit_length(v / 2)
    }
}

/// Bits per entry for a palette of `len` blocks: `max(2, ceil(log2(len)))`.
pub open spec fn entry_bits(len: nat) -> u32 {
    let needed = if len <= 1 {
        0
    } else {
        bit_length((len - 1) as nat)
    };
    if needed < 2 {
        2
    } else {
        needed as u32
    }
}

/// `bit_length(v)` is the least `n` with `v < 2^n`.
pub proof fn lemma_bit_length(v: nat)
    ensures
        v < pow2(bit_length(v)),
        bit_length(v) > 0 ==> pow2((bit_length(v) - 1) as nat) <= v,
    decreases v,
{
    if v == 0 {
        lemma2_to64();
    } else {
        lemma_bit_length(v / 2);
        let n = bit_length(v / 2);
        lemma_pow2_unfold(n + 1);
        if n > 0 {
            lemma_pow2_unfold(n);
        } else {
            lemma2_to64();
        }
    }
}

proof fn lemma_bit_length_bound(v: nat, k: nat)
    requires
        v < pow2(k),
    ensures
        bit_length(v) <= k,
    decreases v,
{
    if v > 0 {
        if k == 0 {
            lemma2_to64();
        }
        lemma_pow2_unfold(k);
        lemma_bit_length_bound(v / 2, (k - 1) as nat);
    }
}

/// Bits per entry for a palette of `len` distinct blocks: `max(2, ceil(log2(len)))`.
pub fn bits_for(len: usize) -> (r: u32)
    ensures
        r == entry_bits(len as nat),
        2 <= r <= 64,
{
    let mut needed: u32 = 0;
    if len > 1 {
        let mut v: usize = len - 1;
        proof {
            lemma2_to64();
            lemma_bit_length_bound((len - 1) as nat, 64);
        }
        while v > 0
            invariant
                needed + bit_length(v as nat) == bit_length((len - 1) as nat),
                bit_length((len - 1) as nat) <= 64,
            decreases v,
        {
            v = v / 2;
            needed = needed + 1;
        }
    }
    if needed < 2 {
        2
    } else {
        needed
    }
}

/// The chosen width holds every palette index and is the narrowest that
/// does, down to the floor of 2 bits: a palette of `len >= 1` blocks has
/// indices below `2^entry_bits(len)`, and one bit fewer would not reach
/// `len - 1` unless the floor applies.
pub proof fn law_entry_bits_fit(len: usize)
    requires
        len >= 1,
    ensures
        entry_bits(len as nat) >= 2,
        len - 1 < pow2(entry_bits(len as nat) as nat),
        entry_bits(len as nat) > 2 ==> pow2((entry_bits(len as nat) - 1) as nat) <= len - 1,
{
    lemma_bit_length((len - 1) as nat);
    lemma2_to64();
    lemma_bit_length_bound((len - 1) as nat, 64);
    if len <= 1 || bit_length((len - 1) as nat) < 2 {
        lemma2_to64();
        if len > 1 && bit_length((len - 1) as nat) < 2 {
            lemma_pow2_strictly_increases(bit_length((len - 1) as nat), 2);
        }
    }
}

/// How many `bits`-wide entries one 64-bit long holds.
pub open spec fn per_long(bits: u32) -> int {
    64int / (bits as int)
}

/// Entry `i` of a packed-long array: entries never straddle two longs, and
/// each long holds `floor(64 / bits)` of them, low bits first.
pub open spec fn packed_entry(longs: Seq<i64>, bits: u32, i: int) -> u32 {
    let per = per_long(bits);
    (((longs[i / per] as u64) as nat / pow2(((i % per) * bits) as nat)) % pow2(bits as nat)) as u32
}

/// The first `count` entries of a packed-long array, or `None` where `bits`
/// is not in `1..=32` or the array is too short.
pub open spec fn unpacked(longs: Seq<i64>, bits: u32, count: nat) -> Option<Seq<u32>> {
    if bits == 0 || bits > 32 {
        None
    } else if longs.len() < (count + per_long(bits) - 1) / per_long(bits) {
        None
    } else {
        Some(Seq::new(count, |i: int| packed_entry(longs, bits, i)))
    }
}

/// Unpack a post-1.16 packed-long array into `count` palette indices: each
/// long holds `floor(64/bits)` entries low-bits first, never straddling a
/// boundary.
pub fn unpack_states(longs: &[i64], bits: u32, count: usize) -> (r: Result<Vec<u32>, SchematicError>)
    ensures
        match r {
            Ok(v) => unpacked(longs@, bits, count as nat) == Some(v@),
            Err(e) => unpacked(longs@, bits, count as nat) is None && e is Malformed,
        },
{
    if bits == 0 || bits > 32 {
        return Err(SchematicError::Malformed(String::from_str("invalid bits-per-entry")));
    }
    let per = (64 / bits) as usize;
    assert(1 <= per <= 64 && per * bits <= 64) by (nonlinear_arith)
        requires
            1 <= bits <= 32,
            per == 64int / (bits as int),
    ;
    proof {
        lemma2_to64();
        lemma_pow2_strictly_increases(bits as nat, 64);
        if bits < 32 {
            lemma_pow2_strictly_increases(bits as nat, 32);
        }
        lemma_u64_shl_is_mul(1, bits as u64);
    }
    let mask: u64 = (1u64 << bits) - 1;
    assert((count as int) / (per as int) + 1 <= usize::MAX || (count as int) % (per as int) == 0)
        by (nonlinear_arith)
        requires
            per >= 1,
            count <= usize::MAX,
    {
        if per == 1 {
            assert((count as int) % 1 == 0);
        } else {
            assert((count as int) / (per as int) <= (count as int) / 2);
        }
    }
    let needed = count / per + if count % per != 0 {
        1usize
    } else {
        0usize
    };
    assert(needed == (count + per - 1) / (per as int)) by (nonlinear_arith)
        requires
            per >= 1,
            needed == (count as int) / (per as int) + if (count as int) % (per as int) != 0 {
                1int
            } else {
                0int
            },
    ;
    if longs.len() < needed {
        return Err(SchematicError::Malformed(String::from_str("BlockStates too short")));
    }
    let mut out: Vec<u32> = Vec::new();
    let mut i: usize = 0;
    while i < count
        invariant
            1 <= bits <= 32,
            per == per_long(bits),
            1 <= per <= 64,
            per * bits <= 64,
            mask == low_bits_mask(bits as nat),
            pow2(bits as nat) <= 0x1_0000_0000,
            needed == (count + per - 1) / (per as int),
            needed <= longs@.len(),
            i <= count,
            out@ =~= Seq::new(i as nat, |j: int| packed_entry(longs@, bits, j)),
        decreases count - i,
    {
        assert((i as int) / (per as int) < needed && ((i as int) % (per as int)) * bits <= 64 - bits) by (nonlinear_arith)
            requires
                i < count,
                per >= 1,
                bits >= 1,
                per * bits <= 64,
                needed == (count + per - 1) / (per as int),
        {
            assert(((i as int) % (per as int)) <= per - 1);
            assert(((i as int) % (per as int)) * bits <= (per - 1) * bits);
        }
        let long = #[verifier::truncate] (longs[i / per] as u64);
        let shift = ((i % per) as u32) * bits;
        proof {
            lemma_u64_shr_is_div(long, shift as u64);
            lemma_u64_low_bits_mask_is_mod(long >> shift, bits as nat);
            lemma_pow2_pos(bits as nat);
        }
        let value = (long >> shift) & mask;
        assert(value < pow2(bits as nat));
        out.push(value as u32);
        i = i + 1;
    }
    Ok(out)
}

/// A child compound.
pub open spec fn compound_tag(c: Compound, key: Seq<char>) -> Result<Compound, Failure> {
    match c.lookup(key) {
        Some(Value::Compound(inner)) => Ok(inner),
        Some(_) => Err(Failure::WrongType(key)),
        None => Err(Failure::MissingTag(key)),
    }
}

/// Fetch a child compound, distinguishing missing from wrong-type.
fn get_compound<'a>(c: &'a Compound, key: &'static str) -> (r: Result<&'a Compound, SchematicError>)
    ensures
        match r {
            Ok(v) => compound_tag(*c, key@) == Ok::<Compound, Failure>(*v),
            Err(e) => compound_tag(*c, key@) == Err::<Compound, Failure>(e.failure()),
        },
{
    match c.get(key) {
        Some(Value::Compound(inner)) => Ok(inner),
        Some(_) => Err(SchematicError::WrongType(key)),
        None => Err(SchematicError::MissingTag(key)),
    }
}

/// An integer child of any integer tag type, reported under `label`.
pub open spec fn int_tag(c: Compound, key: Seq<char>, label: Seq<char>) -> Result<i32, Failure> {
    match c.lookup(key) {
        Some(v) => match v.int_value() {
            Some(i) => Ok(i),
            None => Err(Failure::WrongType(label)),
        },
        None => Err(Failure::MissingTag(label)),
    }
}

/// Fetch an integer child, accepting any NBT integer type whose value fits.
fn get_i32(c: &Compound, key: &str, label: &'static str) -> (r: Result<i32, SchematicError>)
    ensures
        outcome(r) == int_tag(*c, key@, label@),
{
    match c.get(key) {
        Some(v) => match v.as_i32() {
            Some(i) => Ok(i),
            None => Err(SchematicError::WrongType(label)),
        },
        None => Err(SchematicError::MissingTag(label)),
    }
}

/// A region as its contract speaks of it: its minimum corner, its extent, its
/// palette, its decoded indices and its block entities (region-local).
pub struct RegionModel {
    pub start: [i64; 3],
    pub extent: [u32; 3],
    pub palette: Seq<BlockView>,
    pub indices: Seq<u32>,
    pub tiles: Seq<([i64; 3], Compound)>,
}

/// The minimum corner along one axis: a negative size grows from `pos`
/// toward lower coordinates, occupying `[pos+size+1 ..= pos]`.
pub open spec fn axis_start(pos: i32, size: i32) -> i64 {
    if size < 0 {
        (pos + size + 1) as i64
    } else {
        pos as i64
    }
}

/// The extent along one axis: the size's magnitude.
pub open spec fn axis_extent(size: i32) -> u32 {
    if size < 0 {
        (-size) as u32
    } else {
        size as u32
    }
}

/// Along one axis a region at `pos` of signed size `size` covers exactly
/// `pos ..= pos + size - 1` when the size is positive, and
/// `pos + size + 1 ..= pos` when it is negative: the corner at `pos` is
/// always inside, and the region grows from it in the direction of the sign.
pub proof fn law_region_axis(pos: i32, size: i32, c: int)
    ensures
        (axis_start(pos, size) <= c < axis_start(pos, size) + axis_extent(size)) <==> if size < 0 {
            pos + size < c <= pos
        } else {
            pos <= c < pos + size
        },
{
}

/// A parsed region sits where its `Size` and `Position` compounds put it:
/// along each axis its corner and extent are those of `law_region_axis` for
/// that axis's `Position` and `Size` components.
pub proof fn law_region_placement(region: Compound)
    ensures
        region_model(region) matches Ok(m) ==> {
            &&& compound_tag(region, "Size"@) matches Ok(size)
            &&& compound_tag(region, "Position"@) matches Ok(position)
            &&& size.lookup("x"@) matches Some(vx)
            &&& vx.int_value() matches Some(sx)
            &&& size.lookup("y"@) matches Some(vy)
            &&& vy.int_value() matches Some(sy)
            &&& size.lookup("z"@) matches Some(vz)
            &&& vz.int_value() matches Some(sz)
            &&& position.lookup("x"@) matches Some(wx)
            &&& wx.int_value() matches Some(px)
            &&& position.lookup("y"@) matches Some(wy)
            &&& wy.int_value() matches Some(py)
            &&& position.lookup("z"@) matches Some(wz)
            &&& wz.int_value() matches Some(pz)
            &&& m.start == [axis_start(px, sx), axis_start(py, sy), axis_start(pz, sz)]
            &&& m.extent == [axis_extent(sx), axis_extent(sy), axis_extent(sz)]
        },
{
}

/// The `BlockStatePalette` entries: a non-empty list of compounds.
pub open spec fn region_palette_list(region: Compound) -> Result<Seq<Compound>, Failure> {
    match region.lookup("BlockStatePalette"@) {
        Some(Value::List(List::Compound(entries))) => if entries@.len() == 0 {
            Err(Failure::Malformed)
        } else {
            Ok(entries@)
        },
        Some(Value::List(List::End)) => Err(Failure::Malformed),
        Some(_) => Err(Failure::WrongType("BlockStatePalette"@)),
        None => Err(Failure::MissingTag("BlockStatePalette"@)),
    }
}

/// The `BlockStates` long array.
pub open spec fn block_states_tag(region: Compound) -> Result<Seq<i64>, Failure> {
    match region.lookup("BlockStates"@) {
        Some(Value::LongArray(v)) => Ok(v@),
        Some(_) => Err(Failure::WrongType("BlockStates"@)),
        None => Err(Failure::MissingTag("BlockStates"@)),
    }
}

/// A tile entity: its region-local `x`, `y`, `z` and its compound.
pub open spec fn tile_of(e: Compound) -> Result<([i64; 3], Compound), Failure> {
    match int_tag(e, "x"@, "TileEntity.x"@) {
        Err(f) => Err(f),
        Ok(x) => match int_tag(e, "y"@, "TileEntity.y"@) {
            Err(f) => Err(f),
            Ok(y) => match int_tag(e, "z"@, "TileEntity.z"@) {
                Err(f) => Err(f),
                Ok(z) => Ok(([x as i64, y as i64, z as i64], e)),
            },
        },
    }
}

/// The `TileEntities` of a region: a list of compounds, an empty list, or none.
pub open spec fn region_tiles(region: Compound) -> Result<Seq<([i64; 3], Compound)>, Failure> {
    match region.lookup("TileEntities"@) {
        Some(Value::List(List::Compound(entries))) => map_all(entries@, |e: Compound| tile_of(e)),
        Some(Value::List(List::End)) => Ok(Seq::empty()),
        None => Ok(Seq::empty()),
        Some(_) => Err(Failure::WrongType("TileEntities"@)),
    }
}

/// What a region compound denotes, or why it is rejected.
pub open spec fn region_model(region: Compound) -> Result<RegionModel, Failure> {
    match compound_tag(region, "Size"@) {
        Err(e) => Err(e),
        Ok(size) => match int_tag(size, "x"@, "Size.x"@) {
            Err(e) => Err(e),
            Ok(sx) => match int_tag(size, "y"@, "Size.y"@) {
                Err(e) => Err(e),
                Ok(sy) => match int_tag(size, "z"@, "Size.z"@) {
                    Err(e) => Err(e),
                    Ok(sz) => match compound_tag(region, "Position"@) {
                        Err(e) => Err(e),
                        Ok(position) => match int_tag(position, "x"@, "Position.x"@) {
                            Err(e) => Err(e),
                            Ok(px) => match int_tag(position, "y"@, "Position.y"@) {
                                Err(e) => Err(e),
                                Ok(py) => match int_tag(position, "z"@, "Position.z"@) {
                                    Err(e) => Err(e),
                                    Ok(pz) => region_contents(
                                        region,
                                        [axis_start(px, sx), axis_start(py, sy), axis_start(pz, sz)],
                                        [axis_extent(sx), axis_extent(sy), axis_extent(sz)],
                                    ),
                                },
                            },
                        },
                    },
                },
            },
        },
    }
}

/// The palette, indices and tiles of a region with the given corner and extent.
pub open spec fn region_contents(region: Compound, start: [i64; 3], extent: [u32; 3]) -> Result<
    RegionModel,
    Failure,
> {
    match region_palette_list(region) {
        Err(e) => Err(e),
        Ok(entries) => match map_all(entries, |c: Compound| entry_block(c)) {
            Err(e) => Err(e),
            Ok(palette) => match block_states_tag(region) {
                Err(e) => Err(e),
                Ok(longs) => if volume_of(extent) > usize::MAX {
                    Err(Failure::Malformed)
                } else {
                    match unpacked(longs, entry_bits(palette.len()), volume_of(extent) as nat) {
                        None => Err(Failure::Malformed),
                        Some(indices) => match region_tiles(region) {
                            Err(e) => Err(e),
                            Ok(tiles) => Ok(RegionModel { start, extent, palette, indices, tiles }),
                        },
                    }
                },
            },
        },
    }
}

/// A single parsed region, normalized into schematic-space coordinates but not
/// yet placed into the merged bounding box.
struct Region {
    /// Minimum corner of the region in schematic space (inclusive).
    start: [i64; 3],
    /// Per-axis extent in blocks (always non-negative).
    extent: [u32; 3],
    /// Resolved block palette for this region.
    palette: Vec<BlockSpec>,
    /// Decoded palette indices in region-local order `y*sx*sz + z*sx + x`.
    indices: Vec<u32>,
    /// Block entities with region-local coordinates.
    tiles: Vec<([i64; 3], Compound)>,
}

/// The region is `m`, its block entities equal to `m`'s in every part.
spec fn region_is(r: Region, m: RegionModel) -> bool {
    &&& r.start == m.start
    &&& r.extent == m.extent
    &&& r.palette@.len() == m.palette.len()
    &&& forall|j: int| 0 <= j < m.palette.len() ==> block_view(#[trigger] r.palette@[j]) == m.palette[j]
    &&& r.indices@ == m.indices
    &&& r.tiles@.len() == m.tiles.len()
    &&& forall|j: int|
        0 <= j < m.tiles.len() ==> (#[trigger] r.tiles@[j]).0 == m.tiles[j].0 && r.tiles@[j].1.deep_eq(
            m.tiles[j].1,
        )
}

/// The region-local position of a tile entity.
fn tile_position(entry: &Compound) -> (r: Result<[i64; 3], SchematicError>)
    ensures
        match r {
            Ok(p) => tile_of(*entry) matches Ok(t) && t.0 == p,
            Err(e) => tile_of(*entry) == Err::<([i64; 3], Compound), Failure>(e.failure()),
        },
{
    let tx = get_i32(entry, "x", "TileEntity.x")? as i64;
    let ty = get_i32(entry, "y", "TileEntity.y")? as i64;
    let tz = get_i32(entry, "z", "TileEntity.z")? as i64;
    Ok([tx, ty, tz])
}

/// Read the tile entities of a region.
fn read_tiles(region: &Compound) -> (r: Result<Vec<([i64; 3], Compound)>, SchematicError>)
    ensures
        match r {
            Ok(v) => region_tiles(*region) matches Ok(ts) && v@.len() == ts.len() && forall|j: int|
                0 <= j < ts.len() ==> (#[trigger] v@[j]).0 == ts[j].0 && v@[j].1.deep_eq(ts[j].1),
            Err(e) => region_tiles(*region) == Err::<Seq<([i64; 3], Compound)>, Failure>(e.failure()),
        },
{
    let mut tiles: Vec<([i64; 3], Compound)> = Vec::new();
    match region.get("TileEntities") {
        Some(Value::List(List::Compound(entries))) => {
            let ghost f = |e: Compound| tile_of(e);
            assert(region_tiles(*region) == map_all(entries@, f));
            let mut i: usize = 0;
            while i < entries.len()
                invariant
                    f == (|e: Compound| tile_of(e)),
                    region_tiles(*region) == map_all(entries@, f),
                    i <= entries@.len(),
                    tiles@.len() == i,
                    forall|j: int| 0 <= j < i ==> f(#[trigger] entries@[j]) is Ok,
                    forall|j: int|
                        0 <= j < i ==> (#[trigger] tiles@[j]).0 == f(entries@[j])->Ok_0.0
                            && tiles@[j].1.deep_eq(entries@[j]),
                decreases entries@.len() - i,
            {
                let entry = &entries[i];
                match tile_position(entry) {
                    Ok(p) => {
                        tiles.push((p, entry.duplicate()));
                    },
                    Err(e) => {
                        proof {
                            assert(f(entries@[i as int]) is Err);
                            assert(first_failure_at(entries@, f, i as int));
                            lemma_map_all_err(entries@, f, i as int);
                        }
                        return Err(e);
                    },
                }
                i = i + 1;
            }
            proof {
                lemma_map_all(entries@, f);
            }
        },
        Some(Value::List(List::End)) => {},
        None => {},
        Some(_) => {
            return Err(SchematicError::WrongType("TileEntities"));
        },
    }
    Ok(tiles)
}

/// The minimum corner and extent along one axis.
fn axis_span(pos: i32, size: i32) -> (r: (i64, u32))
    ensures
        r.0 == axis_start(pos, size),
        r.1 == axis_extent(size),
{
    let s = size as i64;
    let p = pos as i64;
    if s < 0 {
        (p + s + 1, (-s) as u32)
    } else {
        (p, s as u32)
    }
}

/// Parse and normalize one region compound.
fn parse_region(region: &Compound) -> (r: Result<Region, SchematicError>)
    ensures
        match r {
            Ok(g) => region_model(*region) matches Ok(m) && region_is(g, m),
            Err(e) => region_model(*region) == Err::<RegionModel, Failure>(e.failure()),
        },
{
    let size = get_compound(region, "Size")?;
    let sx = get_i32(size, "x", "Size.x")?;
    let sy = get_i32(size, "y", "Size.y")?;
    let sz = get_i32(size, "z", "Size.z")?;
    let position = get_compound(region, "Position")?;
    let px = get_i32(position, "x", "Position.x")?;
    let py = get_i32(position, "y", "Position.y")?;
    let pz = get_i32(position, "z", "Position.z")?;
    let (x0, ex) = axis_span(px, sx);
    let (y0, ey) = axis_span(py, sy);
    let (z0, ez) = axis_span(pz, sz);
    let start = [x0, y0, z0];
    let extent = [ex, ey, ez];
    let palette_entries = match region.get("BlockStatePalette") {
        Some(Value::List(List::Compound(entries))) => entries,
        Some(Value::List(List::End)) => {
            return Err(SchematicError::Malformed(String::from_str("empty BlockStatePalette")));
        },
        Some(_) => return Err(SchematicError::WrongType("BlockStatePalette")),
        None => return Err(SchematicError::MissingTag("BlockStatePalette")),
    };
    if palette_entries.len() == 0 {
        return Err(SchematicError::Malformed(String::from_str("empty BlockStatePalette")));
    }
    let palette = resolve_entries(palette_entries.as_slice())?;
    let longs = match region.get("BlockStates") {
        Some(Value::LongArray(v)) => v,
        Some(_) => return Err(SchematicError::WrongType("BlockStates")),
        None => return Err(SchematicError::MissingTag("BlockStates")),
    };
    let bits = bits_for(palette.len());
    assert(ex as u64 * ey as u64 <= 0xffff_ffff_ffff_ffffu64) by (nonlinear_arith)
        requires
            ex <= 0xffff_ffffu32,
            ey <= 0xffff_ffffu32,
    ;
    let exy: u64 = ex as u64 * ey as u64;
    assert(exy * ez <= 0xffff_ffff_ffff_ffffu128 * 0xffff_ffffu128) by (nonlinear_arith)
        requires
            exy <= 0xffff_ffff_ffff_ffffu64,
            ez <= 0xffff_ffffu32,
    ;
    let volume: u128 = exy as u128 * ez as u128;
    if volume > usize::MAX as u128 {
        return Err(SchematicError::Malformed(String::from_str("region too large")));
    }
    let indices = unpack_states(longs.as_slice(), bits, volume as usize)?;
    let tiles = read_tiles(region)?;
    let g = Region { start, extent, palette, indices, tiles };
    proof {
        let m = region_model(*region)->Ok_0;
        lemma_map_all(palette_entries@, |c: Compound| entry_block(c));
    }
    Ok(g)
}

/// What an entry of `Regions` denotes: it must be a compound.
pub open spec fn region_entry(e: (String, Value)) -> Result<RegionModel, Failure> {
    match e.1 {
        Value::Compound(c) => region_model(c),
        _ => Err(Failure::WrongType("Regions entry"@)),
    }
}

/// The lowest corner coordinate of the regions along axis `a`.
pub open spec fn low_corner(rs: Seq<RegionModel>, a: int) -> i64
    decreases rs.len(),
{
    if rs.len() == 0 {
        i64::MAX
    } else {
        let m = low_corner(rs.drop_last(), a);
        let s = rs.last().start[a];
        if s < m {
            s
        } else {
            m
        }
    }
}

/// The highest end coordinate (exclusive) of the regions along axis `a`.
pub open spec fn high_corner(rs: Seq<RegionModel>, a: int) -> i64
    decreases rs.len(),
{
    if rs.len() == 0 {
        i64::MIN
    } else {
        let m = high_corner(rs.drop_last(), a);
        let e = (rs.last().start[a] + rs.last().extent[a]) as i64;
        if e > m {
            e
        } else {
            m
        }
    }
}

/// The merged palette: air, then each region's blocks that are not already
/// present, in order, so that no block occurs twice.
pub open spec fn merged_palette(rs: Seq<RegionModel>) -> Seq<BlockView>
    decreases rs.len(),
{
    if rs.len() == 0 {
        seq![air_view()]
    } else {
        extend_views(merged_palette(rs.drop_last()), rs.last().palette)
    }
}

/// Whether merged coordinate `c` lies in a region of the given extent placed at `off`.
pub open spec fn covers(extent: [u32; 3], off: [int; 3], c: [int; 3]) -> bool {
    &&& off[0] <= c[0] < off[0] + extent[0]
    &&& off[1] <= c[1] < off[1] + extent[1]
    &&& off[2] <= c[2] < off[2] + extent[2]
}

/// The offset of a region inside the merged bounding box.
pub open spec fn region_offset(r: RegionModel, lo: [i64; 3]) -> [int; 3] {
    [r.start[0] - lo[0], r.start[1] - lo[1], r.start[2] - lo[2]]
}

/// The cells after a region of the given extent and indices, placed at
/// `off` with its palette mapped into the merged one by `map`, writes each of
/// its cells.
pub open spec fn write_region(
    cells: Seq<u32>,
    extent: [u32; 3],
    indices: Seq<u32>,
    map: Seq<u32>,
    off: [int; 3],
    size: [u32; 3],
) -> Seq<u32> {
    Seq::new(
        cells.len(),
        |i: int|
            {
                let c = cell_coords(size, i);
                if covers(extent, off, c) {
                    map[indices[cell_index(extent, c[0] - off[0], c[1] - off[1], c[2] - off[2])] as int]
                } else {
                    cells[i]
                }
            },
    )
}

/// The cells of the merged schematic after the first `k` regions: air where
/// no region reaches, later regions overwriting earlier ones.
pub open spec fn merged_cells(rs: Seq<RegionModel>, k: int, lo: [i64; 3], size: [u32; 3]) -> Seq<u32>
    decreases k,
{
    if k <= 0 {
        Seq::new(volume_of(size) as nat, |i: int| 0u32)
    } else {
        write_region(
            merged_cells(rs, k - 1, lo, size),
            rs[k - 1].extent,
            rs[k - 1].indices,
            region_map(merged_palette(rs.take(k)), rs[k - 1].palette),
            region_offset(rs[k - 1], lo),
            size,
        )
    }
}

/// The block entities of the first `k` regions, moved into merged coordinates.
pub open spec fn merged_entities(rs: Seq<RegionModel>, k: int, lo: [i64; 3]) -> Seq<([u32; 3], Compound)>
    decreases k,
{
    if k <= 0 {
        Seq::empty()
    } else {
        let r = rs[k - 1];
        let off = region_offset(r, lo);
        merged_entities(rs, k - 1, lo) + Seq::new(
            r.tiles.len(),
            |j: int|
                (
                    [
                        (r.tiles[j].0[0] + off[0]) as u32,
                        (r.tiles[j].0[1] + off[1]) as u32,
                        (r.tiles[j].0[2] + off[2]) as u32,
                    ],
                    r.tiles[j].1,
                ),
        )
    }
}

/// Every region's indices lie within its own palette.
pub open spec fn indices_in_range(rs: Seq<RegionModel>) -> bool {
    forall|k: int, i: int|
        0 <= k < rs.len() && 0 <= i < rs[k].indices.len() ==> #[trigger] rs[k].indices[i]
            < rs[k].palette.len()
}

/// The merge of parsed regions into one schematic, or why it fails.
pub open spec fn merge_model(rs: Seq<RegionModel>) -> Result<SchematicModel, Failure> {
    if rs.len() == 0 {
        Err(Failure::Malformed)
    } else {
        let lo = [low_corner(rs, 0), low_corner(rs, 1), low_corner(rs, 2)];
        let hi = [high_corner(rs, 0), high_corner(rs, 1), high_corner(rs, 2)];
        if hi[0] - lo[0] > u32::MAX || hi[1] - lo[1] > u32::MAX || hi[2] - lo[2] > u32::MAX {
            Err(Failure::Malformed)
        } else {
            let size = [(hi[0] - lo[0]) as u32, (hi[1] - lo[1]) as u32, (hi[2] - lo[2]) as u32];
            if volume_of(size) > usize::MAX {
                Err(Failure::Malformed)
            } else if !indices_in_range(rs) {
                Err(Failure::Malformed)
            } else {
                Ok(
                    SchematicModel {
                        size,
                        palette: merged_palette(rs),
                        cells: merged_cells(rs, rs.len() as int, lo, size),
                        entities: merged_entities(rs, rs.len() as int, lo),
                        offset: [0, 0, 0],
                    },
                )
            }
        }
    }
}

/// What a Litematica root compound denotes, or how loading it fails.
pub open spec fn litematica_model(root: Compound) -> Result<SchematicModel, Failure> {
    match root.lookup("Regions"@) {
        Some(Value::Compound(c)) => match map_all(c.entries(), |e: (String, Value)| region_entry(e)) {
            Err(e) => Err(e),
            Ok(rs) => merge_model(rs),
        },
        Some(_) => Err(Failure::WrongType("Regions"@)),
        None => Err(Failure::MissingTag("Regions"@)),
    }
}

/// The merged cell that local cell `i` of a region placed at `off` lands on
/// is exactly the covered cell whose local index is `i`.
proof fn lemma_place_one(size: [u32; 3], extent: [u32; 3], off: [int; 3], i: int, c: int)
    requires
        0 <= i < volume_of(extent),
        0 <= c < volume_of(size),
        0 <= off[0] && off[0] + extent[0] <= size[0],
        0 <= off[1] && off[1] + extent[1] <= size[1],
        0 <= off[2] && off[2] + extent[2] <= size[2],
    ensures
        ({
            let l = cell_coords(extent, i);
            let co = cell_coords(size, c);
            (c == cell_index(size, l[0] + off[0], l[1] + off[1], l[2] + off[2])) <==> (covers(
                extent,
                off,
                co,
            ) && cell_index(extent, co[0] - off[0], co[1] - off[1], co[2] - off[2]) == i)
        }),
{
    let l = cell_coords(extent, i);
    let co = cell_coords(size, c);
    lemma_coords_bound(extent, i);
    lemma_coords_bound(size, c);
    lemma_index_of_coords(extent, i);
    lemma_index_of_coords(size, c);
    let ir = cell_index(size, l[0] + off[0], l[1] + off[1], l[2] + off[2]);
    lemma_coords_of_index(size, l[0] + off[0], l[1] + off[1], l[2] + off[2]);
    if covers(extent, off, co) {
        lemma_coords_of_index(extent, co[0] - off[0], co[1] - off[1], co[2] - off[2]);
    }
}

/// Write a region's cells into the merged cell array, failing where one of
/// its indices lies outside its palette.
fn place_region(
    blocks: &mut Vec<u32>,
    extent: [u32; 3],
    indices: &Vec<u32>,
    region_len: usize,
    map: &Vec<u32>,
    off: [usize; 3],
    size: [u32; 3],
) -> (r: Result<(), SchematicError>)
    requires
        old(blocks)@.len() == volume_of(size),
        indices@.len() == volume_of(extent),
        off[0] + extent[0] <= size[0],
        off[1] + extent[1] <= size[1],
        off[2] + extent[2] <= size[2],
        map@.len() == region_len,
    ensures
        match r {
            Ok(()) => (forall|i: int| 0 <= i < indices@.len() ==> #[trigger] indices@[i] < region_len)
                && final(blocks)@ == write_region(
                old(blocks)@,
                extent,
                indices@,
                map@,
                [off[0] as int, off[1] as int, off[2] as int],
                size,
            ),
            Err(e) => e is Malformed && exists|i: int| 0 <= i < indices@.len() && #[trigger] indices@[i] >= region_len,
        },
{
    let ghost offs = [off[0] as int, off[1] as int, off[2] as int];
    let ghost init = blocks@;
    let n = blocks.len();
    let ex = extent[0] as usize;
    let ez = extent[2] as usize;
    let sx = size[0] as usize;
    let sz = size[2] as usize;
    let mut i: usize = 0;
    while i < indices.len()
        invariant
            init == old(blocks)@,
            n == blocks@.len(),
            blocks@.len() == volume_of(size),
            indices@.len() == volume_of(extent),
            off[0] + extent[0] <= size[0],
            off[1] + extent[1] <= size[1],
            off[2] + extent[2] <= size[2],
            offs == [off[0] as int, off[1] as int, off[2] as int],
            ex == extent[0],
            ez == extent[2],
            sx == size[0],
            sz == size[2],
            map@.len() == region_len,
            i <= indices@.len(),
            forall|j: int| 0 <= j < i ==> #[trigger] indices@[j] < region_len,
            forall|c: int|
                0 <= c < blocks@.len() ==> {
                    let co = cell_coords(size, c);
                    #[trigger] blocks@[c] == if covers(extent, offs, co) && cell_index(
                        extent,
                        co[0] - offs[0],
                        co[1] - offs[1],
                        co[2] - offs[2],
                    ) < i {
                        map@[indices@[cell_index(
                            extent,
                            co[0] - offs[0],
                            co[1] - offs[1],
                            co[2] - offs[2],
                        )] as int]
                    } else {
                        init[c]
                    }
                },
        decreases indices@.len() - i,
    {
        let local = indices[i];
        if local as usize >= region_len {
            return Err(SchematicError::Malformed(String::from_str("block state index out of range for its palette")));
        }
        proof {
            lemma_coords_bound(extent, i as int);
        }
        let layer = ex * ez;
        let y = i / layer;
        let rem = i % layer;
        let z = rem / ex;
        let x = rem % ex;
        let ix = x + off[0];
        let iy = y + off[1];
        let iz = z + off[2];
        proof {
            lemma_cell_index_bound(size, ix as int, iy as int, iz as int);
            assert(blocks.len() == n);
        }
        let ir = ix + iz * sx + iy * sx * sz;
        let ghost before = blocks@;
        blocks.set(ir, map[local as usize]);
        proof {
            assert forall|c: int| 0 <= c < blocks@.len() implies {
                let co = cell_coords(size, c);
                #[trigger] blocks@[c] == if covers(extent, offs, co) && cell_index(
                    extent,
                    co[0] - offs[0],
                    co[1] - offs[1],
                    co[2] - offs[2],
                ) < i + 1 {
                    map@[indices@[cell_index(
                        extent,
                        co[0] - offs[0],
                        co[1] - offs[1],
                        co[2] - offs[2],
                    )] as int]
                } else {
                    init[c]
                }
            } by {
                lemma_place_one(size, extent, offs, i as int, c);
            }
        }
        i = i + 1;
    }
    proof {
        assert forall|c: int| 0 <= c < blocks@.len() implies #[trigger] blocks@[c] == write_region(
            init,
            extent,
            indices@,
            map@,
            offs,
            size,
        )[c] by {
            let co = cell_coords(size, c);
            lemma_coords_bound(size, c);
            if covers(extent, offs, co) {
                lemma_cell_index_bound(extent, co[0] - offs[0], co[1] - offs[1], co[2] - offs[2]);
            }
        }
        assert(blocks@ =~= write_region(init, extent, indices@, map@, offs, size));
    }
    Ok(())
}

/// Parse every entry of `Regions`, in order.
fn parse_regions(regions: &Compound) -> (r: Result<Vec<Region>, SchematicError>)
    ensures
        match r {
            Ok(v) => map_all(regions.entries(), |e: (String, Value)| region_entry(e)) matches Ok(ms)
                && v@.len() == ms.len() && forall|k: int| 0 <= k < ms.len() ==> region_is(#[trigger] v@[k], ms[k]),
            Err(e) => map_all(regions.entries(), |e: (String, Value)| region_entry(e)) == Err::<
                Seq<RegionModel>,
                Failure,
            >(e.failure()),
        },
{
    let ghost f = |e: (String, Value)| region_entry(e);
    let n = regions.len();
    let mut parsed: Vec<Region> = Vec::new();
    let mut i: usize = 0;
    while i < n
        invariant
            f == (|e: (String, Value)| region_entry(e)),
            n == regions.entries().len(),
            i <= n,
            parsed@.len() == i,
            forall|j: int| 0 <= j < i ==> f(#[trigger] regions.entries()[j]) is Ok,
            forall|j: int| 0 <= j < i ==> region_is(#[trigger] parsed@[j], f(regions.entries()[j])->Ok_0),
        decreases n - i,
    {
        let (_name, value) = regions.entry(i);
        let res = match value {
            Value::Compound(region) => parse_region(region),
            _ => Err(SchematicError::WrongType("Regions entry")),
        };
        match res {
            Ok(g) => parsed.push(g),
            Err(e) => {
                proof {
                    assert(f(regions.entries()[i as int]) is Err);
                    assert(first_failure_at(regions.entries(), f, i as int));
                    lemma_map_all_err(regions.entries(), f, i as int);
                }
                return Err(e);
            },
        }
        i = i + 1;
    }
    proof {
        lemma_map_all(regions.entries(), f);
    }
    Ok(parsed)
}

/// The merged bounding box is the tightest box around the regions: along
/// each axis every region lies inside it, and some region touches each face.
pub proof fn law_bounding_box(rs: Seq<RegionModel>, a: int)
    requires
        0 <= a < 3,
        forall|k: int| 0 <= k < rs.len() ==> #[trigger] rs[k].start[a] + rs[k].extent[a] <= i64::MAX,
    ensures
        forall|k: int|
            0 <= k < rs.len() ==> low_corner(rs, a) <= (#[trigger] rs[k]).start[a] && rs[k].start[a]
                + rs[k].extent[a] <= high_corner(rs, a),
        rs.len() > 0 ==> exists|k: int| 0 <= k < rs.len() && low_corner(rs, a) == (#[trigger] rs[k]).start[a],
        rs.len() > 0 ==> exists|k: int|
            0 <= k < rs.len() && high_corner(rs, a) == (#[trigger] rs[k]).start[a] + rs[k].extent[a],
    decreases rs.len(),
{
    if rs.len() > 0 {
        let u = rs.drop_last();
        law_bounding_box(u, a);
        assert forall|k: int| 0 <= k < rs.len() implies low_corner(rs, a) <= (#[trigger] rs[k]).start[a]
            && rs[k].start[a] + rs[k].extent[a] <= high_corner(rs, a) by {
            if k < rs.len() - 1 {
                assert(rs[k] == u[k]);
            }
        }
        let last = rs.len() - 1;
        assert(rs[last] == rs.last());
        if u.len() > 0 {
            let k1 = choose|k: int| 0 <= k < u.len() && low_corner(u, a) == (#[trigger] u[k]).start[a];
            let k2 = choose|k: int|
                0 <= k < u.len() && high_corner(u, a) == (#[trigger] u[k]).start[a] + u[k].extent[a];
            assert(rs[k1] == u[k1]);
            assert(rs[k2] == u[k2]);
            if rs.last().start[a] < low_corner(u, a) {
                assert(low_corner(rs, a) == rs[last].start[a]);
            } else {
                assert(low_corner(rs, a) == rs[k1].start[a]);
            }
            if rs.last().start[a] + rs.last().extent[a] > high_corner(u, a) {
                assert(high_corner(rs, a) == rs[last].start[a] + rs[last].extent[a]);
            } else {
                assert(high_corner(rs, a) == rs[k2].start[a] + rs[k2].extent[a]);
            }
        } else {
            assert(low_corner(rs, a) == rs[last].start[a]);
            assert(high_corner(rs, a) == rs[last].start[a] + rs[last].extent[a]);
        }
    }
}

/// The corners of the bounding box of the parsed regions.
fn bounding_box(parsed: &Vec<Region>, Ghost(ms): Ghost<Seq<RegionModel>>) -> (r: ([i64; 3], [i64; 3]))
    requires
        parsed@.len() == ms.len(),
        forall|k: int| 0 <= k < ms.len() ==> region_is(#[trigger] parsed@[k], ms[k]),
        forall|k: int| 0 <= k < ms.len() ==> #[trigger] ms[k].start[0] >= i32::MIN * 2 && ms[k].start[0] <= i32::MAX && ms[k].start[1] >= i32::MIN * 2 && ms[k].start[1] <= i32::MAX && ms[k].start[2] >= i32::MIN * 2 && ms[k].start[2] <= i32::MAX,
    ensures
        forall|a: int| 0 <= a < 3 ==> r.0[a] == low_corner(ms, a) && r.1[a] == high_corner(ms, a),
{
    let mut lo: [i64; 3] = [i64::MAX, i64::MAX, i64::MAX];
    let mut hi: [i64; 3] = [i64::MIN, i64::MIN, i64::MIN];
    let mut k: usize = 0;
    while k < parsed.len()
        invariant
            parsed@.len() == ms.len(),
            forall|k: int| 0 <= k < ms.len() ==> region_is(#[trigger] parsed@[k], ms[k]),
            forall|k: int| 0 <= k < ms.len() ==> #[trigger] ms[k].start[0] >= i32::MIN * 2 && ms[k].start[0] <= i32::MAX && ms[k].start[1] >= i32::MIN * 2 && ms[k].start[1] <= i32::MAX && ms[k].start[2] >= i32::MIN * 2 && ms[k].start[2] <= i32::MAX,
            k <= parsed@.len(),
            forall|a: int| 0 <= a < 3 ==> lo[a] == low_corner(ms.take(k as int), a) && hi[a] == high_corner(ms.take(k as int), a),
        decreases parsed@.len() - k,
    {
        let region = &parsed[k];
        assert(ms.take(k + 1).drop_last() =~= ms.take(k as int));
        let mut a: usize = 0;
        while a < 3
            invariant
                a <= 3,
                region_is(*region, ms[k as int]),
                ms[k as int].start[0] >= i32::MIN * 2 && ms[k as int].start[0] <= i32::MAX && ms[k as int].start[1] >= i32::MIN * 2 && ms[k as int].start[1] <= i32::MAX && ms[k as int].start[2] >= i32::MIN * 2 && ms[k as int].start[2] <= i32::MAX,
                k < ms.len(),
                ms.take(k + 1).drop_last() == ms.take(k as int),
                forall|b: int| 0 <= b < a ==> lo[b] == low_corner(ms.take(k + 1), b) && hi[b] == high_corner(ms.take(k + 1), b),
                forall|b: int| a <= b < 3 ==> lo[b] == low_corner(ms.take(k as int), b) && hi[b] == high_corner(ms.take(k as int), b),
            decreases 3 - a,
        {
            let end = region.start[a] + region.extent[a] as i64;
            if region.start[a] < lo[a] {
                lo[a] = region.start[a];
            }
            if end > hi[a] {
                hi[a] = end;
            }
            a = a + 1;
        }
        k = k + 1;
    }
    assert(ms.take(ms.len() as int) =~= ms);
    (lo, hi)
}

/// The corner and extent of a region come from `i32` sizes and positions.
pub open spec fn span_ok(m: RegionModel) -> bool {
    &&& forall|a: int|
        0 <= a < 3 ==> i32::MIN * 2 <= #[trigger] m.start[a] <= i32::MAX && m.start[a] + m.extent[a]
            <= 0x1_0000_0000
    &&& m.indices.len() == volume_of(m.extent)
    &&& forall|j: int| 0 <= j < m.tiles.len() ==> i32::MIN <= (#[trigger] m.tiles[j]).0[0] <= i32::MAX
        && i32::MIN <= m.tiles[j].0[1] <= i32::MAX && i32::MIN <= m.tiles[j].0[2] <= i32::MAX
}

/// The merged cells always cover the whole bounding box.
proof fn lemma_merged_cells_len(rs: Seq<RegionModel>, k: int, lo: [i64; 3], size: [u32; 3])
    ensures
        merged_cells(rs, k, lo, size).len() == volume_of(size),
    decreases k,
{
    if k > 0 {
        lemma_merged_cells_len(rs, k - 1, lo, size);
    }
}

/// Cells that no region reaches are air: the merged palette starts with
/// `minecraft:air`, and a cell covered by none of the first `k` regions keeps
/// palette index 0.
pub proof fn law_uncovered_cells_are_air(rs: Seq<RegionModel>, k: int, lo: [i64; 3], size: [u32; 3], i: int)
    requires
        0 <= k <= rs.len(),
        0 <= i < volume_of(size),
        forall|j: int|
            0 <= j < k ==> !covers(#[trigger] rs[j].extent, region_offset(rs[j], lo), cell_coords(size, i)),
    ensures
        merged_palette(rs)[0] == air_view(),
        merged_cells(rs, k, lo, size)[i] == 0,
    decreases k,
{
    lemma_merged_palette_starts_with_air(rs);
    if k > 0 {
        law_uncovered_cells_are_air(rs, k - 1, lo, size, i);
        lemma_merged_cells_len(rs, k - 1, lo, size);
        assert(!covers(rs[k - 1].extent, region_offset(rs[k - 1], lo), cell_coords(size, i)));
    }
}

proof fn lemma_merged_palette_starts_with_air(rs: Seq<RegionModel>)
    ensures
        merged_palette(rs).len() >= 1,
        merged_palette(rs)[0] == air_view(),
{
    law_merged_palette_distinct(rs);
}

/// The merged palette holds no block twice, and starts with air.
pub proof fn law_merged_palette_distinct(rs: Seq<RegionModel>)
    ensures
        distinct_views(merged_palette(rs)),
        merged_palette(rs).len() >= 1,
        merged_palette(rs)[0] == air_view(),
    decreases rs.len(),
{
    if rs.len() > 0 {
        law_merged_palette_distinct(rs.drop_last());
        lemma_extend_views(merged_palette(rs.drop_last()), rs.last().palette);
    }
}

proof fn lemma_span_ok(region: Compound)
    ensures
        region_model(region) matches Ok(m) ==> span_ok(m),
{
    if region_model(region) is Ok {
        let m = region_model(region)->Ok_0;
        let tiles_tag = region_tiles(region);
        match region.lookup("TileEntities"@) {
            Some(Value::List(List::Compound(entries))) => {
                lemma_map_all(entries@, |e: Compound| tile_of(e));
                assert forall|j: int| 0 <= j < m.tiles.len() implies i32::MIN <= (#[trigger] m.tiles[j]).0[0] <= i32::MAX
                    && i32::MIN <= m.tiles[j].0[1] <= i32::MAX && i32::MIN <= m.tiles[j].0[2] <= i32::MAX by {
                    assert(tile_of(entries@[j]) is Ok);
                }
            },
            _ => {},
        }
    }
}

proof fn lemma_spans_ok(c: Compound)
    ensures
        map_all(c.entries(), |e: (String, Value)| region_entry(e)) matches Ok(ms) ==> forall|k: int|
            0 <= k < ms.len() ==> span_ok(#[trigger] ms[k]),
{
    let f = |e: (String, Value)| region_entry(e);
    lemma_map_all(c.entries(), f);
    if map_all(c.entries(), f) is Ok {
        let ms = map_all(c.entries(), f)->Ok_0;
        assert forall|k: int| 0 <= k < ms.len() implies span_ok(#[trigger] ms[k]) by {
            assert(f(c.entries()[k]) is Ok);
            match c.entries()[k].1 {
                Value::Compound(r) => lemma_span_ok(r),
                _ => {},
            }
        }
    }
}

/// Move a region's block entities into merged coordinates.
fn place_tiles(
    entities: &mut Vec<([u32; 3], Compound)>,
    tiles: Vec<([i64; 3], Compound)>,
    off: [usize; 3],
)
    requires
        forall|j: int|
            0 <= j < tiles@.len() ==> i32::MIN <= (#[trigger] tiles@[j]).0[0] <= i32::MAX && i32::MIN
                <= tiles@[j].0[1] <= i32::MAX && i32::MIN <= tiles@[j].0[2] <= i32::MAX,
        off[0] <= u32::MAX && off[1] <= u32::MAX && off[2] <= u32::MAX,
    ensures
        final(entities)@ == old(entities)@ + Seq::new(
            tiles@.len(),
            |j: int|
                (
                    [
                        (tiles@[j].0[0] + off[0]) as u32,
                        (tiles@[j].0[1] + off[1]) as u32,
                        (tiles@[j].0[2] + off[2]) as u32,
                    ],
                    tiles@[j].1,
                ),
        ),
{
    let ghost orig = entities@;
    let ghost all = tiles@;
    let total = tiles.len();
    let mut j: usize = 0;
    let mut rest = tiles;
    while rest.len() > 0
        invariant
            j + rest@.len() == all.len(),
            total == all.len(),
            rest@ == all.skip(j as int),
            forall|m: int|
                0 <= m < all.len() ==> i32::MIN <= (#[trigger] all[m]).0[0] <= i32::MAX && i32::MIN
                    <= all[m].0[1] <= i32::MAX && i32::MIN <= all[m].0[2] <= i32::MAX,
            off[0] <= u32::MAX && off[1] <= u32::MAX && off[2] <= u32::MAX,
            entities@ == orig + Seq::new(
                j as nat,
                |m: int|
                    (
                        [
                            (all[m].0[0] + off[0]) as u32,
                            (all[m].0[1] + off[1]) as u32,
                            (all[m].0[2] + off[2]) as u32,
                        ],
                        all[m].1,
                    ),
            ),
        decreases rest@.len(),
    {
        let (coord, nbt) = rest.remove(0);
        assert(all[j as int] == (coord, nbt));
        let bx = #[verifier::truncate] ((coord[0] + off[0] as i64) as u32);
        let by = #[verifier::truncate] ((coord[1] + off[1] as i64) as u32);
        let bz = #[verifier::truncate] ((coord[2] + off[2] as i64) as u32);
        entities.push(([bx, by, bz], nbt));
        j = j + 1;
    }
}

/// Merge one region into the palette, cells and block entities built so far.
fn merge_region(
    palette: &mut Vec<BlockSpec>,
    blocks: &mut Vec<u32>,
    entities: &mut Vec<([u32; 3], Compound)>,
    region: Region,
    lo: [i64; 3],
    size: [u32; 3],
    Ghost(m): Ghost<RegionModel>,
) -> (r: Result<(), SchematicError>)
    requires
        region_is(region, m),
        span_ok(m),
        distinct_views(views(old(palette)@)),
        forall|a: int| 0 <= a < 3 ==> lo[a] <= #[trigger] m.start[a] && m.start[a] + m.extent[a] - lo[a] <= size[a],
        old(blocks)@.len() == volume_of(size),
        forall|c: int| 0 <= c < old(blocks)@.len() ==> #[trigger] old(blocks)@[c] < old(palette)@.len(),
    ensures
        match r {
            Ok(()) => {
                &&& forall|i: int| 0 <= i < m.indices.len() ==> #[trigger] m.indices[i] < m.palette.len()
                &&& views(final(palette)@) == extend_views(views(old(palette)@), m.palette)
                &&& final(blocks)@ == write_region(
                    old(blocks)@,
                    m.extent,
                    m.indices,
                    region_map(views(final(palette)@), m.palette),
                    region_offset(m, lo),
                    size,
                )
                &&& forall|c: int| 0 <= c < final(blocks)@.len() ==> #[trigger] final(blocks)@[c] < final(palette)@.len()
                &&& final(entities)@.len() == old(entities)@.len() + m.tiles.len()
                &&& forall|j: int| 0 <= j < old(entities)@.len() ==> #[trigger] final(entities)@[j] == old(entities)@[j]
                &&& forall|j: int| 0 <= j < m.tiles.len() ==> {
                    let off = region_offset(m, lo);
                    let e = #[trigger] final(entities)@[old(entities)@.len() + j];
                    &&& e.0 == [
                        (m.tiles[j].0[0] + off[0]) as u32,
                        (m.tiles[j].0[1] + off[1]) as u32,
                        (m.tiles[j].0[2] + off[2]) as u32,
                    ]
                    &&& e.1.deep_eq(m.tiles[j].1)
                }
            },
            Err(e) => e is Malformed && exists|i: int| 0 <= i < m.indices.len() && #[trigger] m.indices[i] >= m.palette.len(),
        },
{
    let Region { start, extent, palette: rp, indices, tiles } = region;
    let region_len = rp.len();
    let ghost old_len = palette@.len();
    let map = merge_palette(palette, rp, Ghost(m.palette));
    let off: [usize; 3] = [(start[0] - lo[0]) as usize, (start[1] - lo[1]) as usize, (start[2] - lo[2]) as usize];
    assert(m.start[0] == start[0] && m.start[1] == start[1] && m.start[2] == start[2]);
    let ghost before = blocks@;
    match place_region(blocks, extent, &indices, region_len, &map, off, size) {
        Ok(()) => {},
        Err(e) => {
            return Err(e);
        },
    }
    assert(region_offset(m, lo) == [off[0] as int, off[1] as int, off[2] as int]);
    place_tiles(entities, tiles, off);
    proof {
        lemma_extend_views(views(old(palette)@), m.palette);
        assert(views(palette@).len() == palette@.len());
        assert(palette@.len() >= old_len);
        assert forall|c: int| 0 <= c < blocks@.len() implies #[trigger] blocks@[c] < palette@.len() by {
            let co = cell_coords(size, c);
            assert(blocks@[c] == write_region(before, extent, indices@, map@, [off[0] as int, off[1] as int, off[2] as int], size)[c]);
            if covers(extent, [off[0] as int, off[1] as int, off[2] as int], co) {
                lemma_coords_bound(size, c);
                lemma_cell_index_bound(extent, co[0] - off[0], co[1] - off[1], co[2] - off[2]);
                let li = cell_index(extent, co[0] - off[0], co[1] - off[1], co[2] - off[2]);
                assert(indices@[li] < region_len);
                assert(map@[indices@[li] as int] < palette@.len());
            } else {
                assert(before[c] < old_len);
            }
        }
    }
    Ok(())
}

/// The palette, cells and block entities built from the first `k` regions.
spec fn built(
    palette: Seq<BlockSpec>,
    blocks: Seq<u32>,
    entities: Seq<([u32; 3], Compound)>,
    ms: Seq<RegionModel>,
    k: int,
    lows: [i64; 3],
    size: [u32; 3],
) -> bool {
    &&& views(palette) == merged_palette(ms.take(k))
    &&& blocks == merged_cells(ms, k, lows, size)
    &&& forall|c: int| 0 <= c < blocks.len() ==> #[trigger] blocks[c] < palette.len()
    &&& same_entities(entities, merged_entities(ms, k, lows))
    &&& forall|j: int, i: int| 0 <= j < k && 0 <= i < ms[j].indices.len() ==> #[trigger] ms[j].indices[i] < ms[j].palette.len()
}

proof fn lemma_built_step(
    palette: Seq<BlockSpec>,
    blocks: Seq<u32>,
    entities: Seq<([u32; 3], Compound)>,
    palette2: Seq<BlockSpec>,
    blocks2: Seq<u32>,
    entities2: Seq<([u32; 3], Compound)>,
    ms: Seq<RegionModel>,
    k: int,
    lows: [i64; 3],
    size: [u32; 3],
)
    requires
        0 <= k < ms.len(),
        built(palette, blocks, entities, ms, k, lows, size),
        forall|i: int| 0 <= i < ms[k].indices.len() ==> #[trigger] ms[k].indices[i] < ms[k].palette.len(),
        views(palette2) == extend_views(views(palette), ms[k].palette),
        blocks2 == write_region(blocks, ms[k].extent, ms[k].indices, region_map(views(palette2), ms[k].palette), region_offset(ms[k], lows), size),
        forall|c: int| 0 <= c < blocks2.len() ==> #[trigger] blocks2[c] < palette2.len(),
        entities2.len() == entities.len() + ms[k].tiles.len(),
        forall|j: int| 0 <= j < entities.len() ==> #[trigger] entities2[j] == entities[j],
        forall|j: int| 0 <= j < ms[k].tiles.len() ==> {
            let off = region_offset(ms[k], lows);
            let e = #[trigger] entities2[entities.len() + j];
            &&& e.0 == [
                (ms[k].tiles[j].0[0] + off[0]) as u32,
                (ms[k].tiles[j].0[1] + off[1]) as u32,
                (ms[k].tiles[j].0[2] + off[2]) as u32,
            ]
            &&& e.1.deep_eq(ms[k].tiles[j].1)
        },
    ensures
        built(palette2, blocks2, entities2, ms, k + 1, lows, size),
{
    let m = ms[k];
    assert(ms.take(k + 1).drop_last() =~= ms.take(k));
    assert(ms.take(k + 1).last() == m);
    let mp = merged_palette(ms.take(k + 1));
    assert(mp == extend_views(merged_palette(ms.take(k)), m.palette));
    assert(views(palette2) == mp);
    let me = merged_entities(ms, k + 1, lows);
    assert forall|j: int| 0 <= j < entities2.len() implies (#[trigger] entities2[j]).0 == me[j].0 && entities2[j].1.deep_eq(me[j].1) by {
        if j >= entities.len() {
            let t = j - entities.len();
            assert(entities2[entities.len() + t] == entities2[j]);
        }
    }
}

/// The bounding box holds every region, and its corners come from `i32`
/// sizes and positions.
proof fn lemma_box(ms: Seq<RegionModel>, lo: [i64; 3], hi: [i64; 3])
    requires
        ms.len() > 0,
        forall|j: int| 0 <= j < ms.len() ==> span_ok(#[trigger] ms[j]),
        forall|a: int| 0 <= a < 3 ==> lo[a] == low_corner(ms, a) && hi[a] == high_corner(ms, a),
    ensures
        forall|a: int| 0 <= a < 3 ==> i32::MIN * 2 <= #[trigger] lo[a] && hi[a] <= 0x1_0000_0000,
        forall|j: int, a: int|
            0 <= j < ms.len() && 0 <= a < 3 ==> lo[a] <= #[trigger] ms[j].start[a] && ms[j].start[a]
                + ms[j].extent[a] <= hi[a],
{
    assert forall|a: int| 0 <= a < 3 implies i32::MIN * 2 <= #[trigger] lo[a] && hi[a] <= 0x1_0000_0000 by {
        law_bounding_box(ms, a);
        let k = choose|k: int| 0 <= k < ms.len() && low_corner(ms, a) == (#[trigger] ms[k]).start[a];
        let h = choose|k: int| 0 <= k < ms.len() && high_corner(ms, a) == (#[trigger] ms[k]).start[a] + ms[k].extent[a];
        assert(span_ok(ms[k]) && span_ok(ms[h]));
    }
    assert forall|j: int, a: int|
        0 <= j < ms.len() && 0 <= a < 3 implies lo[a] <= #[trigger] ms[j].start[a] && ms[j].start[a]
            + ms[j].extent[a] <= hi[a] by {
        law_bounding_box(ms, a);
        assert(span_ok(ms[j]));
    }
}

/// Parse a Litematica root compound. The merged palette holds no block twice.
#[verifier::rlimit(60)]
pub fn parse(root: &Compound) -> (r: Result<Schematic, SchematicError>)
    ensures
        match r {
            Ok(s) => litematica_model(*root) matches Ok(m) && s.models(m),
            Err(e) => litematica_model(*root) == Err::<SchematicModel, Failure>(e.failure()),
        },
        r matches Ok(s) ==> distinct_views(views(s.palette_seq())),
{
    let regions = match root.get("Regions") {
        Some(Value::Compound(c)) => c,
        Some(_) => return Err(SchematicError::WrongType("Regions")),
        None => return Err(SchematicError::MissingTag("Regions")),
    };
    let parsed = parse_regions(regions)?;
    let ghost ms = map_all(regions.entries(), |e: (String, Value)| region_entry(e))->Ok_0;
    assert(litematica_model(*root) == merge_model(ms));
    if parsed.len() == 0 {
        return Err(SchematicError::Malformed(String::from_str("litematica has no regions")));
    }
    proof {
        lemma_spans_ok(*regions);
        law_bounding_box(ms, 0);
        law_bounding_box(ms, 1);
        law_bounding_box(ms, 2);
    }
    let (lo, hi) = bounding_box(&parsed, Ghost(ms));
    proof {
        lemma_box(ms, lo, hi);
    }
    if hi[0] - lo[0] > 0xffff_ffff || hi[1] - lo[1] > 0xffff_ffff || hi[2] - lo[2] > 0xffff_ffff {
        return Err(SchematicError::Malformed(String::from_str("litematica bounding box too large")));
    }
    let size: [u32; 3] = [(hi[0] - lo[0]) as u32, (hi[1] - lo[1]) as u32, (hi[2] - lo[2]) as u32];
    assert(size[0] as u64 * size[1] as u64 <= 0xffff_ffff_ffff_ffffu64) by (nonlinear_arith)
        requires
            size[0] <= 0xffff_ffffu32,
            size[1] <= 0xffff_ffffu32,
    ;
    let xy: u64 = size[0] as u64 * size[1] as u64;
    assert(xy * size[2] <= 0xffff_ffff_ffff_ffffu128 * 0xffff_ffffu128) by (nonlinear_arith)
        requires
            xy <= 0xffff_ffff_ffff_ffffu64,
            size[2] <= 0xffff_ffffu32,
    ;
    let volume_wide: u128 = xy as u128 * size[2] as u128;
    if volume_wide > usize::MAX as u128 {
        return Err(SchematicError::Malformed(String::from_str("litematica too large")));
    }
    let r = merge_regions(parsed, lo, hi, size, volume_wide as usize, Ghost(ms));
    proof {
        law_merged_palette_distinct(ms);
        if r is Ok {
            let s = r->Ok_0;
            assert(views(s.palette_seq()) =~= merged_palette(ms));
        }
    }
    r
}

/// Merge the parsed regions into one schematic over the bounding box
/// `lo..hi` of dimensions `size`.
#[verifier::rlimit(60)]
fn merge_regions(
    parsed: Vec<Region>,
    lo: [i64; 3],
    hi: [i64; 3],
    size: [u32; 3],
    volume: usize,
    Ghost(ms): Ghost<Seq<RegionModel>>,
) -> (r: Result<Schematic, SchematicError>)
    requires
        parsed@.len() == ms.len(),
        ms.len() > 0,
        forall|j: int| 0 <= j < ms.len() ==> region_is(#[trigger] parsed@[j], ms[j]),
        forall|j: int| 0 <= j < ms.len() ==> span_ok(#[trigger] ms[j]),
        forall|a: int| 0 <= a < 3 ==> lo[a] == low_corner(ms, a) && hi[a] == high_corner(ms, a),
        forall|j: int, a: int| 0 <= j < ms.len() && 0 <= a < 3 ==> lo[a] <= #[trigger] ms[j].start[a] && ms[j].start[a] + ms[j].extent[a] <= hi[a],
        hi[0] - lo[0] <= 0xffff_ffff && hi[1] - lo[1] <= 0xffff_ffff && hi[2] - lo[2] <= 0xffff_ffff,
        size == [(hi[0] - lo[0]) as u32, (hi[1] - lo[1]) as u32, (hi[2] - lo[2]) as u32],
        volume == volume_of(size),
    ensures
        match r {
            Ok(s) => merge_model(ms) matches Ok(m) && s.models(m),
            Err(e) => merge_model(ms) == Err::<SchematicModel, Failure>(e.failure()),
        },
{
    let mut parsed = parsed;
    let mut palette: Vec<BlockSpec> = Vec::new();
    palette.push(air_block());
    let mut blocks: Vec<u32> = vec![0u32; volume];
    let mut block_entities: Vec<([u32; 3], Compound)> = Vec::new();
    let ghost lows = [lo[0], lo[1], lo[2]];
    assert(merged_palette(ms.take(0)) =~= seq![air_view()]);
    assert(views(palette@) =~= seq![air_view()]);
    assert(blocks@ =~= merged_cells(ms, 0, lows, size));
    assert(merged_entities(ms, 0, lows) =~= Seq::<([u32; 3], Compound)>::empty());
    assert(built(palette@, blocks@, block_entities@, ms, 0, lows, size));
    let n = parsed.len();
    let ghost orig = parsed@;
    let mut k: usize = 0;
    while k < n
        invariant
            n == ms.len(),
            n == orig.len(),
            k <= n,
            parsed@ == orig.skip(k as int),
            forall|j: int| 0 <= j < ms.len() ==> region_is(#[trigger] orig[j], ms[j]),
            forall|j: int| 0 <= j < ms.len() ==> span_ok(#[trigger] ms[j]),
            lows == [lo[0], lo[1], lo[2]],
            forall|a: int| 0 <= a < 3 ==> lo[a] == low_corner(ms, a) && hi[a] == high_corner(ms, a),
            forall|j: int, a: int| 0 <= j < ms.len() && 0 <= a < 3 ==> lo[a] <= #[trigger] ms[j].start[a] && ms[j].start[a] + ms[j].extent[a] <= hi[a],
            size == [(hi[0] - lo[0]) as u32, (hi[1] - lo[1]) as u32, (hi[2] - lo[2]) as u32],
            hi[0] - lo[0] <= 0xffff_ffff && hi[1] - lo[1] <= 0xffff_ffff && hi[2] - lo[2] <= 0xffff_ffff,
            volume_of(size) <= usize::MAX,
            ms.len() > 0,
            built(palette@, blocks@, block_entities@, ms, k as int, lows, size),
        decreases n - k,
    {
        let region = parsed.remove(0);
        assert(region == orig[k as int]);
        let ghost m = ms[k as int];
        let ghost old_entities = block_entities@;
        let ghost old_palette = palette@;
        let ghost old_blocks = blocks@;
        proof {
            lemma_merged_cells_len(ms, k as int, lows, size);
            assert(forall|a: int| 0 <= a < 3 ==> lo[a] <= #[trigger] m.start[a] && m.start[a] + m.extent[a] - lo[a] <= size[a]);
        }
        proof {
            law_merged_palette_distinct(ms.take(k as int));
        }
        match merge_region(&mut palette, &mut blocks, &mut block_entities, region, lo, size, Ghost(m)) {
            Ok(()) => {},
            Err(e) => {
                proof {
                    let i = choose|i: int| 0 <= i < m.indices.len() && #[trigger] m.indices[i] >= m.palette.len();
                    assert(ms[k as int].indices[i] >= ms[k as int].palette.len());
                    assert(!indices_in_range(ms));
                }
                return Err(e);
            },
        }
        proof {
            lemma_built_step(old_palette, old_blocks, old_entities, palette@, blocks@, block_entities@, ms, k as int, lows, size);
        }
        k = k + 1;
    }
    proof {
        assert(ms.take(n as int) =~= ms);
        assert(indices_in_range(ms));
        lemma_merged_cells_len(ms, n as int, lows, size);
        assert(lows == [low_corner(ms, 0), low_corner(ms, 1), low_corner(ms, 2)]);
    }
    match Schematic::new(size, palette, blocks, block_entities, [0, 0, 0]) {
        Some(s) => Ok(s),
        None => Err(SchematicError::Malformed(String::from_str("litematica produced inconsistent dimensions"))),
    }
}

} // verus!
