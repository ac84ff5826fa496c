//! Vanilla structure block `.nbt` loader.
//!
//! Handles the format written by structure blocks and the `/structure` command.
//! The root holds a `size` triple, a `palette` (or multi-variant `palettes`) of
//! block states, and a `blocks` list pairing each cell's palette index with its
//! relative position and optional block-entity NBT.
use vstd::prelude::*;
use vstd::string::StringExecFns;

use crate::block::{
    air_block, block_view, compound_props, is_air, last_at, names_air, namespace_stripped, resolve_from_compound, BlockSpec,
    BlockView,
};
use crate::error::{Failure, SchematicError};
use crate::nbt::{Compound, List, Value};
use crate::palette::{dedup_parts, deduped, distinct_views, views as palette_views};
use crate::outcome::{first_failure_at, lemma_map_all, lemma_map_all_err, lemma_map_all_ok, map_all, outcome};
use crate::schematic::{cell_index, in_bounds, lemma_cell_index_bound, same_entities, volume_of, Schematic, SchematicModel};

verus! {

broadcast use vstd::string::group_string_axioms;

/// An `[x, y, z]` triple stored as an `Int` list or an `IntArray` of length 3.
pub open spec fn xyz_tag(v: Value, ctx: Seq<char>) -> Result<[i32; 3], Failure> {
    let s = match v {
        Value::List(List::Int(a)) => Some(a@),
        Value::IntArray(a) => Some(a@),
        _ => None,
    };
    match s {
        None => Err(Failure::WrongType(ctx)),
        Some(s) => if s.len() == 3 {
            Ok([s[0], s[1], s[2]])
        } else {
            Err(Failure::Malformed)
        },
    }
}

/// Read an `[x, y, z]` triple stored as either an `Int` list or an `IntArray`.
fn read_xyz(value: &Value, ctx: &'static str) -> (r: Result<[i32; 3], SchematicError>)
    ensures
        outcome(r) == xyz_tag(*value, ctx@),
{
    let slice: &Vec<i32> = match value {
        Value::List(List::Int(v)) => v,
        Value::IntArray(v) => v,
        _ => return Err(SchematicError::WrongType(ctx)),
    };
    if slice.len() != 3 {
        let mut msg = String::from_str("`");
        msg.append(ctx);
        msg.append("` must have length 3");
        return Err(SchematicError::Malformed(msg));
    }
    Ok([slice[0], slice[1], slice[2]])
}

/// The elements of a list of compounds; an empty list of any other type
/// counts as none.
pub open spec fn compound_elements(l: List) -> Option<Seq<Compound>> {
    match l {
        List::Compound(v) => Some(v@),
        List::End => Some(Seq::empty()),
        _ => None,
    }
}

/// The active palette list: the singular `palette`, else the first variant of
/// a plural `palettes`.
pub open spec fn palette_list(root: Compound) -> Result<Seq<Compound>, Failure> {
    match root.lookup("palette"@) {
        Some(Value::List(l)) => match compound_elements(l) {
            Some(v) => Ok(v),
            None => Err(Failure::WrongType("palette"@)),
        },
        Some(_) => Err(Failure::WrongType("palette"@)),
        None => match root.lookup("palettes"@) {
            Some(Value::List(List::List(variants))) => if variants@.len() == 0 {
                Err(Failure::Malformed)
            } else {
                match compound_elements(variants@[0]) {
                    Some(v) => Ok(v),
                    None => Err(Failure::WrongType("palettes"@)),
                }
            },
            Some(_) => Err(Failure::WrongType("palettes"@)),
            None => Err(Failure::MissingTag("palette"@)),
        },
    }
}

/// Resolve the active palette list, preferring the singular `palette` and
/// falling back to the first variant of a plural `palettes`.
fn palette_entries(root: &Compound) -> (r: Result<&[Compound], SchematicError>)
    ensures
        match r {
            Ok(s) => palette_list(*root) == Ok::<Seq<Compound>, Failure>(s@),
            Err(e) => palette_list(*root) == Err::<Seq<Compound>, Failure>(e.failure()),
        },
{
    if let Some(value) = root.get("palette") {
        let list = match value {
            Value::List(l) => l,
            _ => return Err(SchematicError::WrongType("palette")),
        };
        return match list {
            List::Compound(v) => Ok(v.as_slice()),
            List::End => {
                let e: &[Compound] = &[];
                assert(e@ =~= Seq::<Compound>::empty());
                Ok(e)
            },
            _ => Err(SchematicError::WrongType("palette")),
        };
    }
    if let Some(value) = root.get("palettes") {
        let variants = match value {
            Value::List(List::List(variants)) => variants,
            _ => return Err(SchematicError::WrongType("palettes")),
        };
        if variants.len() == 0 {
            return Err(SchematicError::Malformed(String::from_str("`palettes` is empty")));
        }
        let first = &variants[0];
        return match first {
            List::Compound(v) => Ok(v.as_slice()),
            List::End => {
                let e: &[Compound] = &[];
                assert(e@ =~= Seq::<Compound>::empty());
                Ok(e)
            },
            _ => Err(SchematicError::WrongType("palettes")),
        };
    }
    Err(SchematicError::MissingTag("palette"))
}

/// The block a palette entry `{ Name: String, Properties?: Compound }` names.
pub open spec fn entry_block(entry: Compound) -> Result<BlockView, Failure> {
    match entry.lookup("Name"@) {
        Some(Value::Str(name)) => match entry.lookup("Properties"@) {
            Some(Value::Compound(props)) => match compound_props(props) {
                Some(ps) => Ok((name@, ps)),
                None => Err(Failure::WrongType("Properties value"@)),
            },
            Some(_) => Err(Failure::WrongType("Properties"@)),
            None => Ok((name@, Seq::empty())),
        },
        Some(_) => Err(Failure::WrongType("Name"@)),
        None => Err(Failure::MissingTag("Name"@)),
    }
}

/// Resolve one palette entry (`{ Name: String, Properties?: Compound }`).
pub fn resolve_entry(entry: &Compound) -> (r: Result<BlockSpec, SchematicError>)
    ensures
        match r {
            Ok(b) => entry_block(*entry) == Ok::<BlockView, Failure>(block_view(b)),
            Err(e) => entry_block(*entry) == Err::<BlockView, Failure>(e.failure()),
        },
{
    let name = match entry.get("Name") {
        Some(Value::Str(name)) => name.as_str(),
        Some(_) => return Err(SchematicError::WrongType("Name")),
        None => return Err(SchematicError::MissingTag("Name")),
    };
    let properties = match entry.get("Properties") {
        Some(Value::Compound(props)) => Some(props),
        Some(_) => return Err(SchematicError::WrongType("Properties")),
        None => None,
    };
    resolve_from_compound(name, properties)
}

/// The blocks of a list of palette entries, or the first entry's error.
pub fn resolve_entries(entries: &[Compound]) -> (r: Result<Vec<BlockSpec>, SchematicError>)
    ensures
        match r {
            Ok(v) => map_all(entries@, |c: Compound| entry_block(c)) matches Ok(p) && v@.len()
                == p.len() && forall|j: int| 0 <= j < p.len() ==> block_view(#[trigger] v@[j]) == p[j],
            Err(e) => map_all(entries@, |c: Compound| entry_block(c)) == Err::<Seq<BlockView>, Failure>(
                e.failure(),
            ),
        },
{
    let ghost f = |c: Compound| entry_block(c);
    let mut out: Vec<BlockSpec> = Vec::new();
    let mut i: usize = 0;
    while i < entries.len()
        invariant
            f == (|c: Compound| entry_block(c)),
            i <= entries@.len(),
            out@.len() == i,
            forall|j: int| 0 <= j < i ==> f(#[trigger] entries@[j]) is Ok,
            forall|j: int| 0 <= j < i ==> Ok::<BlockView, Failure>(block_view(#[trigger] out@[j])) == f(entries@[j]),
        decreases entries@.len() - i,
    {
        match resolve_entry(&entries[i]) {
            Ok(b) => out.push(b),
            Err(e) => {
                proof {
                    assert(f(entries@[i as int]) is Err);
                    assert(first_failure_at(entries@, f, i as int));
                    lemma_map_all_err(entries@, f, i as int);
                }
                return Err(e);
            },
        }
        i = i + 1;
    }
    proof {
        lemma_map_all_ok(entries@, f);
    }
    Ok(out)
}

/// The default block view, `minecraft:air` without properties.
pub open spec fn air_view() -> BlockView {
    ("minecraft:air"@, Seq::empty())
}

/// `i` is the first palette position that names air.
pub open spec fn first_air_at(p: Seq<BlockView>, i: int) -> bool {
    &&& 0 <= i < p.len()
    &&& names_air(p[i])
    &&& forall|j: int| 0 <= j < i ==> !names_air(#[trigger] p[j])
}

/// The palette with an air entry, and that entry's index: the first entry
/// that names air, else a new `minecraft:air` entry at the end.
pub open spec fn with_air(p: Seq<BlockView>) -> (Seq<BlockView>, u32) {
    if exists|i: int| first_air_at(p, i) {
        (p, (choose|i: int| first_air_at(p, i)) as u32)
    } else {
        (p.push(air_view()), p.len() as u32)
    }
}

/// Ensure `minecraft:air` is in `palette` (reusing an existing entry),
/// returning its index for use as the default fill of omitted cells.
pub fn ensure_air(palette: &mut Vec<BlockSpec>) -> (r: Result<u32, SchematicError>)
    ensures
        r matches Ok(idx) && idx == with_air(old(palette)@.map_values(|b: BlockSpec| block_view(b))).1,
        final(palette)@.len() == with_air(old(palette)@.map_values(|b: BlockSpec| block_view(b))).0.len(),
        forall|j: int|
            0 <= j < final(palette)@.len() ==> block_view(#[trigger] final(palette)@[j]) == with_air(
                old(palette)@.map_values(|b: BlockSpec| block_view(b)),
            ).0[j],
{
    let ghost listed = palette@.map_values(|b: BlockSpec| block_view(b));
    let mut i: usize = 0;
    while i < palette.len()
        invariant
            palette@ == old(palette)@,
            listed == old(palette)@.map_values(|b: BlockSpec| block_view(b)),
            i <= palette@.len(),
            forall|j: int| 0 <= j < i ==> !names_air(#[trigger] listed[j]),
        decreases palette@.len() - i,
    {
        if is_air(&palette[i]) {
            proof {
                assert(first_air_at(listed, i as int));
                let c = choose|c: int| first_air_at(listed, c);
                if c < i {
                    assert(!names_air(listed[c]));
                } else if c > i {
                    assert(names_air(listed[i as int]));
                }
            }
            return Ok(i as u32);
        }
        i = i + 1;
    }
    proof {
        if exists|c: int| first_air_at(listed, c) {
            let c = choose|c: int| first_air_at(listed, c);
            assert(names_air(listed[c]));
        }
    }
    let idx = palette.len() as u32;
    palette.push(air_block());
    Ok(idx)
}

/// The dimensions under `size`: an `[x, y, z]` triple of non-negative ints.
pub open spec fn size_tag(root: Compound) -> Result<[u32; 3], Failure> {
    match root.lookup("size"@) {
        None => Err(Failure::MissingTag("size"@)),
        Some(v) => match xyz_tag(v, "size"@) {
            Err(e) => Err(e),
            Ok(s) => if s[0] < 0 || s[1] < 0 || s[2] < 0 {
                Err(Failure::Malformed)
            } else {
                Ok([s[0] as u32, s[1] as u32, s[2] as u32])
            },
        },
    }
}

/// The `[x, y, z]` components of a structure's `size` tag, as stored.
pub open spec fn raw_size(root: Compound) -> Option<Seq<i32>> {
    match root.lookup("size"@) {
        Some(Value::List(List::Int(a))) => Some(a@),
        Some(Value::IntArray(a)) => Some(a@),
        _ => None,
    }
}

/// A structure's dimensions are its `size` tag's components in order: a
/// three-component, non-negative `size` is read as `[x, y, z]`, and a
/// successful load has exactly those dimensions.
pub proof fn law_structure_size(root: Compound)
    ensures
        raw_size(root) matches Some(a) ==> (a.len() == 3 && a[0] >= 0 && a[1] >= 0 && a[2] >= 0 ==> size_tag(root)
            == Ok::<[u32; 3], Failure>([a[0] as u32, a[1] as u32, a[2] as u32])),
        structure_model(root) matches Ok(m) ==> (raw_size(root) matches Some(a) && a.len() == 3 && a[0] >= 0
            && a[1] >= 0 && a[2] >= 0 && m.size == [a[0] as u32, a[1] as u32, a[2] as u32]),
{
}

/// An entry of `blocks` whose state indexes the palette and whose `pos`
/// `[x, y, z]` lies inside the size is accepted, and writes its state at the
/// cell of `(x, y, z)`.
pub proof fn law_structure_entry_placed(e: Compound, size: [u32; 3], palette_len: int, st: i32, x: i32, y: i32, z: i32)
    requires
        e.lookup("state"@) == Some(Value::Int(st)),
        0 <= st < palette_len,
        (e.lookup("pos"@) matches Some(Value::IntArray(a)) && a@ == seq![x, y, z]) || (e.lookup("pos"@) matches Some(
            Value::List(List::Int(a)),
        ) && a@ == seq![x, y, z]),
        0 <= x < size[0],
        0 <= y < size[1],
        0 <= z < size[2],
        e.lookup("nbt"@) is None,
    ensures
        structure_entry(e, size, palette_len) matches Ok(p) && p.cell == cell_index(size, x as int, y as int, z as int)
            && p.state == st as u32 && p.pos == [x as u32, y as u32, z as u32],
{
    let pv = e.lookup("pos"@)->0;
    assert(xyz_tag(pv, "pos"@) == Ok::<[i32; 3], Failure>([x, y, z]));
}

/// The `blocks` list.
pub open spec fn blocks_list(root: Compound) -> Result<Seq<Compound>, Failure> {
    match root.lookup("blocks"@) {
        None => Err(Failure::MissingTag("blocks"@)),
        Some(Value::List(l)) => match compound_elements(l) {
            Some(v) => Ok(v),
            None => Err(Failure::WrongType("blocks"@)),
        },
        Some(_) => Err(Failure::WrongType("blocks"@)),
    }
}

/// One entry of a structure's `blocks` list: the cell it writes, the palette
/// index it writes there, its position, and its block entity if it has one.
pub struct Placement {
    pub cell: int,
    pub state: u32,
    pub pos: [u32; 3],
    pub nbt: Option<Compound>,
}

/// What an entry of `blocks` places, or why it is rejected.
pub open spec fn structure_entry(e: Compound, size: [u32; 3], palette_len: int) -> Result<Placement, Failure> {
    match e.lookup("state"@) {
        None => Err(Failure::MissingTag("state"@)),
        Some(Value::Int(si)) => if si < 0 || si >= palette_len {
            Err(Failure::Malformed)
        } else {
            match e.lookup("pos"@) {
                None => Err(Failure::MissingTag("pos"@)),
                Some(pv) => match xyz_tag(pv, "pos"@) {
                    Err(f) => Err(f),
                    Ok(p) => if p[0] < 0 || p[1] < 0 || p[2] < 0 {
                        Err(Failure::Malformed)
                    } else if !in_bounds(size, p[0] as int, p[1] as int, p[2] as int) {
                        Err(Failure::Malformed)
                    } else {
                        let nbt = match e.lookup("nbt"@) {
                            None => Ok(None),
                            Some(Value::Compound(c)) => Ok(Some(c)),
                            Some(_) => Err(Failure::WrongType("nbt"@)),
                        };
                        match nbt {
                            Err(f) => Err(f),
                            Ok(nbt) => Ok(
                                Placement {
                                    cell: cell_index(size, p[0] as int, p[1] as int, p[2] as int),
                                    state: si as u32,
                                    pos: [p[0] as u32, p[1] as u32, p[2] as u32],
                                    nbt,
                                },
                            ),
                        }
                    },
                },
            }
        },
        Some(_) => Err(Failure::WrongType("state"@)),
    }
}

/// The cells after each placement writes its state, later ones overwriting
/// earlier ones.
pub open spec fn apply_placements(init: Seq<u32>, ps: Seq<Placement>) -> Seq<u32>
    decreases ps.len(),
{
    if ps.len() == 0 {
        init
    } else {
        apply_placements(init, ps.drop_last()).update(ps.last().cell, ps.last().state)
    }
}

/// Cells that no entry of `blocks` names keep the fill they started with.
pub proof fn law_unplaced_cells_keep_the_fill(init: Seq<u32>, ps: Seq<Placement>, i: int)
    requires
        0 <= i < init.len(),
        forall|j: int| 0 <= j < ps.len() ==> 0 <= #[trigger] ps[j].cell < init.len(),
        forall|j: int| 0 <= j < ps.len() ==> #[trigger] ps[j].cell != i,
    ensures
        apply_placements(init, ps).len() == init.len(),
        apply_placements(init, ps)[i] == init[i],
    decreases ps.len(),
{
    if ps.len() > 0 {
        let u = ps.drop_last();
        assert forall|j: int| 0 <= j < u.len() implies 0 <= #[trigger] u[j].cell < init.len() && u[j].cell != i by {
            assert(u[j] == ps[j]);
        }
        law_unplaced_cells_keep_the_fill(init, u, i);
        assert(ps.last() == ps[ps.len() - 1]);
    }
}

/// The fill is air: the palette keeps its entries, gaining `minecraft:air`
/// at the end only where no entry names air, and the fill index names air.
pub proof fn law_fill_is_air(p: Seq<BlockView>)
    requires
        p.len() < u32::MAX,
    ensures
        with_air(p).1 < with_air(p).0.len(),
        names_air(with_air(p).0[with_air(p).1 as int]),
        with_air(p).0 == p || with_air(p).0 == p.push(air_view()),
{
    if exists|i: int| first_air_at(p, i) {
        let i = choose|i: int| first_air_at(p, i);
        assert(first_air_at(p, i));
    } else {
        reveal_strlit("minecraft:air");
        reveal_strlit("air");
        assert(last_at(air_view().0, ':', 9));
        let k = choose|k: int| last_at(air_view().0, ':', k);
        assert(k == 9);
        assert(namespace_stripped(air_view().0) =~= "air"@);
    }
}

/// The block entities of the placements that carry one, in order.
pub open spec fn placed_entities(ps: Seq<Placement>) -> Seq<([u32; 3], Compound)>
    decreases ps.len(),
{
    if ps.len() == 0 {
        Seq::empty()
    } else {
        let rest = placed_entities(ps.drop_last());
        match ps.last().nbt {
            Some(c) => rest.push((ps.last().pos, c)),
            None => rest,
        }
    }
}

/// The schematic that the `blocks` list builds over the given palette, or
/// the first entry's error.
pub open spec fn structure_blocks(size: [u32; 3], palette: Seq<BlockView>, air: u32, list: Seq<Compound>) -> Result<SchematicModel, Failure> {
    match map_all(list, |e: Compound| structure_entry(e, size, palette.len() as int)) {
        Err(e) => Err(e),
        Ok(ps) => Ok(
            SchematicModel {
                size,
                palette,
                cells: apply_placements(Seq::new(volume_of(size) as nat, |i: int| air), ps),
                entities: placed_entities(ps),
                offset: [0, 0, 0],
            },
        ),
    }
}

/// The schematic a structure file lists, palette entries as the file gives
/// them, or how loading it fails.
pub open spec fn structure_listed(root: Compound) -> Result<SchematicModel, Failure> {
    match size_tag(root) {
        Err(e) => Err(e),
        Ok(size) => match palette_list(root) {
            Err(e) => Err(e),
            Ok(entries) => match map_all(entries, |c: Compound| entry_block(c)) {
                Err(e) => Err(e),
                Ok(views) => {
                    let (palette, air) = with_air(views);
                    if volume_of(size) > usize::MAX {
                        Err(Failure::Malformed)
                    } else {
                        match blocks_list(root) {
                            Err(e) => Err(e),
                            Ok(list) => structure_blocks(size, palette, air, list),
                        }
                    }
                },
            },
        },
    }
}

/// Check one entry of `blocks`: the cell it writes, the palette index it
/// writes there, its position and its block entity.
fn read_block_entry<'a>(entry: &'a Compound, size: [u32; 3], palette_len: usize) -> (r: Result<
    (usize, u32, [u32; 3], Option<&'a Compound>),
    SchematicError,
>)
    requires
        volume_of(size) <= usize::MAX,
    ensures
        match r {
            Ok(t) => structure_entry(*entry, size, palette_len as int) matches Ok(p) && p.cell
                == t.0 && p.state == t.1 && p.pos == t.2 && p.cell < volume_of(size) && match t.3 {
                Some(c) => p.nbt == Some(*c),
                None => p.nbt is None,
            },
            Err(e) => structure_entry(*entry, size, palette_len as int) == Err::<Placement, Failure>(
                e.failure(),
            ),
        },
{
    let state_index = match entry.get("state") {
        Some(Value::Int(index)) => *index,
        Some(_) => return Err(SchematicError::WrongType("state")),
        None => return Err(SchematicError::MissingTag("state")),
    };
    if state_index < 0 || state_index as usize >= palette_len {
        return Err(SchematicError::Malformed(String::from_str("palette index out of range")));
    }
    let pos_value = match entry.get("pos") {
        Some(v) => v,
        None => return Err(SchematicError::MissingTag("pos")),
    };
    let pos = read_xyz(pos_value, "pos")?;
    if pos[0] < 0 || pos[1] < 0 || pos[2] < 0 {
        return Err(SchematicError::Malformed(String::from_str("negative block position")));
    }
    let x = pos[0] as u32;
    let y = pos[1] as u32;
    let z = pos[2] as u32;
    if x >= size[0] || y >= size[1] || z >= size[2] {
        return Err(SchematicError::Malformed(String::from_str("block position outside size")));
    }
    proof {
        lemma_cell_index_bound(size, x as int, y as int, z as int);
    }
    let sx = size[0] as usize;
    let sz = size[2] as usize;
    let index = x as usize + z as usize * sx + y as usize * sx * sz;
    let nbt = match entry.get("nbt") {
        None => None,
        Some(Value::Compound(c)) => Some(c),
        Some(_) => return Err(SchematicError::WrongType("nbt")),
    };
    Ok((index, state_index as u32, [x, y, z], nbt))
}

/// What a structure file denotes: the schematic it lists, with repeated
/// palette entries merged into one; or how loading it fails.
pub open spec fn structure_model(root: Compound) -> Result<SchematicModel, Failure> {
    match structure_listed(root) {
        Ok(m) => Ok(deduped(m)),
        Err(e) => Err(e),
    }
}

/// Parse a vanilla structure root compound. The palette holds no block twice.
pub fn parse(root: &Compound) -> (r: Result<Schematic, SchematicError>)
    ensures
        match r {
            Ok(s) => structure_model(*root) matches Ok(m) && s.models(m),
            Err(e) => structure_model(*root) == Err::<SchematicModel, Failure>(e.failure()),
        },
        r matches Ok(s) ==> distinct_views(palette_views(s.palette_seq())),
        r matches Ok(s) ==> (raw_size(*root) matches Some(a) && a.len() == 3 && s.dims() == [
            a[0] as u32,
            a[1] as u32,
            a[2] as u32,
        ]),
{
    proof {
        law_structure_size(*root);
    }
    let size_value = match root.get("size") {
        Some(v) => v,
        None => return Err(SchematicError::MissingTag("size")),
    };
    let size_raw = read_xyz(size_value, "size")?;
    if size_raw[0] < 0 || size_raw[1] < 0 || size_raw[2] < 0 {
        return Err(SchematicError::Malformed(String::from_str("negative size component")));
    }
    let size: [u32; 3] = [size_raw[0] as u32, size_raw[1] as u32, size_raw[2] as u32];
    let entries = palette_entries(root)?;
    let mut palette = resolve_entries(entries)?;
    let ghost listed = palette@.map_values(|b: BlockSpec| block_view(b));
    proof {
        let p = map_all(entries@, |c: Compound| entry_block(c))->Ok_0;
        assert(listed =~= p);
    }
    let air_index = ensure_air(&mut palette)?;
    assert(size[0] as u64 * size[1] as u64 <= 0xffff_ffff_ffff_ffffu64) by (nonlinear_arith)
        requires
            size[0] <= 0xffff_ffffu32,
            size[1] <= 0xffff_ffffu32,
    ;
    let xy: u64 = size[0] as u64 * size[1] as u64;
    assert(xy * size[2] <= 0xffff_ffff_ffff_ffffu128 * 0xffff_ffffu128) by (nonlinear_arith)
        requires
            xy <= 0xffff_ffff_ffff_ffffu64,
            size[2] <= 0xffff_ffffu32,
    ;
    let volume_wide: u128 = xy as u128 * size[2] as u128;
    if volume_wide > usize::MAX as u128 {
        return Err(SchematicError::Malformed(String::from_str("structure too large")));
    }
    let volume = volume_wide as usize;
    let mut blocks: Vec<u32> = vec![air_index; volume];
    let mut block_entities: Vec<([u32; 3], Compound)> = Vec::new();
    let blocks_value = match root.get("blocks") {
        Some(v) => v,
        None => return Err(SchematicError::MissingTag("blocks")),
    };
    let list = match blocks_value {
        Value::List(l) => l,
        _ => return Err(SchematicError::WrongType("blocks")),
    };
    let list_entries: &[Compound] = match list {
        List::Compound(v) => v.as_slice(),
        List::End => {
            let e: &[Compound] = &[];
            assert(e@ =~= Seq::<Compound>::empty());
            e
        },
        _ => return Err(SchematicError::WrongType("blocks")),
    };
    let ghost init = Seq::new(volume_of(size) as nat, |i: int| air_index);
    assert(blocks@ =~= init);
    let ghost f = |e: Compound| structure_entry(e, size, palette@.len() as int);
    let ghost mut ps: Seq<Placement> = Seq::empty();
    let ghost pal = with_air(listed).0;
    assert(structure_listed(*root) == structure_blocks(size, pal, air_index, list_entries@));
    let mut i: usize = 0;
    while i < list_entries.len()
        invariant
            f == (|e: Compound| structure_entry(e, size, palette@.len() as int)),
            volume_of(size) <= usize::MAX,
            i <= list_entries@.len(),
            ps.len() == i,
            forall|j: int| 0 <= j < i ==> f(#[trigger] list_entries@[j]) is Ok,
            forall|j: int| 0 <= j < i ==> #[trigger] ps[j] == f(list_entries@[j])->Ok_0,
            blocks@ == apply_placements(init, ps),
            blocks@.len() == volume_of(size),
            same_entities(block_entities@, placed_entities(ps)),
            structure_listed(*root) == structure_blocks(size, pal, air_index, list_entries@),
            palette@.len() == pal.len(),
            forall|j: int| 0 <= j < i ==> 0 <= (#[trigger] ps[j]).cell < volume_of(size) && ps[j].state < pal.len(),
        decreases list_entries@.len() - i,
    {
        let (index, state, pos, nbt) = match read_block_entry(&list_entries[i], size, palette.len()) {
            Ok(t) => t,
            Err(e) => {
                proof {
                    assert(f(list_entries@[i as int]) is Err);
                    assert(first_failure_at(list_entries@, f, i as int));
                    lemma_map_all_err(list_entries@, f, i as int);
                }
                return Err(e);
            },
        };
        let ghost p = f(list_entries@[i as int])->Ok_0;
        proof {
            let pp = p.pos;
            lemma_cell_index_bound(size, pp[0] as int, pp[1] as int, pp[2] as int);
        }
        blocks.set(index, state);
        if let Some(c) = nbt {
            block_entities.push((pos, c.duplicate()));
        }
        proof {
            let old_ps = ps;
            ps = ps.push(p);
            assert(ps.drop_last() =~= old_ps);
        }
        i = i + 1;
    }
    proof {
        lemma_map_all_ok(list_entries@, f);
        assert(ps =~= Seq::new(list_entries@.len(), |j: int| f(list_entries@[j])->Ok_0));
        lemma_apply_bound(init, ps, palette@.len() as int);
        assert(palette_views(palette@) =~= pal);
    }
    let (palette, blocks) = dedup_parts(palette, blocks);
    match Schematic::new(size, palette, blocks, block_entities, [0, 0, 0]) {
        Some(s) => Ok(s),
        None => Err(SchematicError::Malformed(String::from_str("inconsistent structure dimensions"))),
    }
}

/// Writing in-range states keeps every cell a valid palette index.
proof fn lemma_apply_bound(init: Seq<u32>, ps: Seq<Placement>, n: int)
    requires
        forall|i: int| 0 <= i < init.len() ==> #[trigger] init[i] < n,
        forall|j: int| 0 <= j < ps.len() ==> (#[trigger] ps[j]).state < n && 0 <= ps[j].cell < init.len(),
    ensures
        apply_placements(init, ps).len() == init.len(),
        forall|i: int| 0 <= i < init.len() ==> #[trigger] apply_placements(init, ps)[i] < n,
    decreases ps.len(),
{
    if ps.len() > 0 {
        lemma_apply_bound(init, ps.drop_last(), n);
    }
}

} // verus!
