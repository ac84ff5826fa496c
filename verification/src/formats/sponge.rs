//! Sponge `.schem` loader (WorldEdit / FAWE), versions 1–3.
//!
//! A fixed-size cuboid stored as a palette (state-string -> index) plus a
//! varint-packed index stream. v1/v2 keep `Palette`/`BlockData` on the
//! schematic compound (v2 wraps it under `"Schematic"`); v3 nests `Palette` and
//! `Data` (note: `Data`, not `BlockData`) inside a `Blocks` compound, always
//! wrapped under `"Schematic"`.
use vstd::prelude::*;
use std::collections::HashMap;
use vstd::seq_lib::lemma_multiset_commutative;
use vstd::string::StringExecFns;

use crate::block::{block_view, parse_state_string, state_string, BlockSpec, BlockView};
use crate::error::{Failure, SchematicError};
use crate::nbt::{Compound, List, Value};
use crate::palette::{dedup_parts, deduped, distinct_views, views as palette_views};
use crate::outcome::{first_failure_at, lemma_map_all, lemma_map_all_err, lemma_map_all_ok, map_all, outcome};
use crate::schematic::{same_entities, volume_of, Schematic, SchematicModel};

verus! {

/// `128^k`.
pub open spec fn radix_power(k: nat) -> nat
    decreases k,
{
    if k == 0 {
        1
    } else {
        128 * radix_power((k - 1) as nat)
    }
}

/// The number of bytes of the LEB128 varint that starts at `b[i]`, given
/// that its first `j` bytes carry the continuation bit: `None` where the input
/// ends first, or where the value would not fit in 32 bits (a fifth byte
/// carrying more than four bits, or asking for a sixth).
pub open spec fn varint_len(b: Seq<u8>, i: int, j: nat) -> Option<nat>
    decreases 5 - j,
{
    if j >= 5 || i + j >= b.len() {
        None
    } else if j == 4 && b[i + j] >= 0x10 {
        None
    } else if b[i + j] < 0x80 {
        Some(j + 1)
    } else {
        varint_len(b, i, j + 1)
    }
}

/// The number the first `n` bytes from `b[i]` denote: the sum of their low
/// seven bits, least significant group first.
pub open spec fn varint_digits(b: Seq<u8>, i: int, n: nat) -> nat
    decreases n,
{
    if n == 0 {
        0
    } else {
        varint_digits(b, i, (n - 1) as nat) + (b[i + n - 1] % 128) as nat * radix_power(
            (n - 1) as nat,
        )
    }
}

/// The value of an `n`-byte varint.
pub open spec fn varint_value(b: Seq<u8>, i: int, n: nat) -> u32 {
    varint_digits(b, i, n) as u32
}

/// A varint that ends spans between one and five bytes, all inside `b`.
pub proof fn lemma_varint_len(b: Seq<u8>, i: int, j: nat)
    ensures
        varint_len(b, i, j) matches Some(n) ==> j < n <= 5 && i + n <= b.len(),
    decreases 5 - j,
{
    if !(j >= 5 || i + j >= b.len()) && b[i + j] >= 0x80 {
        lemma_varint_len(b, i, j + 1);
    }
}

/// The values of the varint stream `b[i..]`, or `None` where it is malformed.
pub open spec fn varints_from(b: Seq<u8>, i: int) -> Option<Seq<u32>>
    decreases b.len() - i,
{
    if i < 0 || i >= b.len() {
        Some(Seq::empty())
    } else {
        match varint_len(b, i, 0) {
            Some(n) => {
                proof {
                    lemma_varint_len(b, i, 0);
                }
                match varints_from(b, i + n) {
                    Some(rest) => Some(seq![varint_value(b, i, n)] + rest),
                    None => None,
                }
            },
            None => None,
        }
    }
}

/// The values of an unsigned LEB128 varint stream, or `None` where it is
/// malformed.
pub open spec fn varints(b: Seq<u8>) -> Option<Seq<u32>> {
    varints_from(b, 0)
}

/// A decoded stream holds at most one value per byte.
proof fn lemma_varints_count(b: Seq<u8>, i: int)
    requires
        0 <= i <= b.len(),
        varints_from(b, i) is Some,
    ensures
        varints_from(b, i)->0.len() <= b.len() - i,
    decreases b.len() - i,
{
    if i < b.len() {
        lemma_varint_len(b, i, 0);
        let n = varint_len(b, i, 0)->0;
        lemma_varints_count(b, i + n);
    }
}

spec fn prepend(a: Seq<u32>, o: Option<Seq<u32>>) -> Option<Seq<u32>> {
    match o {
        Some(r) => Some(a + r),
        None => None,
    }
}

proof fn lemma_digits_bound(b: Seq<u8>, i: int, n: nat)
    ensures
        varint_digits(b, i, n) < radix_power(n),
    decreases n,
{
    if n > 0 {
        lemma_digits_bound(b, i, (n - 1) as nat);
        let d = (b[i + n - 1] % 128) as nat;
        let p = radix_power((n - 1) as nat);
        assert(varint_digits(b, i, (n - 1) as nat) + d * p < 128 * p) by (nonlinear_arith)
            requires
                varint_digits(b, i, (n - 1) as nat) < p,
                d < 128,
        ;
    }
}

/// One more byte of a varint: or-ing in its seven bits at the next group
/// adds their weight.
proof fn lemma_next_group(v: u32, byte: u8, j: nat)
    requires
        j <= 4,
        v < radix_power(j),
        j == 4 ==> byte < 0x10,
    ensures
        (v | (((byte & 0x7f) as u32) << (7 * j) as u32)) as int == v + (byte % 128) as nat
            * radix_power(j),
        v + (byte % 128) as nat * radix_power(j) < 0x1_0000_0000,
{
    reveal_with_fuel(radix_power, 5);
    assert(byte & 0x7f == byte % 128) by (bit_vector);
    let d = byte & 0x7f;
    if j == 0 {
        assert(v < 1 ==> (v | ((d as u32) << 0u32)) == v + d) by (bit_vector);
    } else if j == 1 {
        assert(v < 128 && d < 128 ==> (v | ((d as u32) << 7u32)) == v + d * 128) by (bit_vector);
    } else if j == 2 {
        assert(v < 16384 && d < 128 ==> (v | ((d as u32) << 14u32)) == v + d * 16384)
            by (bit_vector);
    } else if j == 3 {
        assert(v < 2097152 && d < 128 ==> (v | ((d as u32) << 21u32)) == v + d * 2097152)
            by (bit_vector);
    } else {
        assert(v < 268435456 && d < 16 ==> (v | ((d as u32) << 28u32)) == v + d * 268435456)
            by (bit_vector);
    }
}

/// The minimal unsigned LEB128 encoding of `v`: seven bits per byte, least
/// significant group first, the continuation bit on every byte but the last.
pub open spec fn leb128(v: nat) -> Seq<u8>
    decreases v,
{
    if v < 128 {
        seq![v as u8]
    } else {
        seq![(v % 128 + 128) as u8] + leb128(v / 128)
    }
}

/// The encodings of `vals`, one after another.
pub open spec fn leb128_all(vals: Seq<u32>) -> Seq<u8>
    decreases vals.len(),
{
    if vals.len() == 0 {
        Seq::empty()
    } else {
        leb128(vals[0] as nat) + leb128_all(vals.skip(1))
    }
}

/// Where the encoding of `w` stands at `b[i + j..]`, after `j` continuation
/// bytes, and `w` is what remains of a 32-bit value: the varint ends after
/// the encoding, and its digits add `w` at weight `128^j`.
proof fn lemma_leb128_read(b: Seq<u8>, i: int, j: nat, w: nat)
    requires
        0 <= i,
        j <= 4,
        w * radix_power(j) < 0x1_0000_0000,
        i + j + leb128(w).len() <= b.len(),
        b.subrange(i + j, i + j + leb128(w).len()) == leb128(w),
    ensures
        varint_len(b, i, j) == Some(j + leb128(w).len()),
        varint_digits(b, i, j + leb128(w).len()) == varint_digits(b, i, j) + w * radix_power(j),
    decreases w,
{
    reveal_with_fuel(radix_power, 5);
    let e = leb128(w);
    assert(b[i + j] == e[0]) by {
        assert(b.subrange(i + j, i + j + e.len())[0] == b[i + j]);
    }
    if w < 128 {
        if j == 4 {
            assert(w < 16) by (nonlinear_arith)
                requires
                    w * 268435456 < 0x1_0000_0000,
            ;
        }
        assert(e.len() == 1);
    } else {
        let w2 = w / 128;
        let rest = leb128(w2);
        assert(e =~= seq![(w % 128 + 128) as u8] + rest);
        if j == 4 {
            assert(w * 268435456 >= 0x1_0000_0000) by (nonlinear_arith)
                requires
                    w >= 128,
            ;
        }
        assert(w2 * radix_power(j + 1) <= w * radix_power(j)) by (nonlinear_arith)
            requires
                radix_power(j + 1) == 128 * radix_power(j),
                w2 == w / 128,
                radix_power(j) >= 0,
        {
            assert(128 * w2 <= w);
        }
        assert(b.subrange(i + j + 1, i + j + 1 + rest.len()) =~= rest) by {
            assert forall|k: int| 0 <= k < rest.len() implies b.subrange(i + j + 1, i + j + 1 + rest.len())[k]
                == rest[k] by {
                assert(b.subrange(i + j, i + j + e.len())[k + 1] == e[k + 1]);
            }
        }
        lemma_leb128_read(b, i, j + 1, w2);
        assert(varint_digits(b, i, j + 1) == varint_digits(b, i, j) + (w % 128) * radix_power(j));
        assert((w % 128) * radix_power(j) + w2 * radix_power(j + 1) == w * radix_power(j))
            by (nonlinear_arith)
            requires
                radix_power(j + 1) == 128 * radix_power(j),
                w2 == w / 128,
        {
            assert(w == 128 * w2 + w % 128);
        }
    }
}

proof fn lemma_leb128_stream(p: Seq<u8>, vals: Seq<u32>)
    ensures
        varints_from(p + leb128_all(vals), p.len() as int) == Some(vals),
    decreases vals.len(),
{
    let b = p + leb128_all(vals);
    if vals.len() == 0 {
        assert(b.len() == p.len());
    } else {
        let v = vals[0];
        let e = leb128(v as nat);
        let q = p + e;
        assert(b =~= q + leb128_all(vals.skip(1)));
        assert(b.subrange(p.len() as int, (p.len() + e.len()) as int) =~= e);
        assert(radix_power(0) == 1);
        assert((v as nat) * radix_power(0) < 0x1_0000_0000);
        lemma_leb128_read(b, p.len() as int, 0, v as nat);
        assert(varint_digits(b, p.len() as int, 0) == 0);
        assert(varint_digits(b, p.len() as int, e.len()) == v);
        assert(varint_value(b, p.len() as int, e.len()) == v);
        lemma_leb128_stream(q, vals.skip(1));
        assert(seq![v] + vals.skip(1) =~= vals);
    }
}

/// Decoding undoes LEB128 encoding: the stream of the minimal encodings of
/// any list of 32-bit values decodes to that list, so `read_varints` returns
/// it exactly when `expected` is its length, and `Malformed` otherwise.
pub proof fn law_varints_invert_leb128(vals: Seq<u32>)
    ensures
        varints(leb128_all(vals)) == Some(vals),
{
    lemma_leb128_stream(Seq::empty(), vals);
    assert(Seq::<u8>::empty() + leb128_all(vals) =~= leb128_all(vals));
}

/// Decode a stream of LEB128 unsigned varints, expecting exactly `expected`
/// values.
pub fn read_varints(bytes: &[u8], expected: usize) -> (r: Result<Vec<u32>, SchematicError>)
    ensures
        match r {
            Ok(v) => varints(bytes@) == Some(v@) && v@.len() == expected,
            Err(e) => e is Malformed && !(varints(bytes@) matches Some(v) && v.len() == expected),
        },
{
    let mut out: Vec<u32> = Vec::new();
    let mut i: usize = 0;
    while i < bytes.len()
        invariant
            i <= bytes@.len(),
            varints(bytes@) == prepend(out@, varints_from(bytes@, i as int)),
        decreases bytes@.len() - i,
    {
        let start = i;
        let mut value: u32 = 0;
        let mut shift: u32 = 0;
        let ghost mut j: nat = 0;
        loop
            invariant_except_break
                i == start + j,
                shift == 7 * j,
                j <= 4,
                value < radix_power(j),
                value == varint_digits(bytes@, start as int, j),
            invariant
                start < bytes@.len(),
                i <= bytes@.len(),
                varint_len(bytes@, start as int, 0) == varint_len(bytes@, start as int, j),
                varints(bytes@) == prepend(out@, varints_from(bytes@, start as int)),
            ensures
                start < i <= bytes@.len(),
                varint_len(bytes@, start as int, 0) == Some((i - start) as nat),
                value == varint_value(bytes@, start as int, (i - start) as nat),
            decreases 5 - j,
        {
            if i >= bytes.len() {
                let msg = String::from_str("truncated varint in BlockData");
                return Err(SchematicError::Malformed(msg));
            }
            let byte = bytes[i];
            if shift == 28 && byte >= 0x10 {
                let msg = String::from_str("varint in BlockData exceeds 32 bits");
                return Err(SchematicError::Malformed(msg));
            }
            proof {
                lemma_next_group(value, byte, j);
                lemma_digits_bound(bytes@, start as int, j + 1);
                assert(varint_digits(bytes@, start as int, j + 1) == value + (byte % 128) as nat
                    * radix_power(j));
                if j < 4 {
                    assert(radix_power(j + 1) <= 268435456) by {
                        reveal_with_fuel(radix_power, 5);
                    }
                }
            }
            value = value | (((byte & 0x7f) as u32) << shift);
            i = i + 1;
            if (byte & 0x80) == 0 {
                assert(byte & 0x80 == 0 ==> byte < 0x80) by (bit_vector);
                break;
            }
            assert(byte & 0x80 != 0 ==> byte >= 0x80) by (bit_vector);
            shift = shift + 7;
            proof {
                j = j + 1;
            }
        }
        proof {
            lemma_varint_len(bytes@, start as int, 0);
        }
        out.push(value);
    }
    if out.len() != expected {
        let msg = String::from_str("BlockData decoded to the wrong number of cells");
        return Err(SchematicError::Malformed(msg));
    }
    Ok(out)
}

/// A `TAG_Short` dimension, read as unsigned 16 bits.
pub open spec fn short_tag(c: Compound, key: Seq<char>) -> Result<u32, Failure> {
    match c.lookup(key) {
        Some(Value::Short(v)) => Ok(v as u16 as u32),
        Some(_) => Err(Failure::WrongType(key)),
        None => Err(Failure::MissingTag(key)),
    }
}

/// Read a `TAG_Short` dimension as an unsigned 16-bit value widened to `u32`.
fn get_short(c: &Compound, key: &'static str) -> (r: Result<u32, SchematicError>)
    ensures
        outcome(r) == short_tag(*c, key@),
{
    match c.get(key) {
        Some(Value::Short(v)) => Ok(*v as u16 as u32),
        Some(_) => Err(SchematicError::WrongType(key)),
        None => Err(SchematicError::MissingTag(key)),
    }
}

/// The relative `[x, y, z]` of a block entity: an `IntArray` or a `List` of
/// ints, of length 3, each component reinterpreted as unsigned.
pub open spec fn pos_tag(comp: Compound) -> Result<[u32; 3], Failure> {
    match comp.lookup("Pos"@) {
        None => Err(Failure::MissingTag("Pos"@)),
        Some(Value::IntArray(a)) => if a@.len() == 3 {
            Ok([a@[0] as u32, a@[1] as u32, a@[2] as u32])
        } else {
            Err(Failure::Malformed)
        },
        Some(Value::List(List::Int(a))) => if a@.len() == 3 {
            Ok([a@[0] as u32, a@[1] as u32, a@[2] as u32])
        } else {
            Err(Failure::Malformed)
        },
        Some(_) => Err(Failure::WrongType("Pos"@)),
    }
}

/// Read the relative `[x, y, z]` of a block entity, accepting either an
/// `IntArray` or a `List<Int>` of length 3.
fn read_pos(comp: &Compound) -> (r: Result<[u32; 3], SchematicError>)
    ensures
        outcome(r) == pos_tag(*comp),
{
    let pos = match comp.get("Pos") {
        Some(p) => p,
        None => return Err(SchematicError::MissingTag("Pos")),
    };
    let coords: [i32; 3] = match pos {
        Value::IntArray(a) => {
            if a.len() != 3 {
                return Err(SchematicError::Malformed(String::from_str("block entity Pos length")));
            }
            [a[0], a[1], a[2]]
        },
        Value::List(List::Int(a)) => {
            if a.len() != 3 {
                return Err(SchematicError::Malformed(String::from_str("block entity Pos length")));
            }
            [a[0], a[1], a[2]]
        },
        _ => return Err(SchematicError::WrongType("Pos")),
    };
    Ok([coords[0] as u32, coords[1] as u32, coords[2] as u32])
}

/// A block entity: its position and its compound.
pub open spec fn entity_of(comp: Compound) -> Result<([u32; 3], Compound), Failure> {
    match pos_tag(comp) {
        Ok(p) => Ok((p, comp)),
        Err(e) => Err(e),
    }
}

/// The block entities under `BlockEntities` (v2/v3) or `TileEntities` (v1).
pub open spec fn entities_tag(schem: Compound) -> Result<Seq<([u32; 3], Compound)>, Failure> {
    let entry = match schem.lookup("BlockEntities"@) {
        Some(v) => Some(v),
        None => schem.lookup("TileEntities"@),
    };
    match entry {
        None => Ok(Seq::empty()),
        Some(Value::List(List::Compound(es))) => map_all(es@, |c: Compound| entity_of(c)),
        Some(Value::List(l)) => if l.count() == 0 {
            Ok(Seq::empty())
        } else {
            Err(Failure::WrongType("BlockEntities"@))
        },
        Some(_) => Err(Failure::WrongType("BlockEntities"@)),
    }
}

/// Collect block entities from `BlockEntities` (v2/v3) or `TileEntities` (v1).
fn parse_block_entities(schem: &Compound) -> (r: Result<Vec<([u32; 3], Compound)>, SchematicError>)
    ensures
        match r {
            Ok(v) => entities_tag(*schem) matches Ok(es) && same_entities(v@, es),
            Err(e) => entities_tag(*schem) == Err::<Seq<([u32; 3], Compound)>, Failure>(e.failure()),
        },
{
    let entry = match schem.get("BlockEntities") {
        Some(v) => Some(v),
        None => schem.get("TileEntities"),
    };
    let value = match entry {
        Some(v) => v,
        None => return Ok(Vec::new()),
    };
    let list = match value {
        Value::List(l) => l,
        _ => return Err(SchematicError::WrongType("BlockEntities")),
    };
    let entities = match list {
        List::Compound(es) => es,
        _ => {
            if list.is_empty() {
                return Ok(Vec::new());
            }
            return Err(SchematicError::WrongType("BlockEntities"));
        },
    };
    let ghost f = |c: Compound| entity_of(c);
    assert(entities_tag(*schem) == map_all(entities@, f));
    let mut out: Vec<([u32; 3], Compound)> = Vec::new();
    let mut i: usize = 0;
    while i < entities.len()
        invariant
            entities_tag(*schem) == map_all(entities@, f),
            f == (|c: Compound| entity_of(c)),
            i <= entities@.len(),
            out@.len() == i,
            forall|j: int| 0 <= j < i ==> f(#[trigger] entities@[j]) is Ok,
            forall|j: int|
                0 <= j < i ==> (#[trigger] out@[j]).0 == f(entities@[j])->Ok_0.0 && out@[j].1.deep_eq(
                    entities@[j],
                ),
        decreases entities@.len() - i,
    {
        let comp = &entities[i];
        let pos = match read_pos(comp) {
            Ok(p) => p,
            Err(e) => {
                proof {
                    assert(f(entities@[i as int]) is Err);
                    assert(first_failure_at(entities@, f, i as int));
                    lemma_map_all_err(entities@, f, i as int);
                }
                return Err(e);
            },
        };
        out.push((pos, comp.duplicate()));
        i = i + 1;
    }
    proof {
        lemma_map_all_ok(entities@, f);
    }
    Ok(out)
}

/// The optional `Offset` (`IntArray` of length 3), defaulting to the origin.
pub open spec fn offset_tag(schem: Compound) -> Result<[i32; 3], Failure> {
    match schem.lookup("Offset"@) {
        None => Ok([0, 0, 0]),
        Some(Value::IntArray(a)) => if a@.len() == 3 {
            Ok([a@[0], a@[1], a@[2]])
        } else {
            Err(Failure::Malformed)
        },
        Some(_) => Err(Failure::WrongType("Offset"@)),
    }
}

/// Read the optional `Offset` (`IntArray` of length 3), defaulting to origin.
fn parse_offset(schem: &Compound) -> (r: Result<[i32; 3], SchematicError>)
    ensures
        outcome(r) == offset_tag(*schem),
{
    match schem.get("Offset") {
        None => Ok([0, 0, 0]),
        Some(Value::IntArray(a)) => {
            if a.len() != 3 {
                return Err(SchematicError::Malformed(String::from_str("Offset length")));
            }
            Ok([a[0], a[1], a[2]])
        },
        Some(_) => Err(SchematicError::WrongType("Offset")),
    }
}

/// Where an element with key `k` goes in `t`: after every element at the end
/// of `t` whose key is at most `k`.
pub open spec fn insertion_point<A>(t: Seq<(i32, A)>, k: i32) -> nat
    decreases t.len(),
{
    if t.len() == 0 {
        0
    } else if t.last().0 > k {
        insertion_point(t.drop_last(), k)
    } else {
        t.len()
    }
}

/// `t` with `e` inserted after the elements whose key is at most its own.
pub open spec fn insert_by_key<A>(t: Seq<(i32, A)>, e: (i32, A)) -> Seq<(i32, A)> {
    let p = insertion_point(t, e.0) as int;
    t.take(p).push(e) + t.skip(p)
}

/// `s` sorted by key, elements with equal keys kept in their order.
pub open spec fn sort_by_key<A>(s: Seq<(i32, A)>) -> Seq<(i32, A)>
    decreases s.len(),
{
    if s.len() == 0 {
        s
    } else {
        insert_by_key(sort_by_key(s.drop_last()), s.last())
    }
}

/// The keys of `t` never decrease.
pub open spec fn keys_sorted<A>(t: Seq<(i32, A)>) -> bool {
    forall|a: int, b: int| 0 <= a <= b < t.len() ==> (#[trigger] t[a]).0 <= (#[trigger] t[b]).0
}

proof fn lemma_insertion_point<A>(t: Seq<(i32, A)>, k: i32)
    requires
        keys_sorted(t),
    ensures
        insertion_point(t, k) <= t.len(),
        forall|j: int| 0 <= j < insertion_point(t, k) ==> (#[trigger] t[j]).0 <= k,
        forall|j: int| insertion_point(t, k) <= j < t.len() ==> (#[trigger] t[j]).0 > k,
    decreases t.len(),
{
    if t.len() > 0 {
        if t.last().0 > k {
            let u = t.drop_last();
            assert(keys_sorted(u));
            lemma_insertion_point(u, k);
            assert forall|j: int| insertion_point(t, k) <= j < t.len() implies (#[trigger] t[j]).0 > k by {
                if j < t.len() - 1 {
                    assert(t[j] == u[j]);
                }
            }
            assert forall|j: int| 0 <= j < insertion_point(t, k) implies (#[trigger] t[j]).0 <= k by {
                assert(t[j] == u[j]);
            }
        } else {
            assert forall|j: int| 0 <= j < insertion_point(t, k) implies (#[trigger] t[j]).0 <= k by {
                assert(t[j].0 <= t[t.len() - 1].0);
            }
        }
    }
}

proof fn lemma_sort_by_key<A>(s: Seq<(i32, A)>)
    ensures
        sort_by_key(s).len() == s.len(),
        keys_sorted(sort_by_key(s)),
    decreases s.len(),
{
    if s.len() > 0 {
        let t = sort_by_key(s.drop_last());
        lemma_sort_by_key(s.drop_last());
        let e = s.last();
        lemma_insertion_point(t, e.0);
        let p = insertion_point(t, e.0) as int;
        let r = insert_by_key(t, e);
        assert(r.len() == s.len());
        assert forall|a: int, b: int| 0 <= a <= b < r.len() implies (#[trigger] r[a]).0 <= (#[trigger] r[b]).0 by {
            if a < p && b < p {
                assert(r[a] == t[a] && r[b] == t[b]);
            } else if a < p && b == p {
                assert(r[a] == t[a]);
            } else if a < p {
                assert(r[a] == t[a] && r[b] == t[b - 1]);
            } else if a == p && b > p {
                assert(r[b] == t[b - 1]);
            } else if a > p {
                assert(r[a] == t[a - 1] && r[b] == t[b - 1]);
            }
        }
    }
}

proof fn lemma_sort_elements<A>(s: Seq<(i32, A)>)
    ensures
        forall|j: int| 0 <= j < sort_by_key(s).len() ==> s.contains(#[trigger] sort_by_key(s)[j]),
    decreases s.len(),
{
    if s.len() > 0 {
        let u = s.drop_last();
        lemma_sort_elements(u);
        lemma_sort_by_key(u);
        let t = sort_by_key(u);
        let e = s.last();
        lemma_insertion_point(t, e.0);
        let p = insertion_point(t, e.0) as int;
        let r = sort_by_key(s);
        assert forall|j: int| 0 <= j < r.len() implies s.contains(#[trigger] r[j]) by {
            if j == p {
                assert(s[s.len() - 1] == r[j]);
            } else {
                let m = if j < p { j } else { j - 1 };
                assert(r[j] == t[m]);
                assert(u.contains(t[m]));
                let k = choose|k: int| 0 <= k < u.len() && u[k] == t[m];
                assert(s[k] == u[k]);
            }
        }
    }
}

proof fn sort_keeps_elements(s: Seq<(i32, usize)>, n: nat)
    requires
        forall|j: int| 0 <= j < s.len() ==> (#[trigger] s[j]).1 < n,
    ensures
        forall|j: int| 0 <= j < sort_by_key(s).len() ==> (#[trigger] sort_by_key(s)[j]).1 < n,
{
    lemma_sort_elements(s);
    assert forall|j: int| 0 <= j < sort_by_key(s).len() implies (#[trigger] sort_by_key(s)[j]).1 < n by {
        assert(s.contains(sort_by_key(s)[j]));
    }
}

/// Ordering the palette by file index loses and adds no entry, and leaves the
/// keys in non-decreasing order.
pub proof fn law_sort_by_key<A>(s: Seq<(i32, A)>)
    ensures
        sort_by_key(s).to_multiset() =~= s.to_multiset(),
        keys_sorted(sort_by_key(s)),
    decreases s.len(),
{
    broadcast use vstd::seq_lib::group_to_multiset_ensures, vstd::multiset::group_multiset_axioms;

    lemma_sort_by_key(s);
    if s.len() > 0 {
        let u = s.drop_last();
        law_sort_by_key(u);
        let t = sort_by_key(u);
        let e = s.last();
        let p = insertion_point(t, e.0) as int;
        lemma_insertion_point(t, e.0);
        lemma_multiset_commutative(t.take(p).push(e), t.skip(p));
        lemma_multiset_commutative(t.take(p), t.skip(p));
        assert(t.take(p) + t.skip(p) =~= t);
        assert(u.push(e) =~= s);
        assert(sort_by_key(s).to_multiset() =~= t.to_multiset().insert(e));
    }
}

/// Sort `entries` by key, keeping elements with equal keys in their order.
fn sort_entries(entries: &Vec<(i32, usize)>) -> (r: Vec<(i32, usize)>)
    ensures
        r@ == sort_by_key(entries@),
        keys_sorted(r@),
{
    let mut out: Vec<(i32, usize)> = Vec::new();
    let mut i: usize = 0;
    while i < entries.len()
        invariant
            i <= entries@.len(),
            out@ == sort_by_key(entries@.take(i as int)),
            keys_sorted(out@),
        decreases entries@.len() - i,
    {
        let e = entries[i];
        let mut p = out.len();
        assert(out@.take(p as int) =~= out@);
        while p > 0 && out[p - 1].0 > e.0
            invariant
                p <= out@.len(),
                insertion_point(out@, e.0) == insertion_point(out@.take(p as int), e.0),
            decreases p,
        {
            assert(out@.take(p as int).drop_last() =~= out@.take(p - 1));
            p = p - 1;
        }
        let ghost old_out = out@;
        out.insert(p, e);
        proof {
            assert(entries@.take(i + 1).drop_last() =~= entries@.take(i as int));
            assert(old_out.take(p as int).len() == p);
            assert(insertion_point(old_out, e.0) == p);
            assert(out@ =~= insert_by_key(old_out, e));
            lemma_sort_by_key(entries@.take(i + 1));
        }
        i = i + 1;
    }
    assert(entries@.take(entries@.len() as int) =~= entries@);
    out
}

/// `j` is the last position of `t` whose key is `k`.
pub open spec fn last_key_at<A>(t: Seq<(i32, A)>, k: i32, j: int) -> bool {
    &&& 0 <= j < t.len()
    &&& t[j].0 == k
    &&& forall|m: int| j < m < t.len() ==> (#[trigger] t[m]).0 != k
}

/// The last position of `t` whose key is `k`, if any.
pub open spec fn last_with_key<A>(t: Seq<(i32, A)>, k: i32) -> Option<int> {
    if exists|j: int| last_key_at(t, k, j) {
        Some(choose|j: int| last_key_at(t, k, j))
    } else {
        None
    }
}

/// Two last positions of the same key are the same position.
proof fn lemma_last_key_unique<A>(t: Seq<(i32, A)>, k: i32, a: int, b: int)
    requires
        last_key_at(t, k, a),
        last_key_at(t, k, b),
    ensures
        a == b,
{
    if a < b {
        assert(t[b].0 == k);
    } else if b < a {
        assert(t[a].0 == k);
    }
}

/// One more element: it is the last of its key, and leaves the others alone.
proof fn lemma_last_with_key_step<A>(t: Seq<(i32, A)>, n: int, k: i32)
    requires
        0 <= n < t.len(),
    ensures
        last_with_key(t.take(n + 1), k) == if t[n].0 == k {
            Some(n)
        } else {
            last_with_key(t.take(n), k)
        },
{
    let a = t.take(n + 1);
    let b = t.take(n);
    if t[n].0 == k {
        assert(last_key_at(a, k, n));
        let c = choose|j: int| last_key_at(a, k, j);
        lemma_last_key_unique(a, k, c, n);
    } else {
        assert forall|j: int| last_key_at(a, k, j) <==> last_key_at(b, k, j) by {
            if last_key_at(a, k, j) {
                assert(j != n);
                assert forall|m: int| j < m < b.len() implies (#[trigger] b[m]).0 != k by {
                    assert(b[m] == a[m]);
                }
            }
            if last_key_at(b, k, j) {
                assert forall|m: int| j < m < a.len() implies (#[trigger] a[m]).0 != k by {
                    if m < n {
                        assert(b[m] == a[m]);
                    }
                }
            }
        }
        if exists|j: int| last_key_at(a, k, j) {
            let c = choose|j: int| last_key_at(a, k, j);
            let d = choose|j: int| last_key_at(b, k, j);
            assert(last_key_at(b, k, c));
            lemma_last_key_unique(b, k, c, d);
        }
    }
}

/// The position, in the sorted palette order, that each file index remaps
/// to: the last entry with that index, as inserting in order leaves it.
fn index_map(sorted: &Vec<(i32, usize)>) -> (m: HashMap<i32, u32>)
    ensures
        forall|k: i32| #[trigger] m@.contains_key(k) <==> last_with_key(sorted@, k) is Some,
        forall|k: i32| m@.contains_key(k) ==> #[trigger] m@[k] == last_with_key(sorted@, k)->0 as u32,
{
    broadcast use vstd::std_specs::hash::group_hash_axioms;

    let mut m: HashMap<i32, u32> = HashMap::new();
    let mut t: usize = 0;
    assert forall|k: i32| !(#[trigger] last_key_at(sorted@.take(0), k, 0)) by {}
    while t < sorted.len()
        invariant
            t <= sorted@.len(),
            forall|k: i32| #[trigger] m@.contains_key(k) <==> last_with_key(sorted@.take(t as int), k) is Some,
            forall|k: i32|
                m@.contains_key(k) ==> #[trigger] m@[k] == last_with_key(sorted@.take(t as int), k)->0 as u32,
        decreases sorted@.len() - t,
    {
        let key = sorted[t].0;
        let pos: u32 = #[verifier::truncate] (t as u32);
        m.insert(key, pos);
        proof {
            assert forall|k: i32| #[trigger] m@.contains_key(k) <==> last_with_key(sorted@.take(t + 1), k) is Some by {
                lemma_last_with_key_step(sorted@, t as int, k);
            }
            assert forall|k: i32| m@.contains_key(k) implies #[trigger] m@[k] == last_with_key(
                sorted@.take(t + 1),
                k,
            )->0 as u32 by {
                lemma_last_with_key_step(sorted@, t as int, k);
            }
        }
        t = t + 1;
    }
    assert(sorted@.take(sorted@.len() as int) =~= sorted@);
    m
}

/// The schematic compound: the root, or its `Schematic` child (v2, v3).
pub open spec fn sponge_root(root: Compound) -> Compound {
    match root.lookup("Schematic"@) {
        Some(Value::Compound(c)) => c,
        _ => root,
    }
}

/// The v3 `Blocks` compound, if present.
pub open spec fn blocks_compound(schem: Compound) -> Option<Compound> {
    match schem.lookup("Blocks"@) {
        Some(Value::Compound(c)) => Some(c),
        _ => None,
    }
}

/// `Palette` on the schematic, else inside `Blocks`.
pub open spec fn sponge_palette(schem: Compound) -> Result<Compound, Failure> {
    let v = match schem.lookup("Palette"@) {
        Some(v) => Some(v),
        None => match blocks_compound(schem) {
            Some(b) => b.lookup("Palette"@),
            None => None,
        },
    };
    match v {
        None => Err(Failure::MissingTag("Palette"@)),
        Some(Value::Compound(c)) => Ok(c),
        Some(_) => Err(Failure::WrongType("Palette"@)),
    }
}

/// `BlockData` on the schematic, else `Data` inside `Blocks`.
pub open spec fn sponge_data(schem: Compound) -> Result<Seq<i8>, Failure> {
    let v = match schem.lookup("BlockData"@) {
        Some(v) => Some(v),
        None => match blocks_compound(schem) {
            Some(b) => b.lookup("Data"@),
            None => None,
        },
    };
    match v {
        None => Err(Failure::MissingTag("BlockData"@)),
        Some(Value::ByteArray(a)) => Ok(a@),
        Some(_) => Err(Failure::WrongType("BlockData"@)),
    }
}

/// The file index of palette entry `i`, paired with `i`.
pub open spec fn palette_key(pc: Compound, i: int) -> Result<(i32, usize), Failure> {
    match pc.entries()[i].1 {
        Value::Int(fi) => Ok((fi, i as usize)),
        _ => Err(Failure::WrongType("Palette entry"@)),
    }
}

/// The file index of every palette entry, paired with the entry's position.
pub open spec fn palette_order(pc: Compound) -> Result<Seq<(i32, usize)>, Failure> {
    map_all(Seq::new(pc.entries().len(), |i: int| i), |i: int| palette_key(pc, i))
}

/// The block that the palette entry at `e.1` names.
pub open spec fn palette_block(pc: Compound, e: (i32, usize)) -> Result<BlockView, Failure> {
    match state_string(pc.entries()[e.1 as int].0@) {
        Some(v) => Ok(v),
        None => Err(Failure::Malformed),
    }
}

/// Signed bytes reinterpreted as unsigned.
pub open spec fn unsigned_bytes(a: Seq<i8>) -> Seq<u8> {
    Seq::new(a.len(), |i: int| a[i] as u8)
}

/// The position in the sorted palette of the file index `fi`: the last entry
/// that carries it.
pub open spec fn cell_of(sorted: Seq<(i32, usize)>, fi: u32) -> Result<u32, Failure> {
    match last_with_key(sorted, fi as i32) {
        Some(j) => Ok(j as u32),
        None => Err(Failure::Malformed),
    }
}

/// The schematic a Sponge file lists, one palette entry per palette key,
/// or how loading it fails.
pub open spec fn sponge_listed(root: Compound) -> Result<SchematicModel, Failure> {
    let schem = sponge_root(root);
    match short_tag(schem, "Width"@) {
        Err(e) => Err(e),
        Ok(w) => match short_tag(schem, "Height"@) {
            Err(e) => Err(e),
            Ok(h) => match short_tag(schem, "Length"@) {
                Err(e) => Err(e),
                Ok(l) => match sponge_palette(schem) {
                    Err(e) => Err(e),
                    Ok(pc) => match sponge_data(schem) {
                        Err(e) => Err(e),
                        Ok(data) => match palette_order(pc) {
                            Err(e) => Err(e),
                            Ok(order) => {
                                let sorted = sort_by_key(order);
                                match map_all(sorted, |e: (i32, usize)| palette_block(pc, e)) {
                                    Err(e) => Err(e),
                                    Ok(palette) => match varints(unsigned_bytes(data)) {
                                        Some(fis) if fis.len() == w * h * l => match map_all(
                                            fis,
                                            |fi: u32| cell_of(sorted, fi),
                                        ) {
                                            Err(e) => Err(e),
                                            Ok(cells) => match entities_tag(schem) {
                                                Err(e) => Err(e),
                                                Ok(entities) => match offset_tag(schem) {
                                                    Err(e) => Err(e),
                                                    Ok(offset) => Ok(
                                                        SchematicModel {
                                                            size: [w, h, l],
                                                            palette,
                                                            cells,
                                                            entities,
                                                            offset,
                                                        },
                                                    ),
                                                },
                                            },
                                        },
                                        _ => Err(Failure::Malformed),
                                    },
                                }
                            },
                        },
                    },
                },
            },
        },
    }
}

/// The v3 `Blocks` compound, if present.
fn get_blocks_compound(schem: &Compound) -> (r: Option<&Compound>)
    ensures
        match r {
            Some(c) => blocks_compound(*schem) == Some(*c),
            None => blocks_compound(*schem) is None,
        },
{
    match schem.get("Blocks") {
        Some(Value::Compound(c)) => Some(c),
        _ => None,
    }
}

/// The file index of every palette entry, paired with the entry's position.
fn read_palette_order(pc: &Compound) -> (r: Result<Vec<(i32, usize)>, SchematicError>)
    ensures
        match r {
            Ok(v) => palette_order(*pc) == Ok::<Seq<(i32, usize)>, Failure>(v@) && v@.len()
                == pc.entries().len() && forall|j: int| 0 <= j < v@.len() ==> (#[trigger] v@[j]).1 == j,
            Err(e) => palette_order(*pc) == Err::<Seq<(i32, usize)>, Failure>(e.failure()),
        },
{
    let ghost idx = Seq::new(pc.entries().len(), |i: int| i);
    let ghost f = |i: int| palette_key(*pc, i);
    let n = pc.len();
    let mut out: Vec<(i32, usize)> = Vec::new();
    let mut i: usize = 0;
    while i < n
        invariant
            n == pc.entries().len(),
            idx == Seq::new(pc.entries().len(), |i: int| i),
            f == (|i: int| palette_key(*pc, i)),
            i <= n,
            out@.len() == i,
            forall|j: int| 0 <= j < i ==> f(#[trigger] idx[j]) is Ok,
            forall|j: int| 0 <= j < i ==> #[trigger] out@[j] == f(idx[j])->Ok_0,
            forall|j: int| 0 <= j < i ==> (#[trigger] out@[j]).1 == j,
        decreases n - i,
    {
        let (_name, value) = pc.entry(i);
        match value {
            Value::Int(fi) => {
                out.push((*fi, i));
            },
            _ => {
                proof {
                    assert(f(idx[i as int]) is Err);
                    assert(first_failure_at(idx, f, i as int));
                    lemma_map_all_err(idx, f, i as int);
                }
                return Err(SchematicError::WrongType("Palette entry"));
            },
        }
        i = i + 1;
    }
    proof {
        lemma_map_all_ok(idx, f);
        assert(out@ =~= Seq::new(idx.len(), |i: int| f(idx[i])->Ok_0));
    }
    Ok(out)
}

/// The blocks the sorted palette entries name, in order.
fn resolve_palette(pc: &Compound, sorted: &Vec<(i32, usize)>) -> (r: Result<Vec<BlockSpec>, SchematicError>)
    requires
        forall|j: int| 0 <= j < sorted@.len() ==> (#[trigger] sorted@[j]).1 < pc.entries().len(),
    ensures
        match r {
            Ok(v) => map_all(sorted@, |e: (i32, usize)| palette_block(*pc, e)) matches Ok(p)
                && v@.len() == p.len() && forall|j: int| 0 <= j < p.len() ==> block_view(#[trigger] v@[j]) == p[j],
            Err(e) => map_all(sorted@, |e: (i32, usize)| palette_block(*pc, e)) == Err::<Seq<BlockView>, Failure>(e.failure()),
        },
{
    let ghost f = |e: (i32, usize)| palette_block(*pc, e);
    let mut out: Vec<BlockSpec> = Vec::new();
    let mut i: usize = 0;
    while i < sorted.len()
        invariant
            f == (|e: (i32, usize)| palette_block(*pc, e)),
            forall|j: int| 0 <= j < sorted@.len() ==> (#[trigger] sorted@[j]).1 < pc.entries().len(),
            i <= sorted@.len(),
            out@.len() == i,
            forall|j: int| 0 <= j < i ==> f(#[trigger] sorted@[j]) is Ok,
            forall|j: int| 0 <= j < i ==> Ok::<BlockView, Failure>(block_view(#[trigger] out@[j])) == f(sorted@[j]),
        decreases sorted@.len() - i,
    {
        let (name, _value) = pc.entry(sorted[i].1);
        match parse_state_string(name.as_str()) {
            Ok(b) => {
                out.push(b);
            },
            Err(e) => {
                proof {
                    assert(f(sorted@[i as int]) is Err);
                    assert(first_failure_at(sorted@, f, i as int));
                    lemma_map_all_err(sorted@, f, i as int);
                }
                return Err(e);
            },
        }
        i = i + 1;
    }
    proof {
        lemma_map_all_ok(sorted@, f);
    }
    Ok(out)
}

/// Signed bytes reinterpreted as unsigned.
fn to_unsigned(a: &Vec<i8>) -> (r: Vec<u8>)
    ensures
        r@ == unsigned_bytes(a@),
{
    let mut out: Vec<u8> = Vec::new();
    let mut i: usize = 0;
    while i < a.len()
        invariant
            i <= a@.len(),
            out@ =~= Seq::new(i as nat, |j: int| a@[j] as u8),
        decreases a@.len() - i,
    {
        out.push(a[i] as u8);
        i = i + 1;
    }
    out
}

/// The sorted-palette position of every decoded file index.
fn remap_cells(sorted: &Vec<(i32, usize)>, fis: &Vec<u32>) -> (r: Result<Vec<u32>, SchematicError>)
    ensures
        match r {
            Ok(v) => map_all(fis@, |fi: u32| cell_of(sorted@, fi)) == Ok::<Seq<u32>, Failure>(v@),
            Err(e) => map_all(fis@, |fi: u32| cell_of(sorted@, fi)) == Err::<Seq<u32>, Failure>(e.failure()),
        },
{
    broadcast use vstd::std_specs::hash::group_hash_axioms;

    let ghost f = |fi: u32| cell_of(sorted@, fi);
    let remap = index_map(sorted);
    let mut out: Vec<u32> = Vec::new();
    let mut i: usize = 0;
    while i < fis.len()
        invariant
            f == (|fi: u32| cell_of(sorted@, fi)),
            forall|k: i32| #[trigger] remap@.contains_key(k) <==> last_with_key(sorted@, k) is Some,
            forall|k: i32| remap@.contains_key(k) ==> #[trigger] remap@[k] == last_with_key(sorted@, k)->0 as u32,
            i <= fis@.len(),
            out@.len() == i,
            forall|j: int| 0 <= j < i ==> f(#[trigger] fis@[j]) is Ok,
            forall|j: int| 0 <= j < i ==> Ok::<u32, Failure>(#[trigger] out@[j]) == f(fis@[j]),
        decreases fis@.len() - i,
    {
        let fi = #[verifier::truncate] (fis[i] as i32);
        match remap.get(&fi) {
            Some(j) => {
                out.push(*j);
            },
            None => {
                proof {
                    assert(f(fis@[i as int]) is Err);
                    assert(first_failure_at(fis@, f, i as int));
                    lemma_map_all_err(fis@, f, i as int);
                }
                return Err(SchematicError::Malformed(String::from_str("block data references an unknown palette index")));
            },
        }
        i = i + 1;
    }
    proof {
        lemma_map_all_ok(fis@, f);
        assert(out@ =~= Seq::new(fis@.len(), |i: int| f(fis@[i])->Ok_0));
    }
    Ok(out)
}

/// Whether a loaded Sponge schematic has the shape its tags give: the
/// schematic compound (the root, or its `Schematic` child) holds `Width`,
/// `Height` and `Length` as shorts, the dimensions are `[Width, Height,
/// Length]` read as unsigned 16-bit values, in that order, and there is one
/// cell per position, cell `x + z*Width + y*Width*Length` holding `(x, y, z)`.
pub open spec fn sponge_shape(root: Compound, size: [u32; 3], cells: Seq<u32>) -> bool {
    let schem = match root.lookup("Schematic"@) {
        Some(Value::Compound(c)) => c,
        _ => root,
    };
    &&& schem.lookup("Width"@) matches Some(Value::Short(w))
    &&& schem.lookup("Height"@) matches Some(Value::Short(h))
    &&& schem.lookup("Length"@) matches Some(Value::Short(l))
    &&& size[0] == w as u16 as u32
    &&& size[1] == h as u16 as u32
    &&& size[2] == l as u16 as u32
    &&& cells.len() == (w as u16) * (h as u16) * (l as u16)
}

/// A Sponge load takes its dimensions from `Width`, `Height` and `Length`,
/// in that order, with one cell per position.
pub proof fn law_sponge_dimensions(root: Compound)
    ensures
        sponge_model(root) matches Ok(m) ==> sponge_shape(root, m.size, m.cells),
{
    if sponge_listed(root) is Ok {
        let schem = sponge_root(root);
        let data = sponge_data(schem)->Ok_0;
        let pc = sponge_palette(schem)->Ok_0;
        let sorted = sort_by_key(palette_order(pc)->Ok_0);
        let fis = varints(unsigned_bytes(data))->0;
        lemma_map_all(fis, |fi: u32| cell_of(sorted, fi));
        let m = sponge_listed(root)->Ok_0;
        assert(deduped(m).cells.len() == m.cells.len());
    }
}

/// What a Sponge schematic denotes: the schematic it lists, with palette
/// keys that name the same block merged into one entry; or how loading it
/// fails.
pub open spec fn sponge_model(root: Compound) -> Result<SchematicModel, Failure> {
    match sponge_listed(root) {
        Ok(m) => Ok(deduped(m)),
        Err(e) => Err(e),
    }
}

/// Parse a Sponge schematic root compound. The palette holds no block twice.
pub fn parse(root: &Compound) -> (r: Result<Schematic, SchematicError>)
    ensures
        match r {
            Ok(s) => sponge_model(*root) matches Ok(m) && s.models(m),
            Err(e) => sponge_model(*root) == Err::<SchematicModel, Failure>(e.failure()),
        },
        r matches Ok(s) ==> distinct_views(palette_views(s.palette_seq())),
        r matches Ok(s) ==> sponge_shape(*root, s.dims(), s.cells()),
{
    proof {
        law_sponge_dimensions(*root);
    }
    let schem = match root.get("Schematic") {
        Some(Value::Compound(c)) => c,
        _ => root,
    };
    assert(*schem == sponge_root(*root));
    let width = get_short(schem, "Width")?;
    let height = get_short(schem, "Height")?;
    let length = get_short(schem, "Length")?;
    let size = [width, height, length];
    let blocks_comp = get_blocks_compound(schem);
    let palette_val = match schem.get("Palette") {
        Some(v) => Some(v),
        None => match blocks_comp {
            Some(b) => b.get("Palette"),
            None => None,
        },
    };
    let palette_comp = match palette_val {
        None => return Err(SchematicError::MissingTag("Palette")),
        Some(Value::Compound(c)) => c,
        Some(_) => return Err(SchematicError::WrongType("Palette")),
    };
    let data_val = match schem.get("BlockData") {
        Some(v) => Some(v),
        None => match blocks_comp {
            Some(b) => b.get("Data"),
            None => None,
        },
    };
    let byte_data = match data_val {
        None => return Err(SchematicError::MissingTag("BlockData")),
        Some(Value::ByteArray(a)) => a,
        Some(_) => return Err(SchematicError::WrongType("BlockData")),
    };
    let entries = read_palette_order(palette_comp)?;
    proof {
        assert forall|j: int| 0 <= j < entries@.len() implies (#[trigger] entries@[j]).1 < palette_comp.entries().len() by {
            assert(entries@[j].1 == j);
        }
    }
    let sorted = sort_entries(&entries);
    proof {
        lemma_sort_by_key(entries@);
        sort_keeps_elements(entries@, palette_comp.entries().len());
    }
    let ir_palette = resolve_palette(palette_comp, &sorted)?;
    let bytes = to_unsigned(byte_data);
    assert(width as u64 * height as u64 <= 0xffff_ffffu64 && width as u64 * height as u64
        * length as u64 <= 0xffff_ffff_ffffu64) by (nonlinear_arith)
        requires
            width <= 0xffff,
            height <= 0xffff,
            length <= 0xffff,
    ;
    let volume: u64 = width as u64 * height as u64 * length as u64;
    if volume > usize::MAX as u64 {
        proof {
            assert(byte_data.len() <= usize::MAX);
            assert(unsigned_bytes(byte_data@).len() == byte_data@.len());
            let v = varints(unsigned_bytes(byte_data@));
            if v is Some {
                lemma_varints_count(unsigned_bytes(byte_data@), 0);
            }
        }
        return Err(SchematicError::Malformed(String::from_str("BlockData decoded to the wrong number of cells")));
    }
    let file_indices = read_varints(bytes.as_slice(), volume as usize)?;
    let blocks = remap_cells(&sorted, &file_indices)?;
    let block_entities = parse_block_entities(schem)?;
    let offset = parse_offset(schem)?;
    proof {
        let f = |fi: u32| cell_of(sorted@, fi);
        lemma_map_all(file_indices@, f);
        lemma_sort_by_key(entries@);
        assert forall|i: int| 0 <= i < blocks@.len() implies #[trigger] blocks@[i] < ir_palette@.len() by {
            assert(f(file_indices@[i]) is Ok);
            assert(blocks@[i] == f(file_indices@[i])->Ok_0);
            let j = last_with_key(sorted@, file_indices@[i] as i32)->0;
            assert(last_key_at(sorted@, file_indices@[i] as i32, j));
        }
    }
    let ghost listed = palette_views(ir_palette@);
    proof {
        let p = map_all(sorted@, |e: (i32, usize)| palette_block(*palette_comp, e))->Ok_0;
        assert(listed =~= p);
    }
    let (ir_palette, blocks) = dedup_parts(ir_palette, blocks);
    match Schematic::new(size, ir_palette, blocks, block_entities, offset) {
        Some(s) => Ok(s),
        None => Err(SchematicError::Malformed(String::from_str("block data length / palette index mismatch"))),
    }
}

} // verus!
