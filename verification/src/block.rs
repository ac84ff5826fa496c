//! Block-state strings and palette entries.
//!
//! A palette entry names a block (`minecraft:oak_stairs`, or without a
//! namespace, `oak_stairs`) and a list of `(property, value)` pairs. This
//! module parses the textual and compound forms into a [`BlockSpec`]; looking
//! the names up in a block registry is left to the caller.
use vstd::prelude::*;
use vstd::string::StrSliceExecFns;
use vstd::string::StringExecFns;

use crate::error::SchematicError;
use crate::nbt::{Compound, Value};
use crate::text::{chars_of, find, find_in, split_on, trim, trim_range};

verus! {

broadcast use vstd::string::group_string_axioms;

/// A block state as a schematic names it: the block's identifier and its
/// properties, in the order given.
#[derive(Debug, Clone)]
pub struct BlockSpec {
    pub name: String,
    pub properties: Vec<(String, String)>,
}

impl BlockSpec {
    /// The properties, as character sequences.
    pub open spec fn props(self) -> Seq<(Seq<char>, Seq<char>)> {
        Seq::new(
            self.properties@.len(),
            |i: int| (self.properties@[i].0@, self.properties@[i].1@),
        )
    }
}

/// A block state as contracts speak of it: the identifier and the properties.
pub type BlockView = (Seq<char>, Seq<(Seq<char>, Seq<char>)>);

/// The view of a palette entry.
pub open spec fn block_view(b: BlockSpec) -> BlockView {
    (b.name@, b.props())
}

/// Whether a block names `air`, in any namespace.
pub open spec fn names_air(v: BlockView) -> bool {
    namespace_stripped(v.0) == "air"@
}

/// Whether a palette entry names `air`, in any namespace.
pub fn is_air(b: &BlockSpec) -> (r: bool)
    ensures
        r == names_air(block_view(*b)),
{
    strip_namespace(b.name.as_str()).to_owned() == String::from_str("air")
}

/// The default `minecraft:air` entry.
pub fn air_block() -> (r: BlockSpec)
    ensures
        block_view(r) == ("minecraft:air"@, Seq::<(Seq<char>, Seq<char>)>::empty()),
{
    let b = BlockSpec { name: String::from_str("minecraft:air"), properties: Vec::new() };
    assert(b.props() =~= Seq::<(Seq<char>, Seq<char>)>::empty());
    b
}

/// `k` is the last position of `c` in `s`.
pub open spec fn last_at(s: Seq<char>, c: char, k: int) -> bool {
    &&& 0 <= k < s.len()
    &&& s[k] == c
    &&& forall|j: int| k < j < s.len() ==> s[j] != c
}

/// The part of an identifier after its last `:`, or the whole identifier.
pub open spec fn namespace_stripped(s: Seq<char>) -> Seq<char> {
    if exists|k: int| last_at(s, ':', k) {
        s.skip((choose|k: int| last_at(s, ':', k)) + 1)
    } else {
        s
    }
}

/// The identifier without its namespace: everything after the last `:`.
pub fn strip_namespace(name: &str) -> (r: &str)
    ensures
        r@ == namespace_stripped(name@),
{
    let cs = chars_of(name);
    let mut i = cs.len();
    while i > 0
        invariant
            i <= cs@.len(),
            cs@ == name@,
            forall|j: int| i <= j < cs@.len() ==> cs@[j] != ':',
        decreases i,
    {
        if cs[i - 1] == ':' {
            proof {
                assert(last_at(name@, ':', i - 1));
                let k = choose|k: int| last_at(name@, ':', k);
                if k < i - 1 {
                    assert(name@[i - 1] == ':');
                } else if k > i - 1 {
                    assert(name@[k] == ':');
                }
            }
            return name.substring_char(i, cs.len());
        }
        i = i - 1;
    }
    proof {
        if exists|k: int| last_at(name@, ':', k) {
            let k = choose|k: int| last_at(name@, ':', k);
            assert(cs@[k] == ':');
        }
        assert(name@.skip(0) =~= name@);
    }
    name.substring_char(0, cs.len())
}

/// A `key=value` piece of a state string, both sides trimmed.
pub open spec fn piece_pair(p: Seq<char>) -> Option<(Seq<char>, Seq<char>)> {
    match find(p, '=') {
        Some(k) => Some((trim(p.take(k)), trim(p.skip(k + 1)))),
        None => None,
    }
}

/// What a state string such as `minecraft:oak_stairs[facing=east,half=bottom]`
/// denotes: the identifier and the properties, or `None` where it is malformed.
pub open spec fn state_string(s: Seq<char>) -> Option<(Seq<char>, Seq<(Seq<char>, Seq<char>)>)> {
    let t = trim(s);
    match find(t, '[') {
        None => Some((t, Seq::empty())),
        Some(open) => {
            let rest = t.skip(open + 1);
            if rest.len() > 0 && rest.last() == ']' {
                let inner = rest.drop_last();
                if trim(inner).len() == 0 {
                    Some((t.take(open), Seq::empty()))
                } else {
                    let ps = split_on(inner, ',');
                    if forall|i: int| 0 <= i < ps.len() ==> piece_pair(#[trigger] ps[i]) is Some {
                        Some((t.take(open), Seq::new(ps.len(), |i: int| piece_pair(ps[i])->0)))
                    } else {
                        None
                    }
                }
            } else {
                None
            }
        },
    }
}

/// Parse a full block-state string such as
/// `minecraft:oak_stairs[facing=east,half=bottom,waterlogged=false]`.
pub fn parse_state_string(s: &str) -> (r: Result<BlockSpec, SchematicError>)
    ensures
        match r {
            Ok(b) => state_string(s@) == Some((b.name@, b.props())),
            Err(e) => state_string(s@) is None && e is Malformed,
        },
{
    let cs = chars_of(s);
    let (lo, hi) = trim_range(&cs, 0, cs.len());
    let ghost t = cs@.subrange(lo as int, hi as int);
    assert(cs@.subrange(0, cs@.len() as int) =~= s@);
    let open = match find_in(&cs, lo, hi, '[') {
        None => {
            let name = s.substring_char(lo, hi).to_owned();
            let b = BlockSpec { name, properties: Vec::new() };
            assert(b.props() =~= Seq::<(Seq<char>, Seq<char>)>::empty());
            return Ok(b);
        },
        Some(open) => open,
    };
    assert(t.take(open - lo) =~= cs@.subrange(lo as int, open as int));
    assert(t.skip(open - lo + 1) =~= cs@.subrange(open + 1, hi as int));
    if !(open + 1 < hi && cs[hi - 1] == ']') {
        let mut msg = String::from_str("unterminated state string `");
        msg.append(s);
        msg.append("`");
        return Err(SchematicError::Malformed(msg));
    }
    let end = hi - 1;
    let ghost inner = cs@.subrange(open + 1, end as int);
    assert(t.skip(open - lo + 1).drop_last() =~= inner);
    let name = s.substring_char(lo, open).to_owned();
    let mut props: Vec<(String, String)> = Vec::new();
    let (ilo, ihi) = trim_range(&cs, open + 1, end);
    if ilo == ihi {
        let b = BlockSpec { name, properties: props };
        assert(b.props() =~= Seq::<(Seq<char>, Seq<char>)>::empty());
        return Ok(b);
    }
    let props = match parse_properties(s, &cs, open + 1, end) {
        Ok(p) => p,
        Err(e) => {
            assert(trim(inner).len() > 0);
            return Err(e);
        },
    };
    let b = BlockSpec { name, properties: props };
    proof {
        let ps = split_on(inner, ',');
        assert(b.props() =~= Seq::new(ps.len(), |i: int| piece_pair(ps[i])->0));
    }
    Ok(b)
}

/// The `key=value` pairs of `cs[start..end]`, split at each `,`.
fn parse_properties(s: &str, cs: &Vec<char>, start: usize, end: usize) -> (r: Result<
    Vec<(String, String)>,
    SchematicError,
>)
    requires
        cs@ == s@,
        start <= end <= cs@.len(),
    ensures
        ({
            let ps = split_on(cs@.subrange(start as int, end as int), ',');
            match r {
                Ok(props) => {
                    &&& forall|i: int| 0 <= i < ps.len() ==> piece_pair(#[trigger] ps[i]) is Some
                    &&& props@.len() == ps.len()
                    &&& forall|i: int|
                        0 <= i < ps.len() ==> piece_pair(#[trigger] ps[i]) == Some(
                            (props@[i].0@, props@[i].1@),
                        )
                },
                Err(e) => e is Malformed && !(forall|i: int|
                    0 <= i < ps.len() ==> piece_pair(#[trigger] ps[i]) is Some),
            }
        }),
{
    let ghost inner = cs@.subrange(start as int, end as int);
    let mut props: Vec<(String, String)> = Vec::new();
    let mut pos = start;
    let ghost mut done: Seq<Seq<char>> = Seq::empty();
    assert(cs@.subrange(pos as int, end as int) == inner);
    loop
        invariant_except_break
            split_on(inner, ',') == done + split_on(cs@.subrange(pos as int, end as int), ','),
        invariant
            start <= pos <= end,
            end <= cs@.len(),
            cs@ == s@,
            inner == cs@.subrange(start as int, end as int),
            props@.len() == done.len(),
            forall|i: int|
                0 <= i < done.len() ==> piece_pair(#[trigger] done[i]) == Some(
                    (props@[i].0@, props@[i].1@),
                ),
        ensures
            split_on(inner, ',') == done,
            props@.len() == done.len(),
            forall|i: int|
                0 <= i < done.len() ==> piece_pair(#[trigger] done[i]) == Some(
                    (props@[i].0@, props@[i].1@),
                ),
        decreases end - pos,
    {
        let ghost sub = cs@.subrange(pos as int, end as int);
        let comma = find_in(cs, pos, end, ',');
        let pend = match comma {
            Some(k) => k,
            None => end,
        };
        let ghost piece = cs@.subrange(pos as int, pend as int);
        proof {
            match comma {
                Some(k) => {
                    assert(sub.take(k - pos) =~= piece);
                    assert(sub.skip(k - pos + 1) =~= cs@.subrange(k + 1, end as int));
                    assert(split_on(sub, ',') == seq![piece] + split_on(
                        cs@.subrange(k + 1, end as int),
                        ',',
                    ));
                },
                None => {
                    assert(sub =~= piece);
                    assert(split_on(sub, ',') == seq![piece]);
                },
            }
        }
        match find_in(cs, pos, pend, '=') {
            None => {
                proof {
                    let ps = split_on(inner, ',');
                    assert(ps[done.len() as int] == piece);
                    assert(piece_pair(ps[done.len() as int]) is None);
                    assert(!(forall|i: int| 0 <= i < ps.len() ==> piece_pair(#[trigger] ps[i]) is Some));
                }
                let mut msg = String::from_str("bad property `");
                msg.append(s.substring_char(pos, pend));
                msg.append("`");
                return Err(SchematicError::Malformed(msg));
            },
            Some(eq) => {
                let (klo, khi) = trim_range(cs, pos, eq);
                let (vlo, vhi) = trim_range(cs, eq + 1, pend);
                assert(piece.take(eq - pos) =~= cs@.subrange(pos as int, eq as int));
                assert(piece.skip(eq - pos + 1) =~= cs@.subrange(eq + 1, pend as int));
                let key = s.substring_char(klo, khi).to_owned();
                let value = s.substring_char(vlo, vhi).to_owned();
                assert(piece_pair(piece) == Some((key@, value@)));
                props.push((key, value));
            },
        }
        proof {
            done = done.push(piece);
        }
        match comma {
            Some(k) => {
                proof {
                    assert(split_on(inner, ',') == done + split_on(
                        cs@.subrange(k + 1, end as int),
                        ',',
                    ));
                }
                pos = k + 1;
            },
            None => {
                proof {
                    assert(split_on(inner, ',') =~= done);
                }
                break;
            },
        }
    }
    Ok(props)
}

/// The properties of a `Properties` compound, when every value is a string.
pub open spec fn compound_props(c: Compound) -> Option<Seq<(Seq<char>, Seq<char>)>> {
    if forall|i: int| 0 <= i < c.entries().len() ==> (#[trigger] c.entries()[i]).1 is Str {
        Some(
            Seq::new(
                c.entries().len(),
                |i: int| (c.entries()[i].0@, c.entries()[i].1->Str_0@),
            ),
        )
    } else {
        None
    }
}

/// A block from an explicit `Name` plus an optional `Properties` compound,
/// whose values must be NBT strings.
pub fn resolve_from_compound(name: &str, properties: Option<&Compound>) -> (r: Result<
    BlockSpec,
    SchematicError,
>)
    ensures
        match properties {
            None => r matches Ok(b) && b.name@ == name@ && b.props() == Seq::<
                (Seq<char>, Seq<char>),
            >::empty(),
            Some(c) => match compound_props(*c) {
                Some(ps) => r matches Ok(b) && b.name@ == name@ && b.props() == ps,
                None => r matches Err(SchematicError::WrongType(t)) && t@
                    == "Properties value"@,
            },
        },
{
    let mut props: Vec<(String, String)> = Vec::new();
    if let Some(c) = properties {
        let n = c.len();
        let mut i: usize = 0;
        while i < n
            invariant
                n == c.entries().len(),
                properties == Some(c),
                i <= n,
                props@.len() == i,
                forall|j: int| 0 <= j < i ==> (#[trigger] c.entries()[j]).1 is Str,
                forall|j: int|
                    0 <= j < i ==> (#[trigger] props@[j]).0@ == c.entries()[j].0@ && props@[j].1@
                        == c.entries()[j].1->Str_0@,
            decreases n - i,
        {
            let (k, v) = c.entry(i);
            match v {
                Value::Str(v) => {
                    props.push((k.clone(), v.clone()));
                },
                _ => {
                    assert(!(c.entries()[i as int].1 is Str));
                    assert(compound_props(*c) is None);
                    return Err(SchematicError::WrongType("Properties value"));
                },
            }
            i = i + 1;
        }
        let b = BlockSpec { name: name.to_owned(), properties: props };
        assert(b.props() =~= compound_props(*c)->0);
        Ok(b)
    } else {
        let b = BlockSpec { name: name.to_owned(), properties: props };
        assert(b.props() =~= Seq::<(Seq<char>, Seq<char>)>::empty());
        Ok(b)
    }
}

} // verus!
