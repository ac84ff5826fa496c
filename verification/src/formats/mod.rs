//! Per-format schematic parsers.
//!
//! Each submodule converts one format into the canonical
//! [`Schematic`](crate::schematic::Schematic) via its
//! `parse(&Compound) -> Result<Schematic, SchematicError>` function.
use vstd::prelude::*;

use crate::error::{Failure, SchematicError};
use crate::nbt::{Compound, Value};
use crate::schematic::{Schematic, SchematicModel};
use crate::text::chars_of;

pub mod litematica;
pub mod sponge;
pub mod structure;

verus! {

/// The supported schematic file formats.
#[derive(Copy, Clone, Eq, PartialEq, Debug, Structural)]
pub enum Format {
    /// Sponge `.schem` (WorldEdit / FAWE), versions 1–3.
    Sponge,
    /// Litematica `.litematic`.
    Litematica,
    /// Vanilla structure block `.nbt`.
    Structure,
}

/// `c` with ASCII upper-case letters lowered, as `to_ascii_lowercase` does.
pub open spec fn ascii_lower(c: char) -> char {
    if 'A' <= c <= 'Z' {
        ((c as u32) + 32) as char
    } else {
        c
    }
}

/// The format an extension names, ignoring ASCII case.
pub open spec fn extension_format(ext: Seq<char>) -> Option<Format> {
    let lower = ext.map_values(|c: char| ascii_lower(c));
    if lower == "schem"@ {
        Some(Format::Sponge)
    } else if lower == "litematic"@ {
        Some(Format::Litematica)
    } else if lower == "nbt"@ {
        Some(Format::Structure)
    } else {
        None
    }
}

/// Whether the characters of `a` are those of `b`.
fn chars_eq(a: &Vec<char>, b: &Vec<char>) -> (r: bool)
    ensures
        r == (a@ == b@),
{
    if a.len() != b.len() {
        return false;
    }
    let mut i: usize = 0;
    while i < a.len()
        invariant
            a@.len() == b@.len(),
            i <= a@.len(),
            forall|j: int| 0 <= j < i ==> a@[j] == b@[j],
        decreases a@.len() - i,
    {
        if a[i] != b[i] {
            return false;
        }
        i = i + 1;
    }
    assert(a@ =~= b@);
    true
}

/// The characters of `s` with ASCII upper-case letters lowered.
fn lowered(s: &str) -> (r: Vec<char>)
    ensures
        r@ == s@.map_values(|c: char| ascii_lower(c)),
{
    let cs = chars_of(s);
    let mut out: Vec<char> = Vec::new();
    let mut i: usize = 0;
    while i < cs.len()
        invariant
            cs@ == s@,
            i <= cs@.len(),
            out@ =~= cs@.take(i as int).map_values(|c: char| ascii_lower(c)),
        decreases cs@.len() - i,
    {
        let c = cs[i];
        let l = if 'A' <= c && c <= 'Z' {
            ((c as u8) + 32) as char
        } else {
            c
        };
        out.push(l);
        assert(cs@.take(i + 1) =~= cs@.take(i as int).push(c));
        i = i + 1;
    }
    assert(cs@.take(cs@.len() as int) =~= cs@);
    out
}

/// The schematic compound: the root, or its `Schematic` child.
pub open spec fn schematic_compound(root: Compound) -> Compound {
    match root.lookup("Schematic"@) {
        Some(Value::Compound(c)) => c,
        _ => root,
    }
}

/// The format a root compound's tag names reveal, if any.
pub open spec fn detected(root: Compound) -> Option<Format> {
    let schem = schematic_compound(root);
    if schem.lookup("Regions"@) is Some {
        Some(Format::Litematica)
    } else if schem.lookup("BlockData"@) is Some || schem.lookup("Blocks"@) matches Some(
        Value::Compound(_),
    ) {
        Some(Format::Sponge)
    } else if schem.lookup("blocks"@) is Some && schem.lookup("palette"@) is Some {
        Some(Format::Structure)
    } else {
        None
    }
}

/// Detection reads the schematic compound (the root, or its `Schematic`
/// child): a `Regions` tag means Litematica; otherwise a `BlockData` tag or a
/// `Blocks` compound (Sponge v1-v2 and v3) means Sponge; otherwise `blocks`
/// together with `palette` means a structure file; anything else is unknown.
pub proof fn law_detection(root: Compound)
    ensures
        ({
            let schem = match root.lookup("Schematic"@) {
                Some(Value::Compound(c)) => c,
                _ => root,
            };
            let sponge = schem.lookup("BlockData"@) is Some || schem.lookup("Blocks"@) matches Some(Value::Compound(_));
            &&& schem.lookup("Regions"@) is Some ==> detected(root) == Some(Format::Litematica)
            &&& schem.lookup("Regions"@) is None && sponge ==> detected(root) == Some(Format::Sponge)
            &&& schem.lookup("Regions"@) is None && !sponge && schem.lookup("blocks"@) is Some && schem.lookup(
                "palette"@,
            ) is Some ==> detected(root) == Some(Format::Structure)
            &&& schem.lookup("Regions"@) is None && !sponge && !(schem.lookup("blocks"@) is Some && schem.lookup(
                "palette"@,
            ) is Some) ==> detected(root) is None
        }),
{
}

/// What a root compound denotes when read as `format`.
pub open spec fn format_model(format: Format, root: Compound) -> Result<SchematicModel, Failure> {
    match format {
        Format::Sponge => sponge::sponge_model(root),
        Format::Litematica => litematica::litematica_model(root),
        Format::Structure => structure::structure_model(root),
    }
}

impl Format {
    /// Guess the format from a file extension (ASCII case-insensitive).
    pub fn from_extension(ext: &str) -> (r: Option<Format>)
        ensures
            r == extension_format(ext@),
    {
        let lower = lowered(ext);
        if chars_eq(&lower, &chars_of("schem")) {
            Some(Format::Sponge)
        } else if chars_eq(&lower, &chars_of("litematic")) {
            Some(Format::Litematica)
        } else if chars_eq(&lower, &chars_of("nbt")) {
            Some(Format::Structure)
        } else {
            None
        }
    }

    /// Guess the format by inspecting the root compound's tag names.
    pub fn detect(root: &Compound) -> (r: Option<Format>)
        ensures
            r == detected(*root),
    {
        let schem = match root.get("Schematic") {
            Some(Value::Compound(c)) => c,
            _ => root,
        };
        if schem.get("Regions").is_some() {
            return Some(Format::Litematica);
        }
        let blocks_is_compound = match schem.get("Blocks") {
            Some(v) => is_compound(v),
            None => false,
        };
        if schem.get("BlockData").is_some() || blocks_is_compound {
            return Some(Format::Sponge);
        }
        if schem.get("blocks").is_some() && schem.get("palette").is_some() {
            return Some(Format::Structure);
        }
        None
    }

    /// The name under which support for this format is built.
    pub fn feature_name(self) -> (r: &'static str)
        ensures
            r@ == match self {
                Format::Sponge => "sponge"@,
                Format::Litematica => "litematica"@,
                Format::Structure => "structure"@,
            },
    {
        match self {
            Format::Sponge => "sponge",
            Format::Litematica => "litematica",
            Format::Structure => "structure",
        }
    }
}

/// Whether a value is a compound.
pub fn is_compound(v: &Value) -> (r: bool)
    ensures
        r == (*v is Compound),
{
    match v {
        Value::Compound(_) => true,
        _ => false,
    }
}

/// Parse an already-decoded root compound using the given format.
pub fn parse(format: Format, root: &Compound) -> (r: Result<Schematic, SchematicError>)
    ensures
        match r {
            Ok(s) => format_model(format, *root) matches Ok(m) && s.models(m),
            Err(e) => format_model(format, *root) == Err::<SchematicModel, Failure>(e.failure()),
        },
{
    match format {
        Format::Sponge => sponge::parse(root),
        Format::Litematica => litematica::parse(root),
        Format::Structure => structure::parse(root),
    }
}

} // verus!
