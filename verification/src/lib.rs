//! Load popular Minecraft schematic formats (Sponge, Litematica and vanilla
//! structure files) into one canonical, palette-indexed [`Schematic`].
//!
//! The API is split into decoding and interpretation: a file's bytes are
//! decompressed ([`maybe_gunzip`]) and decoded into an NBT [`Compound`]
//! (`nbt`), and [`from_compound`] detects the format and converts the compound
//! into a format-agnostic [`Schematic`].

pub mod block;
pub mod error;
pub mod formats;
pub mod nbt;
mod outcome;
pub mod palette;
pub mod paste;
pub mod schematic;
mod text;

use std::io::Read;

use vstd::prelude::*;

pub use error::SchematicError;
pub use formats::Format;
pub use nbt::Compound;
pub use schematic::Schematic;

use error::Failure;
use formats::{detected, format_model};
use schematic::SchematicModel;

verus! {

/// What `flate2`'s gzip decoder yields for `bytes`: the decompressed bytes of
/// the first gzip member, or `None` where decoding fails.
pub uninterp spec fn gzip_decoded(bytes: Seq<u8>) -> Option<Seq<u8>>;

/// Decompress `bytes` with `flate2::read::GzDecoder`, reading to the end.
/// Trusted: the decoder is a function of its input, succeeding with the
/// decompressed bytes or failing with an I/O error, as `gzip_decoded` names it.
#[verifier::external_body]
fn gunzip(bytes: &[u8]) -> (r: Result<Vec<u8>, std::io::Error>)
    ensures
        match r {
            Ok(v) => gzip_decoded(bytes@) == Some(v@),
            Err(_) => gzip_decoded(bytes@) is None,
        },
{
    let mut out = Vec::new();
    match flate2::read::GzDecoder::new(bytes).read_to_end(&mut out) {
        Ok(_) => Ok(out),
        Err(e) => Err(e),
    }
}

/// Whether `b` starts with the gzip magic number `1f 8b`.
pub open spec fn is_gzip(b: Seq<u8>) -> bool {
    b.len() >= 2 && b[0] == 0x1f && b[1] == 0x8b
}

/// The bytes of an NBT payload: gzip-compressed input is decompressed, raw
/// input is returned as it is.
pub fn maybe_gunzip(bytes: &[u8]) -> (r: Result<Vec<u8>, SchematicError>)
    ensures
        !is_gzip(bytes@) ==> (r matches Ok(v) && v@ == bytes@),
        is_gzip(bytes@) ==> match r {
            Ok(v) => gzip_decoded(bytes@) == Some(v@),
            Err(e) => gzip_decoded(bytes@) is None && e is Io,
        },
{
    if bytes.len() >= 2 && bytes[0] == 0x1f && bytes[1] == 0x8b {
        match gunzip(bytes) {
            Ok(out) => Ok(out),
            Err(e) => Err(SchematicError::Io(e)),
        }
    } else {
        Ok(vstd::slice::slice_to_vec(bytes))
    }
}

/// A format hint fits a root compound unless detection names another format.
pub open spec fn format_fits(hint: Format, root: Compound) -> bool {
    match detected(root) {
        None => true,
        Some(d) => d == hint,
    }
}

/// The format a root compound is read as: the hint where it fits, else the
/// detected one.
pub open spec fn chosen_format(root: Compound, hint: Option<Format>) -> Option<Format> {
    match hint {
        Some(f) => if format_fits(f, root) {
            Some(f)
        } else {
            detected(root)
        },
        None => detected(root),
    }
}

/// Whether a format hint fits a root compound: detection finds no format,
/// or finds this one.
pub fn format_matches(hint: Format, root: &Compound) -> (r: bool)
    ensures
        r == format_fits(hint, *root),
{
    match Format::detect(root) {
        None => true,
        Some(detected) => detected == hint,
    }
}

/// Load a schematic from a decoded root compound.
///
/// `format` is an optional hint. When `None`, or when the hinted format does
/// not match the data, the format is detected from the NBT structure.
pub fn from_compound(root: &Compound, format: Option<Format>) -> (r: Result<Schematic, SchematicError>)
    ensures
        match chosen_format(*root, format) {
            None => (r matches Err(e) && e is UnknownFormat),
            Some(f) => match r {
                Ok(s) => format_model(f, *root) matches Ok(m) && s.models(m),
                Err(e) => format_model(f, *root) == Err::<SchematicModel, Failure>(e.failure()),
            },
        },
{
    let chosen = match format {
        Some(f) => if format_matches(f, root) {
            Some(f)
        } else {
            Format::detect(root)
        },
        None => Format::detect(root),
    };
    match chosen {
        Some(f) => formats::parse(f, root),
        None => Err(SchematicError::UnknownFormat),
    }
}

/// A hint never overrides detection: where the tags name a format, that format
/// is read whatever the hint says, so a mislabeled file still loads; only where
/// detection finds nothing does the hint decide.
pub proof fn law_detection_overrides_hint(root: Compound, hint: Option<Format>)
    ensures
        detected(root) is Some ==> chosen_format(root, hint) == detected(root),
        detected(root) is None ==> chosen_format(root, hint) == hint,
{
}

} // verus!
