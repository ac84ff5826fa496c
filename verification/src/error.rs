use vstd::prelude::*;

verus! {

/// `std::io::Error`, carried through opaquely: nothing here looks inside it.
#[verifier::external_type_specification]
#[verifier::external_body]
pub struct ExIoError(std::io::Error);

/// Errors produced while reading, parsing, or pasting a schematic.
#[derive(Debug)]
pub enum SchematicError {
    /// Failed to read or decompress the input.
    Io(std::io::Error),
    /// The NBT payload could not be decoded.
    Nbt(String),
    /// The file extension / contents did not match any supported format.
    UnknownFormat,
    /// A required NBT tag was missing.
    MissingTag(&'static str),
    /// A tag was present but had the wrong NBT type.
    WrongType(&'static str),
    /// The data was structurally malformed.
    Malformed(String),
    /// A palette entry named a block that the block registry does not know.
    UnknownBlock(String),
    /// A palette entry referenced an unknown block-state property name.
    UnknownProperty(String),
    /// A palette entry referenced an unknown block-state property value.
    UnknownPropertyValue(String),
    /// This format is recognized but support for it is not available.
    Unsupported(&'static str),
}

/// What a [`SchematicError`] reports, as contracts speak of it: the variant
/// and, where it carries a tag or block name, that name.
pub enum Failure {
    Io,
    Nbt,
    UnknownFormat,
    MissingTag(Seq<char>),
    WrongType(Seq<char>),
    Malformed,
    UnknownBlock(Seq<char>),
    UnknownProperty(Seq<char>),
    UnknownPropertyValue(Seq<char>),
    Unsupported(Seq<char>),
}

impl SchematicError {
    pub open spec fn failure(self) -> Failure {
        match self {
            SchematicError::Io(_) => Failure::Io,
            SchematicError::Nbt(_) => Failure::Nbt,
            SchematicError::UnknownFormat => Failure::UnknownFormat,
            SchematicError::MissingTag(t) => Failure::MissingTag(t@),
            SchematicError::WrongType(t) => Failure::WrongType(t@),
            SchematicError::Malformed(_) => Failure::Malformed,
            SchematicError::UnknownBlock(n) => Failure::UnknownBlock(n@),
            SchematicError::UnknownProperty(n) => Failure::UnknownProperty(n@),
            SchematicError::UnknownPropertyValue(n) => Failure::UnknownPropertyValue(n@),
            SchematicError::Unsupported(n) => Failure::Unsupported(n@),
        }
    }
}

} // verus!
