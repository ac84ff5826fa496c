use std::io::Write;

use chunkedge_schematics::nbt::{Compound, List, Value};
use chunkedge_schematics::paste::paste_plan;
use chunkedge_schematics::{format_matches, from_compound, maybe_gunzip, Format, SchematicError};

fn comp(entries: Vec<(&str, Value)>) -> Compound {
    let mut c = Compound::new();
    for (k, v) in entries {
        c.insert(k.to_string(), v);
    }
    c
}

fn named(name: &str) -> Compound {
    comp(vec![("Name", Value::Str(name.to_string()))])
}

fn sponge_stone() -> Compound {
    comp(vec![
        ("Width", Value::Short(1)),
        ("Height", Value::Short(1)),
        ("Length", Value::Short(1)),
        ("Palette", Value::Compound(comp(vec![("minecraft:stone", Value::Int(0))]))),
        ("BlockData", Value::ByteArray(vec![0])),
    ])
}

/// A 2x1x1 structure: stone, then east-facing oak stairs.
fn structure_root() -> Compound {
    let mut stairs = named("minecraft:oak_stairs");
    stairs.insert(
        "Properties".to_string(),
        Value::Compound(comp(vec![
            ("facing", Value::Str("east".to_string())),
            ("half", Value::Str("bottom".to_string())),
            ("waterlogged", Value::Str("false".to_string())),
        ])),
    );
    comp(vec![
        ("size", Value::List(List::Int(vec![2, 1, 1]))),
        ("palette", Value::List(List::Compound(vec![named("minecraft:stone"), stairs]))),
        (
            "blocks",
            Value::List(List::Compound(vec![
                comp(vec![("state", Value::Int(0)), ("pos", Value::List(List::Int(vec![0, 0, 0])))]),
                comp(vec![("state", Value::Int(1)), ("pos", Value::List(List::Int(vec![1, 0, 0])))]),
            ])),
        ),
    ])
}

fn gzip(bytes: &[u8]) -> Vec<u8> {
    let mut enc = flate2::write::GzEncoder::new(Vec::new(), flate2::Compression::default());
    enc.write_all(bytes).unwrap();
    enc.finish().unwrap()
}

#[test]
fn extensions_name_formats_in_any_case() {
    assert_eq!(Format::from_extension("schem"), Some(Format::Sponge));
    assert_eq!(Format::from_extension("SCHEM"), Some(Format::Sponge));
    assert_eq!(Format::from_extension("Litematic"), Some(Format::Litematica));
    assert_eq!(Format::from_extension("nbt"), Some(Format::Structure));
    assert_eq!(Format::from_extension("schematic"), None);
    assert_eq!(Format::from_extension(""), None);
}

#[test]
fn feature_names() {
    assert_eq!(Format::Sponge.feature_name(), "sponge");
    assert_eq!(Format::Litematica.feature_name(), "litematica");
    assert_eq!(Format::Structure.feature_name(), "structure");
}

#[test]
fn detection_reads_tag_names() {
    assert_eq!(Format::detect(&sponge_stone()), Some(Format::Sponge));
    let wrapped = comp(vec![("Schematic", Value::Compound(sponge_stone()))]);
    assert_eq!(Format::detect(&wrapped), Some(Format::Sponge));
    assert_eq!(Format::detect(&structure_root()), Some(Format::Structure));
    let lite = comp(vec![("Regions", Value::Compound(Compound::new()))]);
    assert_eq!(Format::detect(&lite), Some(Format::Litematica));
    assert_eq!(Format::detect(&Compound::new()), None);
    // A `Blocks` tag that is not a compound does not make a Sponge file.
    let not_v3 = comp(vec![("Blocks", Value::Int(0))]);
    assert_eq!(Format::detect(&not_v3), None);
}

#[test]
fn a_mislabeled_file_still_loads() {
    assert!(!format_matches(Format::Litematica, &sponge_stone()));
    assert!(format_matches(Format::Sponge, &sponge_stone()));
    let s = from_compound(&sponge_stone(), Some(Format::Structure)).unwrap();
    assert_eq!(s.block_at(0, 0, 0).unwrap().name, "minecraft:stone");
    let t = from_compound(&structure_root(), None).unwrap();
    assert_eq!(t.size(), [2, 1, 1]);
}

#[test]
fn the_hint_decides_only_where_detection_cannot() {
    assert!(format_matches(Format::Sponge, &Compound::new()));
    assert!(matches!(from_compound(&Compound::new(), None), Err(SchematicError::UnknownFormat)));
    // Undetectable data read as the hinted format fails inside that format.
    assert!(matches!(
        from_compound(&Compound::new(), Some(Format::Sponge)),
        Err(SchematicError::MissingTag("Width"))
    ));
    assert!(matches!(
        from_compound(&Compound::new(), Some(Format::Litematica)),
        Err(SchematicError::MissingTag("Regions"))
    ));
}

#[test]
fn raw_bytes_pass_through() {
    let raw = vec![10u8, 0, 0, 0];
    assert_eq!(maybe_gunzip(&raw).unwrap(), raw);
    assert_eq!(maybe_gunzip(&[]).unwrap(), Vec::<u8>::new());
    assert_eq!(maybe_gunzip(&[0x1f]).unwrap(), vec![0x1f]);
}

#[test]
fn gzip_bytes_are_decompressed() {
    let payload = b"\x0a\x00\x00\x00 some nbt payload".to_vec();
    let packed = gzip(&payload);
    assert_ne!(packed, payload);
    assert_eq!(maybe_gunzip(&packed).unwrap(), payload);
}

#[test]
fn corrupt_gzip_is_an_io_error() {
    assert!(matches!(maybe_gunzip(&[0x1f, 0x8b, 0x00, 0x01]), Err(SchematicError::Io(_))));
}

#[test]
fn pastes_blocks_into_a_live_layer() {
    let schem = from_compound(&structure_root(), Some(Format::Structure)).expect("load");
    let plan = paste_plan(&schem, [0, 64, 0]);
    assert_eq!(plan.blocks.len(), 2, "both non-air blocks should be placed");
    let (pos, idx) = plan.blocks[0];
    assert_eq!(pos, [0, 64, 0]);
    assert_eq!(schem.palette()[idx as usize].name, "minecraft:stone");
    let (pos, idx) = plan.blocks[1];
    assert_eq!(pos, [1, 64, 0]);
    let stairs = &schem.palette()[idx as usize];
    assert_eq!(stairs.name, "minecraft:oak_stairs");
    assert_eq!(stairs.properties.len(), 3, "stairs should keep their properties");
    assert!(plan.entities.is_empty());
}

#[test]
fn paste_skips_air_and_applies_the_offset() {
    let mut root = sponge_stone();
    root.insert("Width".to_string(), Value::Short(2));
    root.insert(
        "Palette".to_string(),
        Value::Compound(comp(vec![("minecraft:air", Value::Int(0)), ("minecraft:stone", Value::Int(1))])),
    );
    root.insert("BlockData".to_string(), Value::ByteArray(vec![0, 1]));
    root.insert("Offset".to_string(), Value::IntArray(vec![-5, 1, 2]));
    root.insert(
        "BlockEntities".to_string(),
        Value::List(List::Compound(vec![comp(vec![("Pos", Value::IntArray(vec![1, 0, 0]))])])),
    );
    let schem = from_compound(&root, None).unwrap();
    let plan = paste_plan(&schem, [10, 20, 30]);
    assert_eq!(plan.blocks, vec![([6, 21, 32], 1)]);
    assert_eq!(plan.entities, vec![[6, 21, 32]]);
}

#[test]
fn paste_positions_only_matter_where_blocks_are_written() {
    // The far cell is air, so its position past i32::MAX is never computed.
    let mut root = sponge_stone();
    root.insert("Width".to_string(), Value::Short(2));
    root.insert(
        "Palette".to_string(),
        Value::Compound(comp(vec![("minecraft:stone", Value::Int(0)), ("minecraft:air", Value::Int(1))])),
    );
    root.insert("BlockData".to_string(), Value::ByteArray(vec![0, 1]));
    let schem = from_compound(&root, None).unwrap();
    let plan = paste_plan(&schem, [i32::MAX, 0, i32::MIN]);
    assert_eq!(plan.blocks, vec![([i32::MAX, 0, i32::MIN], 0)]);
}
