use chunkedge_schematics::formats::sponge::{parse, read_varints};
use chunkedge_schematics::nbt::{Compound, List, Value};
use chunkedge_schematics::SchematicError;

fn comp(entries: Vec<(&str, Value)>) -> Compound {
    let mut c = Compound::new();
    for (k, v) in entries {
        c.insert(k.to_string(), v);
    }
    c
}

fn one_stone() -> Compound {
    comp(vec![
        ("Width", Value::Short(1)),
        ("Height", Value::Short(1)),
        ("Length", Value::Short(1)),
        ("Palette", Value::Compound(comp(vec![("minecraft:stone", Value::Int(0))]))),
        ("BlockData", Value::ByteArray(vec![0])),
    ])
}

fn name_at(s: &chunkedge_schematics::Schematic, x: u32, y: u32, z: u32) -> String {
    s.block_at(x, y, z).unwrap().name.clone()
}

#[test]
fn single_stone_v2() {
    let schem = parse(&one_stone()).unwrap();
    assert_eq!(schem.size(), [1, 1, 1]);
    assert_eq!(name_at(&schem, 0, 0, 0), "minecraft:stone");
    assert_eq!(schem.offset(), [0, 0, 0]);
    assert!(schem.block_entities().is_empty());
}

#[test]
fn wrapped_under_schematic() {
    let root = comp(vec![("Schematic", Value::Compound(one_stone()))]);
    let schem = parse(&root).unwrap();
    assert_eq!(schem.size(), [1, 1, 1]);
    assert_eq!(name_at(&schem, 0, 0, 0), "minecraft:stone");
}

#[test]
fn multibyte_varint_index() {
    // Index 200 encodes as a two-byte LEB128 varint (0xC8, 0x01).
    let mut palette = comp(vec![("minecraft:stone", Value::Int(0))]);
    for n in 1..=200_i32 {
        let name = if n == 200 {
            "minecraft:dirt"
        } else {
            match n % 3 {
                0 => "minecraft:white_wool",
                1 => "minecraft:glass",
                _ => "minecraft:cobblestone",
            }
        }
        .to_string();
        palette.insert(name, Value::Int(n));
    }

    let block_data: Vec<i8> = vec![0x00, 0xC8u8 as i8, 0x01];

    let root = comp(vec![
        ("Width", Value::Short(2)),
        ("Height", Value::Short(1)),
        ("Length", Value::Short(1)),
        ("Palette", Value::Compound(palette)),
        ("BlockData", Value::ByteArray(block_data)),
    ]);

    let schem = parse(&root).unwrap();
    assert_eq!(schem.size(), [2, 1, 1]);
    assert_eq!(name_at(&schem, 0, 0, 0), "minecraft:stone");
    assert_eq!(name_at(&schem, 1, 0, 0), "minecraft:dirt");
}

#[test]
fn v3_blocks_compound() {
    let inner = comp(vec![
        ("Width", Value::Short(1)),
        ("Height", Value::Short(1)),
        ("Length", Value::Short(1)),
        (
            "Blocks",
            Value::Compound(comp(vec![
                ("Palette", Value::Compound(comp(vec![("minecraft:stone", Value::Int(0))]))),
                ("Data", Value::ByteArray(vec![0])),
            ])),
        ),
    ]);
    let root = comp(vec![("Schematic", Value::Compound(inner))]);

    let schem = parse(&root).unwrap();
    assert_eq!(name_at(&schem, 0, 0, 0), "minecraft:stone");
}

#[test]
fn block_entity_with_offset() {
    let root = comp(vec![
        ("Width", Value::Short(1)),
        ("Height", Value::Short(1)),
        ("Length", Value::Short(1)),
        ("Palette", Value::Compound(comp(vec![("minecraft:chest", Value::Int(0))]))),
        ("BlockData", Value::ByteArray(vec![0])),
        ("Offset", Value::IntArray(vec![1, 2, 3])),
        (
            "BlockEntities",
            Value::List(List::Compound(vec![comp(vec![
                ("Id", Value::Str("minecraft:chest".to_string())),
                ("Pos", Value::IntArray(vec![0, 0, 0])),
            ])])),
        ),
    ]);

    let schem = parse(&root).unwrap();
    assert_eq!(schem.offset(), [1, 2, 3]);
    assert_eq!(schem.block_entities().len(), 1);
    assert_eq!(schem.block_entities()[0].0, [0, 0, 0]);
}

#[test]
fn varint_decoder_truncation() {
    // A lone continuation byte (high bit set) is a truncated varint.
    assert!(read_varints(&[0x80], 1).is_err());
}

#[test]
fn varint_decoder_basic() {
    assert_eq!(read_varints(&[0x00, 0xC8, 0x01], 2).unwrap(), vec![0, 200]);
}

#[test]
fn varint_decoder_limits() {
    // Five bytes reach bit 28; a sixth would shift past 32 bits.
    assert_eq!(read_varints(&[0xFF, 0xFF, 0xFF, 0xFF, 0x0F], 1).unwrap(), vec![u32::MAX]);
    assert!(matches!(
        read_varints(&[0x80, 0x80, 0x80, 0x80, 0x80, 0x00], 1),
        Err(SchematicError::Malformed(_))
    ));
    assert!(matches!(read_varints(&[0x01, 0x02], 3), Err(SchematicError::Malformed(_))));
    // A fifth byte with bits above bit 31 does not fit in 32 bits.
    assert!(matches!(
        read_varints(&[0xFF, 0xFF, 0xFF, 0xFF, 0x7F], 1),
        Err(SchematicError::Malformed(_))
    ));
    assert!(matches!(
        read_varints(&[0x80, 0x80, 0x80, 0x80, 0x10], 1),
        Err(SchematicError::Malformed(_))
    ));
    assert_eq!(read_varints(&[], 0).unwrap(), Vec::<u32>::new());
}

#[test]
fn sparse_palette_indices_are_remapped_in_order() {
    let root = comp(vec![
        ("Width", Value::Short(3)),
        ("Height", Value::Short(1)),
        ("Length", Value::Short(1)),
        (
            "Palette",
            Value::Compound(comp(vec![
                ("minecraft:dirt", Value::Int(9)),
                ("minecraft:stone", Value::Int(4)),
                ("minecraft:glass", Value::Int(-1)),
            ])),
        ),
        ("BlockData", Value::ByteArray(vec![9, 4, 9])),
    ]);
    let schem = parse(&root).unwrap();
    let names: Vec<&str> = schem.palette().iter().map(|b| b.name.as_str()).collect();
    assert_eq!(names, vec!["minecraft:glass", "minecraft:stone", "minecraft:dirt"]);
    assert_eq!(schem.cell_indices(), &[2, 1, 2]);
}

#[test]
fn unknown_palette_index_in_data_is_malformed() {
    let mut root = one_stone();
    root.insert("BlockData".to_string(), Value::ByteArray(vec![5]));
    assert!(matches!(parse(&root), Err(SchematicError::Malformed(_))));
}

#[test]
fn missing_and_mistyped_tags_are_named() {
    let mut root = one_stone();
    root.insert("Width".to_string(), Value::Int(1));
    assert!(matches!(parse(&root), Err(SchematicError::WrongType("Width"))));
    let no_palette = comp(vec![
        ("Width", Value::Short(1)),
        ("Height", Value::Short(1)),
        ("Length", Value::Short(1)),
        ("BlockData", Value::ByteArray(vec![0])),
    ]);
    assert!(matches!(parse(&no_palette), Err(SchematicError::MissingTag("Palette"))));
    let mut bad_offset = one_stone();
    bad_offset.insert("Offset".to_string(), Value::IntArray(vec![1, 2]));
    assert!(matches!(parse(&bad_offset), Err(SchematicError::Malformed(_))));
}

#[test]
fn negative_short_dimensions_read_unsigned() {
    let mut root = one_stone();
    root.insert("Width".to_string(), Value::Short(-1));
    // 65535 cells are expected, one is present.
    assert!(matches!(parse(&root), Err(SchematicError::Malformed(_))));
}

fn leb128(mut v: u32, out: &mut Vec<u8>) {
    while v >= 0x80 {
        out.push((v & 0x7F) as u8 | 0x80);
        v >>= 7;
    }
    out.push(v as u8);
}

#[test]
fn varints_decode_their_encoding() {
    let vals: Vec<u32> = vec![0, 1, 127, 128, 200, 16_383, 16_384, 2_097_152, 268_435_455, 268_435_456, u32::MAX];
    let mut bytes = Vec::new();
    for &v in &vals {
        leb128(v, &mut bytes);
    }
    assert_eq!(read_varints(&bytes, vals.len()).unwrap(), vals);
    assert!(matches!(read_varints(&bytes, vals.len() - 1), Err(SchematicError::Malformed(_))));
    assert!(matches!(read_varints(&bytes, vals.len() + 1), Err(SchematicError::Malformed(_))));
}

#[test]
fn keys_naming_the_same_block_share_an_entry() {
    let root = comp(vec![
        ("Width", Value::Short(3)),
        ("Height", Value::Short(1)),
        ("Length", Value::Short(1)),
        (
            "Palette",
            Value::Compound(comp(vec![
                ("minecraft:stone", Value::Int(0)),
                ("minecraft:dirt", Value::Int(1)),
                (" minecraft:stone[]", Value::Int(2)),
            ])),
        ),
        ("BlockData", Value::ByteArray(vec![2, 1, 0])),
    ]);
    let schem = parse(&root).unwrap();
    let names: Vec<&str> = schem.palette().iter().map(|b| b.name.as_str()).collect();
    assert_eq!(names, vec!["minecraft:stone", "minecraft:dirt"]);
    assert_eq!(schem.cell_indices(), &[0, 1, 0]);
}
