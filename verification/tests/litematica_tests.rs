use chunkedge_schematics::formats::litematica::{bits_for, parse, unpack_states};
use chunkedge_schematics::nbt::{Compound, List, Value};
use chunkedge_schematics::SchematicError;

fn comp(entries: Vec<(&str, Value)>) -> Compound {
    let mut c = Compound::new();
    for (k, v) in entries {
        c.insert(k.to_string(), v);
    }
    c
}

fn xyz(x: i32, y: i32, z: i32) -> Value {
    Value::Compound(comp(vec![("x", Value::Int(x)), ("y", Value::Int(y)), ("z", Value::Int(z))]))
}

fn named(name: &str) -> Compound {
    comp(vec![("Name", Value::Str(name.to_string()))])
}

fn region(size: (i32, i32, i32), pos: (i32, i32, i32), palette: Vec<&str>, states: Vec<i64>) -> Value {
    Value::Compound(comp(vec![
        ("Size", xyz(size.0, size.1, size.2)),
        ("Position", xyz(pos.0, pos.1, pos.2)),
        ("BlockStatePalette", Value::List(List::Compound(palette.into_iter().map(named).collect()))),
        ("BlockStates", Value::LongArray(states)),
    ]))
}

fn name_at(s: &chunkedge_schematics::Schematic, x: u32, y: u32, z: u32) -> String {
    s.block_at(x, y, z).unwrap().name.clone()
}

#[test]
fn bits_for_palette() {
    assert_eq!(bits_for(1), 2);
    assert_eq!(bits_for(2), 2); // max(2, 1)
    assert_eq!(bits_for(4), 2);
    assert_eq!(bits_for(5), 3);
    assert_eq!(bits_for(16), 4);
    assert_eq!(bits_for(17), 5);
}

#[test]
fn bits_for_edges() {
    assert_eq!(bits_for(0), 2);
    assert_eq!(bits_for(256), 8);
    assert_eq!(bits_for(257), 9);
    assert_eq!(bits_for(usize::MAX), 64);
}

#[test]
fn unpack_non_spanning() {
    // bits=2 => 32 entries per long. Values 1,2,3 in the low bits.
    let packed = (1u64 | (2 << 2) | (3 << 4)) as i64;
    let out = unpack_states(&[packed], 2, 3).unwrap();
    assert_eq!(out, vec![1, 2, 3]);
}

#[test]
fn unpack_skips_the_tail_bits_of_each_long() {
    // bits=5 => 12 entries per long, the top 4 bits unused; entry 12 starts
    // the second long.
    let first = (7u64 << 55) | (0xFu64 << 60);
    let out = unpack_states(&[first as i64, 9], 5, 13).unwrap();
    assert_eq!(out[11], 7);
    assert_eq!(out[12], 9);
    assert_eq!(out[0], 0);
}

#[test]
fn unpack_reads_the_sign_bit() {
    // bits=32 => two entries per long; the high entry includes bit 63.
    let packed = -1i64;
    assert_eq!(unpack_states(&[packed], 32, 2).unwrap(), vec![u32::MAX, u32::MAX]);
}

#[test]
fn unpack_rejects_short_arrays_and_bad_widths() {
    assert!(matches!(unpack_states(&[0], 2, 33), Err(SchematicError::Malformed(_))));
    assert!(matches!(unpack_states(&[0], 0, 1), Err(SchematicError::Malformed(_))));
    assert!(matches!(unpack_states(&[0], 33, 1), Err(SchematicError::Malformed(_))));
    assert_eq!(unpack_states(&[], 4, 0).unwrap(), Vec::<u32>::new());
}

#[test]
fn single_region_stone() {
    let root = comp(vec![(
        "Regions",
        Value::Compound(comp(vec![(
            "Main",
            region((1, 1, 1), (0, 0, 0), vec!["minecraft:air", "minecraft:stone"], vec![1]),
        )])),
    )]);

    let schem = parse(&root).unwrap();
    assert_eq!(schem.size(), [1, 1, 1]);
    assert_eq!(schem.offset(), [0, 0, 0]);
    assert_eq!(name_at(&schem, 0, 0, 0), "minecraft:stone");
}

#[test]
fn negative_size_region() {
    // Size x = -1 at Position x = 0 occupies x = 0.
    let root = comp(vec![(
        "Regions",
        Value::Compound(comp(vec![(
            "Main",
            region((-1, 1, 1), (0, 0, 0), vec!["minecraft:air", "minecraft:stone"], vec![1]),
        )])),
    )]);

    let schem = parse(&root).unwrap();
    assert_eq!(schem.size(), [1, 1, 1]);
    assert_eq!(name_at(&schem, 0, 0, 0), "minecraft:stone");
}

#[test]
fn multi_region_merge() {
    let root = comp(vec![(
        "Regions",
        Value::Compound(comp(vec![
            ("A", region((1, 1, 1), (0, 0, 0), vec!["minecraft:air", "minecraft:stone"], vec![1])),
            ("B", region((1, 1, 1), (2, 0, 0), vec!["minecraft:air", "minecraft:dirt"], vec![1])),
        ])),
    )]);

    let schem = parse(&root).unwrap();
    assert_eq!(schem.size(), [3, 1, 1]);
    assert_eq!(name_at(&schem, 0, 0, 0), "minecraft:stone");
    assert_eq!(name_at(&schem, 1, 0, 0), "minecraft:air");
    assert_eq!(name_at(&schem, 2, 0, 0), "minecraft:dirt");
}

#[test]
fn merged_palette_holds_each_block_once() {
    let root = comp(vec![(
        "Regions",
        Value::Compound(comp(vec![
            ("A", region((1, 1, 1), (0, 0, 0), vec!["minecraft:air", "minecraft:stone"], vec![1])),
            ("B", region((1, 1, 1), (2, 0, 0), vec!["minecraft:air", "minecraft:dirt"], vec![1])),
            ("C", region((1, 1, 1), (1, 0, 0), vec!["minecraft:stone", "minecraft:dirt"], vec![0])),
        ])),
    )]);
    let schem = parse(&root).unwrap();
    let names: Vec<&str> = schem.palette().iter().map(|b| b.name.as_str()).collect();
    assert_eq!(names, vec!["minecraft:air", "minecraft:stone", "minecraft:dirt"]);
    assert_eq!(schem.cell_indices(), &[1, 1, 2]);
}

#[test]
fn negative_region_position_shifts_tiles() {
    let mut r = comp(vec![
        ("Size", xyz(2, 1, 1)),
        ("Position", xyz(-1, 0, 0)),
        (
            "BlockStatePalette",
            Value::List(List::Compound(vec![named("minecraft:air"), named("minecraft:chest")])),
        ),
        ("BlockStates", Value::LongArray(vec![1 | (1 << 2)])),
    ]);
    r.insert(
        "TileEntities".to_string(),
        Value::List(List::Compound(vec![comp(vec![
            ("x", Value::Int(1)),
            ("y", Value::Int(0)),
            ("z", Value::Int(0)),
            ("id", Value::Str("minecraft:chest".to_string())),
        ])])),
    );
    let root = comp(vec![("Regions", Value::Compound(comp(vec![("Main", Value::Compound(r))])))]);
    let schem = parse(&root).unwrap();
    assert_eq!(schem.size(), [2, 1, 1]);
    assert_eq!(name_at(&schem, 0, 0, 0), "minecraft:chest");
    assert_eq!(name_at(&schem, 1, 0, 0), "minecraft:chest");
    assert_eq!(schem.block_entities().len(), 1);
    assert_eq!(schem.block_entities()[0].0, [1, 0, 0]);
}

#[test]
fn missing_regions_and_empty_regions_are_errors() {
    assert!(matches!(parse(&Compound::new()), Err(SchematicError::MissingTag("Regions"))));
    let empty = comp(vec![("Regions", Value::Compound(Compound::new()))]);
    assert!(matches!(parse(&empty), Err(SchematicError::Malformed(_))));
    let wrong = comp(vec![("Regions", Value::Int(1))]);
    assert!(matches!(parse(&wrong), Err(SchematicError::WrongType("Regions"))));
}

#[test]
fn out_of_range_state_index_is_malformed() {
    let root = comp(vec![(
        "Regions",
        Value::Compound(comp(vec![(
            "Main",
            region((1, 1, 1), (0, 0, 0), vec!["minecraft:air", "minecraft:stone"], vec![3]),
        )])),
    )]);
    assert!(matches!(parse(&root), Err(SchematicError::Malformed(_))));
}
