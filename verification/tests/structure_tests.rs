use chunkedge_schematics::block::BlockSpec;
use chunkedge_schematics::formats::structure::{ensure_air, parse};
use chunkedge_schematics::nbt::{Compound, List, Value};
use chunkedge_schematics::SchematicError;

fn comp(entries: Vec<(&str, Value)>) -> Compound {
    let mut c = Compound::new();
    for (k, v) in entries {
        c.insert(k.to_string(), v);
    }
    c
}

fn named(name: &str) -> Compound {
    comp(vec![("Name", Value::Str(name.to_string()))])
}

fn spec(name: &str) -> BlockSpec {
    BlockSpec { name: name.to_string(), properties: Vec::new() }
}

#[test]
fn parses_single_stone() {
    let root = comp(vec![
        ("size", Value::List(List::Int(vec![1, 1, 1]))),
        ("palette", Value::List(List::Compound(vec![named("minecraft:stone")]))),
        (
            "blocks",
            Value::List(List::Compound(vec![comp(vec![
                ("state", Value::Int(0)),
                ("pos", Value::List(List::Int(vec![0, 0, 0]))),
            ])])),
        ),
    ]);

    let schematic = parse(&root).expect("structure should parse");
    assert_eq!(schematic.size(), [1, 1, 1]);
    assert_eq!(schematic.block_at(0, 0, 0).unwrap().name, "minecraft:stone");
}

#[test]
fn accepts_int_array_dimensions() {
    let root = comp(vec![
        ("size", Value::IntArray(vec![1, 1, 1])),
        ("palette", Value::List(List::Compound(vec![named("minecraft:stone")]))),
        (
            "blocks",
            Value::List(List::Compound(vec![comp(vec![
                ("state", Value::Int(0)),
                ("pos", Value::IntArray(vec![0, 0, 0])),
            ])])),
        ),
    ]);

    let schematic = parse(&root).expect("structure should parse");
    assert_eq!(schematic.size(), [1, 1, 1]);
}

#[test]
fn captures_block_entity() {
    let block_entity = comp(vec![("id", Value::Str("minecraft:chest".to_string()))]);
    let root = comp(vec![
        ("size", Value::List(List::Int(vec![1, 1, 1]))),
        ("palette", Value::List(List::Compound(vec![named("minecraft:chest")]))),
        (
            "blocks",
            Value::List(List::Compound(vec![comp(vec![
                ("state", Value::Int(0)),
                ("pos", Value::List(List::Int(vec![0, 0, 0]))),
                ("nbt", Value::Compound(block_entity.duplicate())),
            ])])),
        ),
    ]);

    let schematic = parse(&root).expect("structure should parse");
    let entities = schematic.block_entities();
    assert_eq!(entities.len(), 1);
    assert_eq!(entities[0].0, [0, 0, 0]);
    assert!(matches!(
        entities[0].1.get("id"),
        Some(Value::Str(id)) if id == "minecraft:chest"
    ));
}

#[test]
fn missing_size_is_an_error() {
    let root = comp(vec![
        ("palette", Value::List(List::Compound(vec![named("minecraft:stone")]))),
        ("blocks", Value::List(List::Compound(Vec::new()))),
    ]);
    assert!(parse(&root).is_err());
    assert!(matches!(parse(&root), Err(SchematicError::MissingTag("size"))));
}

#[test]
fn omitted_cells_are_air() {
    let root = comp(vec![
        ("size", Value::List(List::Int(vec![2, 1, 1]))),
        ("palette", Value::List(List::Compound(vec![named("minecraft:stone")]))),
        (
            "blocks",
            Value::List(List::Compound(vec![comp(vec![
                ("state", Value::Int(0)),
                ("pos", Value::List(List::Int(vec![1, 0, 0]))),
            ])])),
        ),
    ]);
    let schem = parse(&root).unwrap();
    assert_eq!(schem.palette().len(), 2);
    assert_eq!(schem.block_at(0, 0, 0).unwrap().name, "minecraft:air");
    assert_eq!(schem.block_at(1, 0, 0).unwrap().name, "minecraft:stone");
    assert!(schem.block_at(2, 0, 0).is_none());
}

#[test]
fn plural_palettes_use_the_first_variant() {
    let root = comp(vec![
        ("size", Value::List(List::Int(vec![1, 1, 1]))),
        (
            "palettes",
            Value::List(List::List(vec![
                List::Compound(vec![named("minecraft:dirt")]),
                List::Compound(vec![named("minecraft:stone")]),
            ])),
        ),
        (
            "blocks",
            Value::List(List::Compound(vec![comp(vec![
                ("state", Value::Int(0)),
                ("pos", Value::List(List::Int(vec![0, 0, 0]))),
            ])])),
        ),
    ]);
    let schem = parse(&root).unwrap();
    assert_eq!(schem.block_at(0, 0, 0).unwrap().name, "minecraft:dirt");
}

#[test]
fn positions_and_states_are_checked() {
    let block = |state: i32, pos: Vec<i32>| {
        comp(vec![
            ("size", Value::List(List::Int(vec![1, 1, 1]))),
            ("palette", Value::List(List::Compound(vec![named("minecraft:stone")]))),
            (
                "blocks",
                Value::List(List::Compound(vec![comp(vec![
                    ("state", Value::Int(state)),
                    ("pos", Value::List(List::Int(pos))),
                ])])),
            ),
        ])
    };
    assert!(matches!(parse(&block(0, vec![1, 0, 0])), Err(SchematicError::Malformed(_))));
    assert!(matches!(parse(&block(0, vec![-1, 0, 0])), Err(SchematicError::Malformed(_))));
    assert!(matches!(parse(&block(0, vec![0, 0])), Err(SchematicError::Malformed(_))));
    // Index 1 is the air entry appended to the palette.
    assert!(parse(&block(1, vec![0, 0, 0])).is_ok());
    assert!(matches!(parse(&block(2, vec![0, 0, 0])), Err(SchematicError::Malformed(_))));
    assert!(matches!(parse(&block(-1, vec![0, 0, 0])), Err(SchematicError::Malformed(_))));
}

#[test]
fn negative_size_is_malformed() {
    let root = comp(vec![
        ("size", Value::List(List::Int(vec![1, -1, 1]))),
        ("palette", Value::List(List::Compound(vec![named("minecraft:stone")]))),
        ("blocks", Value::List(List::End)),
    ]);
    assert!(matches!(parse(&root), Err(SchematicError::Malformed(_))));
}

#[test]
fn ensure_air_reuses_or_appends() {
    let mut with = vec![spec("minecraft:stone"), spec("minecraft:air"), spec("air")];
    assert_eq!(ensure_air(&mut with).unwrap(), 1);
    assert_eq!(with.len(), 3);
    let mut without = vec![spec("minecraft:stone")];
    assert_eq!(ensure_air(&mut without).unwrap(), 1);
    assert_eq!(without.len(), 2);
    assert_eq!(without[1].name, "minecraft:air");
}

#[test]
fn repeated_palette_entries_are_merged() {
    let root = comp(vec![
        ("size", Value::List(List::Int(vec![3, 1, 1]))),
        (
            "palette",
            Value::List(List::Compound(vec![named("minecraft:stone"), named("minecraft:dirt"), named("minecraft:stone")])),
        ),
        (
            "blocks",
            Value::List(List::Compound(vec![
                comp(vec![("state", Value::Int(0)), ("pos", Value::List(List::Int(vec![0, 0, 0])))]),
                comp(vec![("state", Value::Int(2)), ("pos", Value::List(List::Int(vec![1, 0, 0])))]),
                comp(vec![("state", Value::Int(1)), ("pos", Value::List(List::Int(vec![2, 0, 0])))]),
            ])),
        ),
    ]);
    let schem = parse(&root).unwrap();
    let names: Vec<&str> = schem.palette().iter().map(|b| b.name.as_str()).collect();
    assert_eq!(names, vec!["minecraft:stone", "minecraft:dirt", "minecraft:air"]);
    assert_eq!(schem.cell_indices(), &[0, 0, 1]);
    // Index 3 is the appended air entry of the listed palette.
    let mut with_air = root;
    with_air.insert(
        "blocks".to_string(),
        Value::List(List::Compound(vec![comp(vec![
            ("state", Value::Int(3)),
            ("pos", Value::List(List::Int(vec![0, 0, 0]))),
        ])])),
    );
    let schem = parse(&with_air).unwrap();
    assert_eq!(schem.cell_indices(), &[2, 2, 2]);
}
