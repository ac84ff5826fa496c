use chunkedge_schematics::block::{parse_state_string, resolve_from_compound, strip_namespace, BlockSpec};
use chunkedge_schematics::nbt::{Compound, Value};
use chunkedge_schematics::SchematicError;

fn props(b: &BlockSpec) -> Vec<(&str, &str)> {
    b.properties.iter().map(|(k, v)| (k.as_str(), v.as_str())).collect()
}

#[test]
fn plain_name() {
    let s = parse_state_string("minecraft:stone").unwrap();
    assert_eq!(s.name, "minecraft:stone");
    assert_eq!(strip_namespace(&s.name), "stone");
    assert!(s.properties.is_empty());
}

#[test]
fn name_without_namespace() {
    let s = parse_state_string("dirt").unwrap();
    assert_eq!(s.name, "dirt");
    assert!(s.properties.is_empty());
}

#[test]
fn with_properties() {
    let s = parse_state_string("minecraft:oak_stairs[facing=east,half=bottom]").unwrap();
    let plain = parse_state_string("minecraft:oak_stairs").unwrap();
    assert_eq!(strip_namespace(&s.name), "oak_stairs");
    assert_ne!(props(&s), props(&plain), "properties should change the state");
    assert_eq!(props(&s), vec![("facing", "east"), ("half", "bottom")]);
}

#[test]
fn unterminated_errors() {
    assert!(parse_state_string("minecraft:stone[facing=east").is_err());
}

#[test]
fn unterminated_is_malformed() {
    assert!(matches!(
        parse_state_string("minecraft:stone[facing=east"),
        Err(SchematicError::Malformed(_))
    ));
}

#[test]
fn pair_without_equals_is_malformed() {
    assert!(matches!(
        parse_state_string("minecraft:stone[facing]"),
        Err(SchematicError::Malformed(_))
    ));
}

#[test]
fn whitespace_is_trimmed_everywhere() {
    let s = parse_state_string("  minecraft:lever[ face = wall , powered=true ]  ").unwrap();
    assert_eq!(s.name, "minecraft:lever");
    assert_eq!(props(&s), vec![("face", "wall"), ("powered", "true")]);
}

#[test]
fn empty_brackets_have_no_properties() {
    let s = parse_state_string("minecraft:stone[ ]").unwrap();
    assert_eq!(s.name, "minecraft:stone");
    assert!(s.properties.is_empty());
}

#[test]
fn strip_namespace_takes_the_last_segment() {
    assert_eq!(strip_namespace("minecraft:stone"), "stone");
    assert_eq!(strip_namespace("stone"), "stone");
    assert_eq!(strip_namespace("a:b:c"), "c");
    assert_eq!(strip_namespace("ns:"), "");
}

#[test]
fn compound_properties_are_read_in_order() {
    let mut p = Compound::new();
    p.insert("facing".to_string(), Value::Str("north".to_string()));
    p.insert("half".to_string(), Value::Str("top".to_string()));
    let b = resolve_from_compound("minecraft:oak_stairs", Some(&p)).unwrap();
    assert_eq!(b.name, "minecraft:oak_stairs");
    assert_eq!(props(&b), vec![("facing", "north"), ("half", "top")]);
    let bare = resolve_from_compound("minecraft:air", None).unwrap();
    assert!(bare.properties.is_empty());
}

#[test]
fn non_string_property_value_is_wrong_type() {
    let mut p = Compound::new();
    p.insert("level".to_string(), Value::Int(3));
    assert!(matches!(
        resolve_from_compound("minecraft:water", Some(&p)),
        Err(SchematicError::WrongType("Properties value"))
    ));
}
