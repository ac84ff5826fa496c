use chunkedge_schematics::block::BlockSpec;
use chunkedge_schematics::nbt::Compound;
use chunkedge_schematics::Schematic;

fn spec(name: &str) -> BlockSpec {
    BlockSpec { name: name.to_string(), properties: Vec::new() }
}

fn sample() -> Schematic {
    // 2 x 2 x 3: cell i holds palette index i % 3.
    let blocks: Vec<u32> = (0..12).map(|i| i % 3).collect();
    Schematic::new(
        [2, 2, 3],
        vec![spec("a"), spec("b"), spec("c")],
        blocks,
        vec![([1, 1, 2], Compound::new())],
        [4, -5, 6],
    )
    .unwrap()
}

#[test]
fn new_checks_length_and_indices() {
    assert!(Schematic::new([1, 1, 2], vec![spec("a")], vec![0], Vec::new(), [0, 0, 0]).is_none());
    assert!(Schematic::new([1, 1, 1], vec![spec("a")], vec![1], Vec::new(), [0, 0, 0]).is_none());
    assert!(Schematic::new([0, 5, 5], Vec::new(), Vec::new(), Vec::new(), [0, 0, 0]).is_some());
    assert!(Schematic::new([u32::MAX, u32::MAX, u32::MAX], vec![spec("a")], vec![0], Vec::new(), [0, 0, 0])
        .is_none());
}

#[test]
fn accessors_return_the_parts() {
    let s = sample();
    assert_eq!(s.size(), [2, 2, 3]);
    assert_eq!(s.volume(), 12);
    assert_eq!(s.offset(), [4, -5, 6]);
    assert_eq!(s.palette().len(), 3);
    assert_eq!(s.block_entities().len(), 1);
    assert_eq!(s.block_entities()[0].0, [1, 1, 2]);
    assert_eq!(s.cell_indices().len(), 12);
}

#[test]
fn block_at_uses_x_then_z_then_y() {
    let s = sample();
    // index = x + z*2 + y*6
    assert_eq!(s.block_at(1, 0, 0).unwrap().name, "b"); // 1
    assert_eq!(s.block_at(0, 0, 1).unwrap().name, "c"); // 2
    assert_eq!(s.block_at(1, 1, 2).unwrap().name, "c"); // 11
    assert_eq!(s.block_at(0, 1, 0).unwrap().name, "a"); // 6
    assert!(s.block_at(2, 0, 0).is_none());
    assert!(s.block_at(0, 2, 0).is_none());
    assert!(s.block_at(0, 0, 3).is_none());
}

#[test]
fn blocks_lists_cells_with_coordinates_in_order() {
    let s = sample();
    let all = s.blocks();
    assert_eq!(all.len(), 12);
    assert_eq!(all[0].0, [0, 0, 0]);
    assert_eq!(all[1].0, [1, 0, 0]);
    assert_eq!(all[2].0, [0, 0, 1]);
    assert_eq!(all[6].0, [0, 1, 0]);
    assert_eq!(all[11].0, [1, 1, 2]);
    for (pos, block) in &all {
        assert_eq!(s.block_at(pos[0], pos[1], pos[2]).unwrap().name, block.name);
    }
}
