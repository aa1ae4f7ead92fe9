use yog_vlsi::chip::{CircuitBlock, PortDir, PortSide};
use yog_vlsi::commands::{
    calculate_cost, chip_in_slot, circuit_key, consume_resources, create_test_chip, ext_chip_id, find_workbench,
    parse_block_type, parse_tier_pub, SlotRefusal,
};
use yog_vlsi::vm::{BlockType, ComparatorMode, DoorHalf, Facing, PortMode, ShulkerColor, Tier};

fn block(id: &str) -> CircuitBlock {
    CircuitBlock { x: 0, y: 0, z: 0, block_id: id.to_string(), state_json: "{}".to_string() }
}

fn sorted(mut v: Vec<(String, u64)>) -> Vec<(String, u64)> {
    v.sort();
    v
}

#[test]
fn ext_chip_ids() {
    assert_eq!(ext_chip_id((1, -2, 3)), "__ext_1_-2_3");
    assert_eq!(ext_chip_id((0, 0, 0)), "__ext_0_0_0");
    assert_eq!(ext_chip_id((i32::MIN, i32::MAX, 7)), "__ext_-2147483648_2147483647_7");
}

#[test]
fn tiers_by_name_any_case() {
    assert_eq!(parse_tier_pub("wood"), Some(Tier::Wood));
    assert_eq!(parse_tier_pub("NETHERITE"), Some(Tier::Netherite));
    assert_eq!(parse_tier_pub("Gold"), Some(Tier::Gold));
    assert_eq!(parse_tier_pub("copper"), None);
    assert_eq!(parse_tier_pub(""), None);
}

#[test]
fn block_types_from_saved_blocks() {
    assert_eq!(parse_block_type("minecraft:cave_air", "{}"), BlockType::Air);
    assert_eq!(
        parse_block_type("minecraft:repeater", r#"{"delay":"3","facing":"east","locked":"true"}"#),
        BlockType::Repeater { delay_ticks: 3, facing: Facing::East, locked: true }
    );
    assert_eq!(
        parse_block_type("minecraft:repeater", "{}"),
        BlockType::Repeater { delay_ticks: 1, facing: Facing::Down, locked: false }
    );
    assert_eq!(
        parse_block_type("minecraft:comparator", r#"{"mode":"subtract","facing":"north"}"#),
        BlockType::Comparator { mode: ComparatorMode::Subtract, facing: Facing::North }
    );
    assert_eq!(parse_block_type("minecraft:redstone_torch", r#"{"lit":"false"}"#), BlockType::RedstoneTorch { lit: false });
    assert_eq!(parse_block_type("minecraft:redstone_torch", "{}"), BlockType::RedstoneTorch { lit: true });
    assert_eq!(
        parse_block_type("minecraft:lime_shulker_box", "{}"),
        BlockType::ShulkerBox { color: Some(ShulkerColor::Lime) }
    );
    assert_eq!(parse_block_type("minecraft:shulker_box", "{}"), BlockType::ShulkerBox { color: None });
    assert_eq!(
        parse_block_type("minecraft:oak_door", r#"{"open":"true","facing":"south","half":"upper"}"#),
        BlockType::WoodDoor { open: true, facing: Facing::South, half: DoorHalf::Upper }
    );
    assert_eq!(parse_block_type("yog-vlsi:port_bidi", "{}"), BlockType::Port(PortMode::Bidirectional));
    assert_eq!(parse_block_type("minecraft:dirt", "{}"), BlockType::Solid);
    assert_eq!(parse_block_type("minecraft:target", "{}"), BlockType::TargetBlock { power: 0 });
}

#[test]
fn circuit_keys() {
    assert_eq!(circuit_key("abc"), "circuit/abc");
}

#[test]
fn cost_is_a_quarter_rounded_up() {
    let blocks = vec![block("minecraft:redstone_wire"), block("minecraft:redstone_wire"), block("minecraft:repeater")];
    let cost = sorted(calculate_cost(&blocks));
    assert_eq!(
        cost,
        vec![
            ("minecraft:redstone".to_string(), 2),
            ("minecraft:stick".to_string(), 1),
            ("minecraft:stone".to_string(), 1),
        ]
    );
}

#[test]
fn cost_of_unknown_block_is_stone() {
    let cost = calculate_cost(&vec![block("minecraft:dirt"); 5]);
    assert_eq!(cost, vec![("minecraft:stone".to_string(), 2)]);
}

#[test]
fn cost_of_nothing_is_nothing() {
    assert!(calculate_cost(&[]).is_empty());
}

#[test]
fn cost_of_redstone_blocks() {
    let cost = calculate_cost(&[block("minecraft:redstone_block"), block("minecraft:redstone_block")]);
    assert_eq!(cost, vec![("minecraft:redstone".to_string(), 5)]);
}

#[test]
fn resources_paid_when_enough() {
    let mut have = vec![("minecraft:redstone".to_string(), 10), ("minecraft:stick".to_string(), 1)];
    let cost = vec![("minecraft:redstone".to_string(), 4), ("minecraft:stick".to_string(), 1)];
    assert!(consume_resources(&mut have, &cost).is_ok());
    assert_eq!(have, vec![("minecraft:redstone".to_string(), 6), ("minecraft:stick".to_string(), 0)]);
}

#[test]
fn resources_untouched_when_short() {
    let mut have = vec![("minecraft:redstone".to_string(), 3)];
    let cost = vec![("minecraft:redstone".to_string(), 4), ("minecraft:quartz".to_string(), 1)];
    match consume_resources(&mut have, &cost) {
        Err(missing) => assert_eq!(
            missing,
            vec![("minecraft:redstone".to_string(), 4, 3), ("minecraft:quartz".to_string(), 1, 0)]
        ),
        Ok(()) => panic!("should be short"),
    }
    assert_eq!(have, vec![("minecraft:redstone".to_string(), 3)]);
}

#[test]
fn workbench_found_in_scan_order() {
    let stations = vec![(13, 64, 10), (8, 62, 10), (9, 64, 12)];
    assert_eq!(find_workbench(&stations, (10, 64, 10)), Some((8, 62, 10)));
    assert_eq!(find_workbench(&stations, (100, 64, 10)), None);
    assert_eq!(find_workbench(&vec![(13, 67, 13)], (10, 64, 10)), Some((13, 67, 13)));
}

#[test]
fn test_chip_layout() {
    let (meta, circuit) = create_test_chip(Tier::Stone);
    assert_eq!(meta.name, "Test Stone");
    assert_eq!(meta.tier, Tier::Stone);
    assert_eq!(circuit.chip_id, meta.id);
    assert_eq!(circuit.width, 32);
    assert_eq!(circuit.blocks.len(), 33);
    assert_eq!(circuit.blocks[0].block_id, "yog-vlsi:port");
    assert_eq!(circuit.blocks[0].state_json, r#"{"mode":"input"}"#);
    assert_eq!(circuit.blocks[1].x, 31);
    assert_eq!(circuit.blocks[2].block_id, "minecraft:redstone_block");
    assert_eq!(circuit.blocks[3].x, 2);
    assert_eq!(circuit.blocks[31].x, 30);
    assert_eq!(circuit.blocks[32].block_id, "minecraft:redstone_lamp");
    assert_eq!(circuit.blocks[32].x, 30);
    assert_eq!(meta.ports[0].label, "IN");
    assert_eq!(meta.ports[0].side, PortSide::West);
    assert_eq!(meta.ports[1].dir, PortDir::Output);
}

#[test]
fn slot_contents() {
    assert!(matches!(chip_in_slot("minecraft:stone", ""), Err(SlotRefusal::NotAChip)));
    assert!(matches!(chip_in_slot("yog-vlsi:chip_wood", "{}"), Err(SlotRefusal::NotProgrammed)));
    match chip_in_slot("yog-vlsi:chip_wood", "{YogVlsiChip:\"{\\\"id\\\":1}\"}") {
        Ok(json) => assert_eq!(json, "{\"id\":1}"),
        Err(_) => panic!("programmed chip"),
    }
}

#[test]
fn every_tier_parses_from_its_id_and_name() {
    for t in Tier::all() {
        assert_eq!(parse_tier_pub(t.id()), Some(t));
        assert_eq!(parse_tier_pub(t.name()), Some(t));
        assert_eq!(t.id(), t.name().to_lowercase());
    }
}

#[test]
fn cost_of_joined_lists_lies_between_its_parts() {
    let a = vec![block("minecraft:redstone_wire"), block("minecraft:repeater")];
    let b = vec![block("minecraft:redstone_wire"), block("minecraft:redstone_wire")];
    let joined: Vec<CircuitBlock> = a.iter().chain(b.iter()).cloned().collect();
    let q = |r: &Vec<(String, u64)>, item: &str| r.iter().find(|(i, _)| i == item).map(|(_, n)| *n).unwrap_or(0);
    let (ca, cb, cj) = (calculate_cost(&a), calculate_cost(&b), calculate_cost(&joined));
    for item in ["minecraft:redstone", "minecraft:stick", "minecraft:stone", "minecraft:quartz"] {
        assert!(q(&cj, item) >= q(&ca, item));
        assert!(q(&cj, item) >= q(&cb, item));
        assert!(q(&cj, item) <= q(&ca, item) + q(&cb, item));
    }
    // 1 + 3 + 1 + 1 redstone: a quarter of 6, rounded up.
    assert_eq!(q(&cj, "minecraft:redstone"), 2);
    let mut reversed = joined.clone();
    reversed.reverse();
    assert_eq!(sorted(calculate_cost(&reversed)), sorted(cj));
}
