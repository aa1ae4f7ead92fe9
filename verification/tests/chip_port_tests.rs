use yog_vlsi::chip::{chip_item_id, new_chip_id, snbt_frame_exec, snbt_unframe_exec, ChipMeta, CircuitData, PortDir, PortSide};
use yog_vlsi::port::{
    block_for_dir, dir_for_block, is_port_block, label_from_nbt, label_nbt, next_dir, next_port_block, PORT_BIDI,
    PORT_INPUT, PORT_OUTPUT,
};
use yog_vlsi::vm::Tier;

#[test]
fn side_and_dir_names() {
    assert_eq!(PortSide::North.name(), "North");
    assert_eq!(PortSide::West.name(), "West");
    assert_eq!(PortDir::Input.name(), "IN");
    assert_eq!(PortDir::Output.name(), "OUT");
    assert_eq!(PortDir::Bidirectional.name(), "BIDI");
}

#[test]
fn chip_ids_are_random_uuids() {
    let a = new_chip_id();
    let b = new_chip_id();
    assert_eq!(a.len(), 36);
    assert_eq!(a.as_bytes()[8], b'-');
    assert_eq!(a.as_bytes()[14], b'4');
    assert!(matches!(a.as_bytes()[19], b'8' | b'9' | b'a' | b'b'));
    assert!(a.chars().all(|c| c == '-' || c.is_ascii_hexdigit() && !c.is_ascii_uppercase()));
    assert_ne!(a, b);
}

#[test]
fn chip_item_ids() {
    assert_eq!(chip_item_id(Tier::Wood), "yog-vlsi:chip_wood");
    assert_eq!(chip_item_id(Tier::Netherite), "yog-vlsi:chip_netherite");
}

#[test]
fn circuit_data_new_is_empty() {
    let c = CircuitData::new("id-1".to_string(), 32, 32, Vec::new());
    assert_eq!(c.chip_id, "id-1");
    assert_eq!(c.width, 32);
    assert_eq!(c.height, 32);
    assert!(c.blocks.is_empty());
    assert!(c.ports.is_empty());
}

#[test]
fn chip_nbt_escapes_json() {
    let nbt = ChipMeta::to_nbt(r#"{"name":"a\b"}"#);
    assert_eq!(nbt, r#"{YogVlsiChip: "{\"name\":\"a\\b\"}"}"#);
}

#[test]
fn chip_nbt_read_back_from_stored_form() {
    let json = r#"{"id":"x","name":"Q \"quoted\" \\ back"}"#;
    let stored = snbt_frame_exec("YogVlsiChip", json, false);
    assert_eq!(ChipMeta::from_nbt(&stored), Some(json.to_string()));
}

#[test]
fn chip_nbt_with_space_is_not_found() {
    let written = ChipMeta::to_nbt("{}");
    assert_eq!(ChipMeta::from_nbt(&written), None);
    assert_eq!(ChipMeta::from_nbt("{Other:\"x\"}"), None);
}

#[test]
fn chip_nbt_unterminated_gives_empty() {
    assert_eq!(ChipMeta::from_nbt("{YogVlsiChip:\"abc"), Some(String::new()));
}

#[test]
fn snbt_frame_roundtrip_other_tag() {
    let framed = snbt_frame_exec("Tag", "a\"b", true);
    assert_eq!(framed, "{Tag: \"a\\\"b\"}");
    let stored = snbt_frame_exec("Tag", "a\"b", false);
    assert_eq!(snbt_unframe_exec("Tag", &stored), Some("a\"b".to_string()));
}

#[test]
fn port_blocks() {
    assert!(is_port_block("yog-vlsi:port_input"));
    assert!(is_port_block(PORT_BIDI));
    assert!(!is_port_block("yog-vlsi:port"));
    assert_eq!(dir_for_block(PORT_OUTPUT), Some(PortDir::Output));
    assert_eq!(dir_for_block("minecraft:stone"), None);
    for d in [PortDir::Input, PortDir::Output, PortDir::Bidirectional] {
        assert_eq!(dir_for_block(block_for_dir(d)), Some(d));
    }
    assert_eq!(block_for_dir(PortDir::Input), PORT_INPUT);
}

#[test]
fn port_modes_cycle() {
    assert_eq!(next_dir(PortDir::Input), PortDir::Output);
    assert_eq!(next_dir(PortDir::Output), PortDir::Bidirectional);
    assert_eq!(next_dir(PortDir::Bidirectional), PortDir::Input);
    for d in [PortDir::Input, PortDir::Output, PortDir::Bidirectional] {
        assert_eq!(next_dir(next_dir(next_dir(d))), d);
    }
    assert_eq!(next_port_block(PORT_INPUT), Some(PORT_OUTPUT));
    assert_eq!(next_port_block(PORT_BIDI), Some(PORT_INPUT));
    assert_eq!(next_port_block("minecraft:air"), None);
}

#[test]
fn port_label_roundtrip() {
    let nbt = label_nbt("CLK");
    assert_eq!(nbt, "{YogVlsiPortLabel:\"CLK\"}");
    assert_eq!(label_from_nbt(&nbt), Some("CLK".to_string()));
    assert_eq!(label_from_nbt("{x:1,YogVlsiPortLabel:\"A0\",y:2}"), Some("A0".to_string()));
    assert_eq!(label_from_nbt("{}"), None);
    assert_eq!(label_from_nbt("{YogVlsiPortLabel:\"open"), None);
}

#[test]
fn port_label_with_quote_does_not_survive() {
    let nbt = label_nbt("a\"b");
    assert_eq!(nbt, "{YogVlsiPortLabel:\"a\\\"b\"}");
    assert_eq!(label_from_nbt(&nbt), Some("a\\".to_string()));
}
