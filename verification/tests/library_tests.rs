use yog_vlsi::chip::{CircuitData, Port, PortDir, PortSide};
use yog_vlsi::designs::{
    create_design, delete_design, design_circuit_key, designs_index_key, find_design_by_id, find_design_by_name,
    import_design, player_storage, save_design, DesignMeta,
};
use yog_vlsi::editor::{lane_origin, port_cell, save_entry, scan_platform, EditorSession, LaneTable, SessionTable};
use yog_vlsi::network::{join_payload, parse_alu_action, parse_workbench_action, split, split_payload, AluAction, WorkbenchAction};
use yog_vlsi::vm::Tier;

fn dm(id: &str, name: &str) -> DesignMeta {
    DesignMeta {
        id: id.to_string(),
        name: name.to_string(),
        tier: Tier::Wood,
        description: String::new(),
        saved_at: 1,
        port_count: 0,
    }
}

fn ids(v: &[DesignMeta]) -> Vec<String> {
    v.iter().map(|d| d.id.clone()).collect()
}

#[test]
fn saving_replaces_and_appends() {
    let index = vec![dm("a", "A"), dm("b", "B"), dm("c", "C")];
    let saved = save_design(&index, &dm("b", "B2"));
    assert_eq!(ids(&saved), vec!["a", "c", "b"]);
    assert_eq!(saved[2].name, "B2");
    let fresh = save_design(&saved, &dm("d", "D"));
    assert_eq!(ids(&fresh), vec!["a", "c", "b", "d"]);
}

#[test]
fn deleting_after_saving_forgets_the_id() {
    let index = vec![dm("a", "A"), dm("b", "B")];
    let saved = save_design(&index, &dm("x", "X"));
    assert_eq!(ids(&delete_design(&saved, "x")), ids(&delete_design(&index, "x")));
    assert_eq!(ids(&delete_design(&index, "a")), vec!["b"]);
    assert_eq!(ids(&delete_design(&index, "zzz")), vec!["a", "b"]);
}

#[test]
fn finding_designs() {
    let index = vec![dm("a", "Same"), dm("b", "Same"), dm("c", "Other")];
    assert_eq!(find_design_by_id(&index, "c"), Some(2));
    assert_eq!(find_design_by_id(&index, "q"), None);
    assert_eq!(find_design_by_name(&index, "Same"), Some(0));
    assert_eq!(find_design_by_name(&index, "None"), None);
    let saved = save_design(&index, &dm("a", "New"));
    assert_eq!(find_design_by_id(&saved, "a"), Some(2));
}

#[test]
fn new_designs() {
    let e = create_design("Adder", Tier::Diamond, 1234);
    assert_eq!(e.meta.id.len(), 36);
    assert_eq!(e.circuit.chip_id, e.meta.id);
    assert_eq!(e.meta.name, "Adder");
    assert_eq!(e.meta.description, "");
    assert_eq!(e.meta.port_count, 0);
    assert_eq!(e.meta.saved_at, 1234);
    assert_eq!(e.circuit.width, 128);
    let ports = vec![Port { label: "A".to_string(), side: PortSide::East, index: 3, dir: PortDir::Input }];
    let c = CircuitData::new("old".to_string(), 16, 16, ports);
    let i = import_design("Imp", Tier::Wood, c, 99);
    assert_eq!(i.meta.description, "Imported — 1 ports");
    assert_eq!(i.meta.port_count, 1);
    assert_eq!(i.circuit.chip_id, "old");
    assert_ne!(i.meta.id, e.meta.id);
}

#[test]
fn storage_keys() {
    assert_eq!(player_storage("Steve"), "yog-vlsi/player/Steve");
    assert_eq!(designs_index_key(), "designs_index");
    assert_eq!(design_circuit_key("42"), "design_circuit/42");
}

#[test]
fn lanes_are_stable_and_distinct() {
    let mut t = LaneTable::new();
    assert_eq!(t.lane_for("alice"), 0);
    assert_eq!(t.lane_for("bob"), 1);
    assert_eq!(t.lane_for("alice"), 0);
    assert_eq!(t.lane_for("carol"), 2);
    assert_eq!(lane_origin(0), (2_000_000, 2_000_000));
    assert_eq!(lane_origin(3), (2_000_960, 2_000_000));
    assert_eq!(port_cell(37, 16), (5, 2));
}

fn session(id: Option<&str>) -> EditorSession {
    EditorSession {
        design_id: id.map(|s| s.to_string()),
        name: "N".to_string(),
        tier: Tier::Wood,
        origin_x: 0,
        origin_z: 0,
        size: 16,
    }
}

#[test]
fn sessions_open_and_close() {
    let mut t = SessionTable::new();
    assert!(!t.is_editing("alice"));
    t.begin("alice", session(None));
    t.begin("bob", session(Some("d1")));
    assert!(t.is_editing("alice"));
    let s = t.end("bob").expect("bob edits");
    assert_eq!(s.design_id, Some("d1".to_string()));
    assert!(!t.is_editing("bob"));
    assert!(t.is_editing("alice"));
    assert!(t.end("bob").is_none());
}

#[test]
fn end_hands_back_the_session_begun() {
    let mut t = SessionTable::new();
    let mut first = session(Some("d1"));
    first.origin_x = 2_000_320;
    first.origin_z = 2_000_000;
    t.begin("alice", first);
    let mut second = session(Some("d2"));
    second.origin_x = 2_000_640;
    second.name = "Adder".to_string();
    second.tier = Tier::Gold;
    second.size = 64;
    t.begin("alice", second);
    let s = t.end("alice").expect("alice edits");
    assert_eq!(s.design_id, Some("d2".to_string()));
    assert_eq!(s.name, "Adder");
    assert_eq!(s.tier, Tier::Gold);
    assert_eq!((s.origin_x, s.origin_z, s.size), (2_000_640, 0, 64));
    assert!(t.end("alice").is_none());
}

#[test]
fn scanning_a_platform() {
    let size = 16u32;
    let mut cells: Vec<Option<String>> = vec![Some("minecraft:air".to_string()); 256];
    let mut labels: Vec<Option<String>> = vec![None; 256];
    cells[0] = Some("minecraft:glass".to_string());
    cells[1 * 16 + 0] = Some("yog-vlsi:port_input".to_string());
    labels[1 * 16 + 0] = Some("IN".to_string());
    cells[15 * 16 + 4] = Some("yog-vlsi:port_output".to_string());
    cells[7 * 16 + 0] = Some("yog-vlsi:port_bidi".to_string());
    cells[3 * 16 + 5] = Some("minecraft:redstone_wire".to_string());
    cells[3 * 16 + 6] = None;
    let (blocks, ports) = scan_platform(size, &cells, &labels);
    assert_eq!(blocks.len(), 1);
    assert_eq!((blocks[0].x, blocks[0].y, blocks[0].z), (3, 0, 5));
    assert_eq!(blocks[0].block_id, "minecraft:redstone_wire");
    assert_eq!(blocks[0].state_json, "{}");
    assert_eq!(ports.len(), 3);
    assert_eq!(ports[0].label, "IN");
    assert_eq!(ports[0].side, PortSide::North);
    assert_eq!(ports[0].index, 1);
    assert_eq!(ports[0].dir, PortDir::Input);
    assert_eq!(ports[1].label, "Port 1");
    assert_eq!(ports[1].side, PortSide::North);
    assert_eq!(ports[1].index, 7);
    assert_eq!(ports[1].dir, PortDir::Bidirectional);
    assert_eq!(ports[2].label, "Port 2");
    assert_eq!(ports[2].side, PortSide::East);
    assert_eq!(ports[2].index, 4 * 16 + 15);
    let e = save_entry(&session(Some("d9")), blocks, ports, 77);
    assert_eq!(e.meta.id, "d9");
    assert_eq!(e.meta.description, "3 ports, 1 blocks");
    assert_eq!(e.meta.port_count, 3);
    assert_eq!(e.circuit.chip_id, "d9");
    let fresh = save_entry(&session(None), Vec::new(), Vec::new(), 0);
    assert_eq!(fresh.meta.id.len(), 36);
    assert_eq!(fresh.meta.description, "0 ports, 0 blocks");
}

#[test]
fn payloads_split_back() {
    let parts = ["edit", "My Design", "1.5", "64", "-3"];
    let payload = join_payload(&parts);
    assert_eq!(payload, "edit\u{1f}My Design\u{1f}1.5\u{1f}64\u{1f}-3");
    assert_eq!(split_payload(&payload), parts.to_vec());
    assert_eq!(split(payload.as_bytes()), parts.to_vec());
    assert_eq!(join_payload(&[]), "");
    assert_eq!(split_payload(""), vec![""]);
    assert_eq!(split_payload("a\u{1f}"), vec!["a", ""]);
}

#[test]
fn invalid_bytes_become_replacement_characters() {
    assert_eq!(split(&[0x61, 0xff, 0x1f, 0x62]), vec!["a\u{fffd}", "b"]);
}

fn owned(v: &[&str]) -> Vec<String> {
    v.iter().map(|s| s.to_string()).collect()
}

#[test]
fn workbench_actions() {
    match parse_workbench_action(&owned(&["edit", "D", "1", "2", "3"])) {
        Some(WorkbenchAction::Edit { name, x, y, z }) => assert_eq!((name, x, y, z), ("D".into(), "1".into(), "2".into(), "3".into())),
        other => panic!("{other:?}"),
    }
    match parse_workbench_action(&owned(&["fabricate", "D", "iron"])) {
        Some(WorkbenchAction::Fabricate { name, tier }) => assert_eq!((name, tier), ("D".into(), Some(Tier::Iron))),
        other => panic!("{other:?}"),
    }
    assert!(matches!(
        parse_workbench_action(&owned(&["fabricate", "D", "IRON"])),
        Some(WorkbenchAction::Fabricate { tier: None, .. })
    ));
    assert!(matches!(parse_workbench_action(&owned(&["export_bp", "D"])), Some(WorkbenchAction::ExportBp { .. })));
    assert!(parse_workbench_action(&owned(&["edit", "D"])).is_none());
    assert!(parse_workbench_action(&owned(&["dance"])).is_none());
    assert!(parse_workbench_action(&Vec::new()).is_none());
}

#[test]
fn alu_actions() {
    match parse_alu_action(&owned(&["install", "4", "10", "-5", "x"])) {
        Some(AluAction::Install { slot, x, y, z }) => assert_eq!((slot, x, y, z), (4, 10, -5, 0)),
        other => panic!("{other:?}"),
    }
    match parse_alu_action(&owned(&["install", "-1", "1", "2", "3"])) {
        Some(AluAction::Install { slot, .. }) => assert_eq!(slot, u32::MAX),
        other => panic!("{other:?}"),
    }
    assert!(matches!(parse_alu_action(&owned(&["save_links"])), Some(AluAction::SaveLinks)));
    assert!(parse_alu_action(&owned(&["install", "1"])).is_none());
}
