use yog_vlsi::chip::snbt_frame_exec;
use yog_vlsi::designs::DesignMeta;
use yog_vlsi::vm::Tier;
use yog_vlsi::workbench::{blueprint_nbt, extract_blueprint_circuit, tier_from_size, BLUEPRINT_ID, WORKBENCH_ID};
use yog_vlsi::workbench_inv_ui::{WorkbenchInvUi, WorkbenchRequest};
use yog_vlsi::workbench_ui::{color_for, short_name, WorkbenchUi};

fn dm(name: &str, tier: Tier) -> DesignMeta {
    DesignMeta {
        id: format!("id-{name}"),
        name: name.to_string(),
        tier,
        description: String::new(),
        saved_at: 0,
        port_count: 0,
    }
}

#[test]
fn blueprints() {
    assert_eq!(WORKBENCH_ID, "yog-vlsi:vlsi_workbench");
    assert_eq!(BLUEPRINT_ID, "yog-vlsi:blueprint");
    assert_eq!(blueprint_nbt("{\"a\":1}"), "{YogVlsiBlueprint: \"{\\\"a\\\":1}\"}");
    let stored = snbt_frame_exec("YogVlsiBlueprint", "{\"k\":\"v\\\\\"}", false);
    assert_eq!(extract_blueprint_circuit(&stored), Some("{\"k\":\"v\\\\\"}".to_string()));
    assert_eq!(extract_blueprint_circuit("{}"), None);
}

#[test]
fn tiers_from_world_size() {
    assert_eq!(tier_from_size(16), Tier::Wood);
    assert_eq!(tier_from_size(32), Tier::Stone);
    assert_eq!(tier_from_size(64), Tier::Gold);
    assert_eq!(tier_from_size(128), Tier::Diamond);
    assert_eq!(tier_from_size(256), Tier::Netherite);
    assert_eq!(tier_from_size(17), Tier::Iron);
}

#[test]
fn resource_colors_and_names() {
    assert_eq!(color_for("minecraft:redstone"), 0xff6cd39a);
    assert_eq!(color_for(""), 0xff9f7776);
    assert_eq!(color_for("minecraft:iron_ingot"), 0xffc25fb7);
    assert_eq!(short_name("minecraft:redstone"), "redstone");
    assert_eq!(short_name("a:b:c"), "c");
    assert_eq!(short_name("plain"), "plain");
    assert_eq!(short_name("trailing:"), "");
}

#[test]
fn inventory_screen_selection_and_buttons() {
    let designs = vec![dm("Adder", Tier::Gold), dm("Clock", Tier::Wood)];
    let mut ui = WorkbenchInvUi::new();
    assert!(matches!(ui.handle_click("click:1:1", Some("design_row:0"), 0, &designs), WorkbenchRequest::Nothing));
    assert_eq!(ui.selected, None);
    ui.set_player_context("/game", "steve");
    assert!(matches!(
        ui.handle_click("click:1:1", Some("btn:Design"), 0, &designs),
        WorkbenchRequest::Hint { message: "Select a design first." }
    ));
    ui.handle_click("click:1:1", Some("design_row:1"), 0, &designs);
    assert_eq!(ui.selected, Some("Clock".to_string()));
    match ui.handle_click("click:1:1", Some("btn:Fabricate"), 0, &designs) {
        WorkbenchRequest::Fabricate { name, tier_id } => assert_eq!((name.as_str(), tier_id), ("Clock", "wood")),
        _ => panic!("fabricate"),
    }
    assert!(matches!(ui.handle_click("click:1:1", Some("btn:Export BP"), 0, &designs), WorkbenchRequest::ExportBp { .. }));
    ui.handle_click("click:1:1", Some("design_row:1"), 0, &designs);
    assert_eq!(ui.selected, None);
    ui.handle_click("click:1:1", Some("design_row:9"), 0, &designs);
    assert_eq!(ui.selected, None);
}

#[test]
fn inventory_screen_scrolls() {
    let designs: Vec<DesignMeta> = Vec::new();
    let mut ui = WorkbenchInvUi::new();
    ui.set_player_context("/game", "steve");
    ui.handle_click("scroll:-1.0", None, -1, &designs);
    ui.handle_click("scroll:-1.0", None, -1, &designs);
    assert_eq!(ui.scroll, 2);
    ui.handle_click("scroll:1.0", None, 1, &designs);
    assert_eq!(ui.scroll, 1);
    ui.handle_click("scroll:1.0", None, 1, &designs);
    ui.handle_click("scroll:1.0", None, 1, &designs);
    assert_eq!(ui.scroll, 0);
}

#[test]
fn stand_alone_screen() {
    let designs = vec![dm("Adder", Tier::Gold)];
    let mut ui = WorkbenchUi::new();
    ui.set_player("/game", "alex");
    assert!(ui.active);
    assert!(matches!(
        ui.handle_click("click:0:0", Some("btn:Import BP"), 0, &designs),
        WorkbenchRequest::Hint { .. }
    ));
    ui.handle_click("click:0:0", Some("design_row:0"), 0, &designs);
    match ui.handle_click("click:0:0", Some("btn:Design"), 0, &designs) {
        WorkbenchRequest::Edit { name } => assert_eq!(name, "Adder"),
        _ => panic!("edit"),
    }
    ui.handle_click("click:0:0", Some("close"), 0, &designs);
    assert!(!ui.active);
    ui.set_player("/game", "alex");
    ui.handle_click("close", None, 0, &designs);
    assert!(!ui.active);
}
