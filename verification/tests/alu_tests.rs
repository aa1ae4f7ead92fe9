use yog_vlsi::alu::tick::{chips_at, collect_outputs};
use yog_vlsi::alu::{
    alu_id, alu_limits, alu_materials, ext_sides, install_chip, is_alu_block, next_mode_of, owed_steps,
    parse_ext_chip_id, tick_all, AluNetwork, IoModes, LinkGraph,
};
use yog_vlsi::alu_ui::{auto_link, parse_chip_list, AluUi, AluUiRequest};
use yog_vlsi::chip::{ChipMeta, CircuitBlock, CircuitData, Port, PortDir, PortSide};
use yog_vlsi::commands::ext_chip_id;
use yog_vlsi::vm::Tier;

fn pref(a: &str, b: &str) -> (String, String) {
    (a.to_string(), b.to_string())
}

fn port(label: &str, index: u32, dir: PortDir) -> Port {
    Port { label: label.to_string(), side: PortSide::North, index, dir }
}

fn meta(id: &str, tier: Tier) -> ChipMeta {
    ChipMeta { id: id.to_string(), tier, name: format!("chip {id}"), ports: Vec::new() }
}

#[test]
fn alu_ids() {
    assert_eq!(alu_id(Tier::Gold), "yog-vlsi:alu_gold");
    assert!(is_alu_block("yog-vlsi:alu_netherite"));
    assert!(!is_alu_block("yog-vlsi:alu"));
    assert_eq!(alu_limits(Tier::Wood), (2, 8));
    assert_eq!(alu_limits(Tier::Netherite), (8, 64));
    assert_eq!(alu_materials(Tier::Diamond), ("minecraft:diamond", "minecraft:diamond_block"));
    assert_eq!(ext_sides(), vec!["N", "S", "E", "W", "U", "D"]);
}

#[test]
fn ext_ids_parse_back() {
    for p in [(0, 0, 0), (1, -2, 3), (i32::MIN, i32::MAX, -1)] {
        assert_eq!(parse_ext_chip_id(&ext_chip_id(p)), Some(p));
    }
    assert_eq!(parse_ext_chip_id("__ext_1_2"), None);
    assert_eq!(parse_ext_chip_id("__ext_1_2_3_4"), None);
    assert_eq!(parse_ext_chip_id("__ext_a_2_3"), None);
    assert_eq!(parse_ext_chip_id("ext_1_2_3"), None);
    assert_eq!(parse_ext_chip_id("__ext_+1_2_-3"), Some((1, 2, -3)));
}

#[test]
fn steps_owed_per_tick() {
    assert_eq!(owed_steps(0, Tier::Netherite), (2, 0));
    assert_eq!(owed_steps(0, Tier::Wood), (0, 1));
    assert_eq!(owed_steps(3, Tier::Wood), (1, 0));
    assert_eq!(owed_steps(3, Tier::Iron), (2, 0));
    assert_eq!(owed_steps(2, Tier::Diamond), (2, 0));
}

#[test]
fn steps_per_second_match_tick_rate() {
    for t in Tier::all() {
        let mut owed = 0;
        let mut total = 0;
        for _ in 0..20 {
            let (s, left) = owed_steps(owed, t);
            total += s;
            owed = left;
        }
        assert_eq!(total, t.tick_rate());
        assert_eq!(owed, 0);
    }
}

#[test]
fn links_replace_by_source() {
    let mut g = LinkGraph::new();
    g.insert(pref("a", "Q"), pref("b", "D"));
    g.insert(pref("c", "Q"), pref("b", "E"));
    g.insert(pref("a", "Q"), pref("d", "D"));
    assert_eq!(g.len(), 2);
    assert_eq!(g.get(&pref("a", "Q")), Some(pref("d", "D")));
    assert_eq!(g.get(&pref("c", "Q")), Some(pref("b", "E")));
    assert_eq!(g.get(&pref("b", "D")), None);
}

#[test]
fn io_modes_cycle() {
    let mut m = IoModes::new();
    assert_eq!(m.mode_of("k"), "Input");
    m.insert("k".to_string(), next_mode_of("Input").to_string());
    assert_eq!(m.mode_of("k"), "Output");
    assert_eq!(next_mode_of("Output"), "Bidirectional");
    assert_eq!(next_mode_of("Bidirectional"), "Input");
    assert_eq!(next_mode_of("weird"), "Input");
}

#[test]
fn picking_two_pins_links_them() {
    let mut ui = AluUi::new();
    let mut links = LinkGraph::new();
    ui.select_pin(&mut links, "a".to_string(), "Q".to_string());
    assert_eq!(ui.selected, Some(pref("a", "Q")));
    assert_eq!(links.len(), 0);
    ui.select_pin(&mut links, "b".to_string(), "D".to_string());
    assert_eq!(ui.selected, None);
    assert_eq!(links.get(&pref("a", "Q")), Some(pref("b", "D")));
}

#[test]
fn editor_clicks() {
    let mut ui = AluUi::new();
    ui.set_alu_pos((4, 5, 6));
    let mut links = LinkGraph::new();
    let mut modes = IoModes::new();
    let chips: Vec<(String, Tier)> = Vec::new();
    let ports: Vec<(String, Vec<Port>)> = Vec::new();
    let r = ui.handle_hit("select_chip:7", &mut links, &mut modes, &chips, &ports);
    assert!(matches!(r, AluUiRequest::Install { ref slot, pos: (4, 5, 6) } if slot == "7"));
    assert!(matches!(ui.handle_hit("add_chip", &mut links, &mut modes, &chips, &ports), AluUiRequest::RequestChipList));
    assert!(matches!(ui.handle_hit("save_links", &mut links, &mut modes, &chips, &ports), AluUiRequest::SaveLinks));
    ui.handle_hit("alu_mode:N", &mut links, &mut modes, &chips, &ports);
    ui.handle_hit("alu_mode:N", &mut links, &mut modes, &chips, &ports);
    assert_eq!(modes.mode_of("__ext_4_5_6:N"), "Bidirectional");
    ui.handle_hit("alu_pin:E", &mut links, &mut modes, &chips, &ports);
    ui.handle_hit("pin:chipA:IN:0", &mut links, &mut modes, &chips, &ports);
    assert_eq!(links.get(&pref("__ext_4_5_6", "E")), Some(pref("chipA", "IN:0")));
    ui.handle_hit("pin:nocolon", &mut links, &mut modes, &chips, &ports);
    assert_eq!(ui.selected, None);
    ui.handle_hit("close", &mut links, &mut modes, &chips, &ports);
    assert_eq!(ui.alu_pos, None);
    assert!(!ui.show_selector);
}

#[test]
fn close_event_and_misses() {
    let mut ui = AluUi::new();
    ui.set_alu_pos((1, 1, 1));
    let mut links = LinkGraph::new();
    let mut modes = IoModes::new();
    let chips: Vec<(String, Tier)> = Vec::new();
    let ports: Vec<(String, Vec<Port>)> = Vec::new();
    let r = ui.handle_click("click:10:20", None, &mut links, &mut modes, &chips, &ports);
    assert!(matches!(r, AluUiRequest::Nothing));
    assert_eq!(ui.alu_pos, Some((1, 1, 1)));
    ui.handle_click("click:10:20", Some("alu_pin:N"), &mut links, &mut modes, &chips, &ports);
    assert_eq!(ui.selected, Some(pref("__ext_1_1_1", "N")));
    ui.handle_click("close", None, &mut links, &mut modes, &chips, &ports);
    assert_eq!(ui.alu_pos, None);
    assert_eq!(ui.selected, None);
}

#[test]
fn auto_link_matches_labels_forward() {
    let mut links = LinkGraph::new();
    let chips = vec![("a".to_string(), Tier::Wood), ("b".to_string(), Tier::Wood), ("c".to_string(), Tier::Wood)];
    let ports = vec![
        ("a".to_string(), vec![port("X", 0, PortDir::Output), port("Y", 1, PortDir::Output)]),
        ("b".to_string(), vec![port("X", 0, PortDir::Input)]),
        ("c".to_string(), vec![port("X", 0, PortDir::Input), port("Y", 2, PortDir::Input)]),
    ];
    auto_link(&mut links, &chips, &ports);
    assert_eq!(links.get(&pref("a", "X")), Some(pref("c", "X")));
    assert_eq!(links.get(&pref("a", "Y")), Some(pref("c", "Y")));
    assert_eq!(links.get(&pref("b", "X")), Some(pref("c", "X")));
    assert_eq!(links.get(&pref("c", "X")), None);
    assert_eq!(links.len(), 3);
}

#[test]
fn chip_list_lines() {
    let list = parse_chip_list("3\tgold\tAdder\r\n9\twood\nbad\tx\n12\n5\tstone\tA\tB");
    assert_eq!(
        list,
        vec![
            (3, "gold".to_string(), "Adder".to_string()),
            (9, "wood".to_string(), "chip".to_string()),
            (5, "stone".to_string(), "A".to_string()),
        ]
    );
    assert!(parse_chip_list("").is_empty());
    assert_eq!(parse_chip_list("1\tiron\n"), vec![(1, "iron".to_string(), "chip".to_string())]);
}

fn one_port_circuit(id: &str, label: &str, dir: PortDir, mode_block: &str) -> CircuitData {
    let mut c = CircuitData::new(id.to_string(), 16, 16, vec![port(label, 5, dir)]);
    c.blocks.push(CircuitBlock { x: 5, y: 0, z: 0, block_id: mode_block.to_string(), state_json: "{}".to_string() });
    c
}

#[test]
fn network_installs_and_steps_at_rate() {
    let mut net = AluNetwork::new();
    let circuit = one_port_circuit("n1", "Q", PortDir::Bidirectional, "yog-vlsi:port_bidi");
    install_chip(&mut net, &meta("n1", Tier::Netherite), (0, 64, 0), Some(circuit));
    install_chip(&mut net, &meta("w1", Tier::Wood), (0, 64, 0), Some(CircuitData::new("w1".to_string(), 16, 16, Vec::new())));
    assert_eq!(chips_at(&net, (0, 64, 0)).len(), 2);
    assert!(chips_at(&net, (1, 1, 1)).is_empty());
    tick_all(&mut net);
    assert_eq!(net.sims[0].vm.tick, 2);
    assert_eq!(net.sims[1].vm.tick, 0);
    for _ in 0..3 {
        tick_all(&mut net);
    }
    assert_eq!(net.sims[0].vm.tick, 8);
    assert_eq!(net.sims[1].vm.tick, 1);
}

#[test]
fn network_carries_outputs_to_inputs_and_ext() {
    let mut net = AluNetwork::new();
    install_chip(&mut net, &meta("src", Tier::Gold), (0, 0, 0), Some(one_port_circuit("src", "Q", PortDir::Bidirectional, "yog-vlsi:port_bidi")));
    install_chip(&mut net, &meta("dst", Tier::Gold), (0, 0, 0), Some(one_port_circuit("dst", "D", PortDir::Input, "yog-vlsi:port_input")));
    net.sims[0].vm.set_port_input(5, 0, 0, 11);
    net.links.insert(pref("src", "Q"), pref("dst", "D"));
    net.links.insert(pref("dst", "D"), pref("__ext_7_8_9", "N"));
    net.links.insert(pref("__ext_0_0_0", "S"), pref("dst", "D"));
    let outs = collect_outputs(&net);
    assert_eq!(outs, vec![(pref("src", "Q"), 11)]);
    tick_all(&mut net);
    assert_eq!(net.sims[1].vm.cell(5, 0, 0).power, 11);
    assert!(net.ext_values.is_empty());
    net.links.insert(pref("src", "Q"), pref("__ext_7_8_9", "N"));
    tick_all(&mut net);
    assert_eq!(net.ext_values, vec![((7, 8, 9), vec![("N".to_string(), 11)])]);
}

#[test]
fn netherite_steps_twice_and_wood_every_fourth_tick() {
    for (t, n) in [(Tier::Netherite, 7u32), (Tier::Wood, 7u32), (Tier::Wood, 12u32)] {
        let mut owed = 0;
        let mut total = 0;
        for _ in 0..n {
            let (s, left) = owed_steps(owed, t);
            total += s;
            owed = left;
        }
        if t == Tier::Netherite {
            assert_eq!((total, owed), (2 * n, 0));
        } else {
            assert_eq!((total, owed), (n / 4, n % 4));
        }
    }
}
