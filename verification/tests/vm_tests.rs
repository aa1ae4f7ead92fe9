use yog_vlsi::chip::CircuitData;
use yog_vlsi::commands::{create_test_chip, load_circuit_into_vm};
use yog_vlsi::vm::{BlockType, Cell, Facing, PortMode, RedstoneVM, Tier};

#[test]
fn tier_rates_and_sizes() {
    let rates: Vec<u32> = Tier::all().iter().map(|t| t.tick_rate()).collect();
    assert_eq!(rates, vec![5, 10, 20, 25, 30, 40]);
    let sizes: Vec<u32> = Tier::all().iter().map(|t| t.world_size()).collect();
    assert_eq!(sizes, vec![16, 32, 64, 64, 128, 256]);
    assert_eq!(Tier::Netherite.name(), "Netherite");
    assert_eq!(Tier::Diamond.id(), "diamond");
}

#[test]
fn tier_found_from_its_id() {
    for t in Tier::all() {
        assert_eq!(Tier::from_id(t.id()), Some(t));
    }
    assert_eq!(Tier::from_id("Wood"), None);
    assert_eq!(Tier::from_id(""), None);
}

#[test]
fn facing_helpers() {
    assert_eq!(Facing::North.horizontal_offset(), (0, -1));
    assert_eq!(Facing::East.horizontal_offset(), (1, 0));
    assert_eq!(Facing::Up.horizontal_offset(), (0, 0));
    for f in [Facing::North, Facing::South, Facing::East, Facing::West, Facing::Up, Facing::Down] {
        assert_eq!(f.opposite().opposite(), f);
    }
    assert_eq!(Facing::from_minecraft("west"), Facing::West);
    assert_eq!(Facing::from_minecraft("sideways"), Facing::North);
}

#[test]
fn cell_sources() {
    let block = Cell::new(BlockType::RedstoneBlock);
    assert!(block.is_power_source());
    assert_eq!(block.source_power(), 15);
    assert_eq!(block.power, 0);
    let lever_off = Cell::new(BlockType::Lever { on: false });
    assert_eq!(lever_off.source_power(), 0);
    let lever_on = Cell::new(BlockType::Lever { on: true });
    assert_eq!(lever_on.source_power(), 15);
    assert!(Cell::new(BlockType::Solid).is_redstone_conductor());
    assert!(Cell::new(BlockType::Hopper { facing: Facing::Down, enabled: true }).is_redstone_conductor());
    assert!(!Cell::new(BlockType::Glass).is_redstone_conductor());
    assert!(!Cell::new(BlockType::RedstoneWire).is_redstone_conductor());
}

#[test]
fn new_vm_is_empty() {
    let vm = RedstoneVM::new(Tier::Wood);
    assert_eq!(vm.width, 16);
    assert_eq!(vm.height, 16);
    assert_eq!(vm.tick, 0);
    assert_eq!(vm.grid.len(), 16 * 16 * 16);
    assert!(vm.updates.is_empty());
    assert_eq!(vm.cell(3, 4, 5).block, BlockType::Air);
}

#[test]
fn set_block_reads_back_and_queues_neighbours() {
    let mut vm = RedstoneVM::new(Tier::Wood);
    vm.set_block(0, 0, 0, BlockType::RedstoneLamp);
    assert_eq!(vm.cell(0, 0, 0).block, BlockType::RedstoneLamp);
    assert_eq!(vm.cell(1, 0, 0).block, BlockType::Air);
    let queued: Vec<(u32, u32, u32)> = vm.updates.iter().cloned().collect();
    assert_eq!(queued, vec![(0, 0, 0), (1, 0, 0), (0, 0, 1), (0, 1, 0)]);
}

#[test]
fn bidirectional_port_reads_back_clamped() {
    let mut vm = RedstoneVM::new(Tier::Wood);
    vm.set_block(5, 0, 5, BlockType::Port(PortMode::Bidirectional));
    vm.set_port_input(5, 0, 5, 20);
    assert_eq!(vm.get_port_output(5, 0, 5), 15);
    vm.set_port_input(5, 0, 5, 7);
    assert_eq!(vm.get_port_output(5, 0, 5), 7);
}

#[test]
fn input_port_shows_nothing_outside() {
    let mut vm = RedstoneVM::new(Tier::Wood);
    vm.set_block(2, 0, 2, BlockType::Port(PortMode::Input));
    vm.set_port_input(2, 0, 2, 9);
    assert_eq!(vm.get_port_output(2, 0, 2), 0);
    assert_eq!(vm.cell(2, 0, 2).power, 9);
    assert_eq!(vm.get_port_output(99, 0, 2), 0);
}

#[test]
fn step_advances_tick() {
    let mut vm = RedstoneVM::new(Tier::Stone);
    vm.step();
    vm.step();
    assert_eq!(vm.tick, 2);
    assert!(vm.updates.is_empty());
}

#[test]
fn redstone_block_powers_wire_with_decay() {
    let (_meta, circuit) = create_test_chip(Tier::Wood);
    let mut vm = RedstoneVM::new(Tier::Wood);
    load_circuit_into_vm(&mut vm, &circuit);
    vm.step();
    assert_eq!(vm.cell(1, 0, 0).block, BlockType::RedstoneBlock);
    assert_eq!(vm.cell(2, 0, 0).power, 14);
    assert_eq!(vm.cell(3, 0, 0).power, 13);
    assert_eq!(vm.cell(13, 0, 0).power, 3);
    assert_eq!(vm.cell(14, 0, 0).block, BlockType::RedstoneLamp);
}

#[test]
fn driven_port_powers_neighbouring_wire() {
    let mut vm = RedstoneVM::new(Tier::Wood);
    vm.set_block(4, 0, 4, BlockType::Port(PortMode::Bidirectional));
    vm.set_block(5, 0, 4, BlockType::RedstoneWire);
    vm.set_block(6, 0, 4, BlockType::RedstoneWire);
    vm.set_port_input(4, 0, 4, 15);
    vm.step();
    assert_eq!(vm.cell(5, 0, 4).power, 14);
    assert_eq!(vm.cell(6, 0, 4).power, 13);
}

#[test]
fn outputs_listed_and_inputs_written() {
    let mut vm = RedstoneVM::new(Tier::Wood);
    vm.set_block(1, 0, 0, BlockType::Port(PortMode::Bidirectional));
    vm.set_block(3, 0, 2, BlockType::Port(PortMode::Output));
    vm.write_inputs(0, &[(1, 0, 6), (3, 2, 9)]);
    assert_eq!(vm.read_outputs(0), vec![(1, 0, 6), (3, 2, 0)]);
}

#[test]
fn empty_circuit_loads_nothing() {
    let circuit = CircuitData::new("c".to_string(), 16, 16, Vec::new());
    let mut vm = RedstoneVM::new(Tier::Wood);
    load_circuit_into_vm(&mut vm, &circuit);
    assert!(vm.updates.is_empty());
    assert_eq!(circuit.blocks.len(), 0);
}

#[test]
fn output_port_carries_the_circuit_level() {
    let mut vm = RedstoneVM::new(Tier::Wood);
    vm.set_block(0, 0, 0, BlockType::RedstoneBlock);
    vm.set_block(1, 0, 0, BlockType::RedstoneWire);
    vm.set_block(2, 0, 0, BlockType::Port(PortMode::Output));
    vm.step();
    assert_eq!(vm.cell(1, 0, 0).power, 14);
    assert_eq!(vm.get_port_output(2, 0, 0), 13);
    assert_eq!(vm.read_outputs(0), vec![(2, 0, 13)]);
}

#[test]
fn undriven_bidirectional_port_carries_the_circuit_level() {
    let mut vm = RedstoneVM::new(Tier::Wood);
    vm.set_block(0, 0, 0, BlockType::RedstoneBlock);
    vm.set_block(1, 0, 0, BlockType::Port(PortMode::Bidirectional));
    vm.step();
    assert_eq!(vm.get_port_output(1, 0, 0), 14);
    vm.set_block(0, 0, 0, BlockType::Air);
    vm.step();
    assert_eq!(vm.get_port_output(1, 0, 0), 0);
}

#[test]
fn repeater_turns_on_after_its_delay() {
    let mut vm = RedstoneVM::new(Tier::Wood);
    vm.set_block(0, 0, 0, BlockType::Port(PortMode::Input));
    vm.set_block(1, 0, 0, BlockType::Repeater { delay_ticks: 1, facing: Facing::East, locked: false });
    vm.set_port_input(0, 0, 0, 15);
    vm.step();
    vm.step();
    vm.step();
    assert_eq!(vm.cell(1, 0, 0).power, 15);
    assert!(vm.cell(1, 0, 0).strongly_powered);
}

#[test]
fn longer_delay_waits_before_turning_on() {
    let mut vm = RedstoneVM::new(Tier::Wood);
    vm.set_block(0, 0, 0, BlockType::Port(PortMode::Input));
    vm.set_block(1, 0, 0, BlockType::Repeater { delay_ticks: 3, facing: Facing::East, locked: false });
    vm.set_block(2, 0, 0, BlockType::RedstoneWire);
    vm.set_port_input(0, 0, 0, 15);
    vm.step();
    assert_eq!(vm.cell(1, 0, 0).power, 0);
    assert_eq!(vm.cell(1, 0, 0).repeater_timer, 2);
    vm.step();
    assert_eq!(vm.cell(1, 0, 0).power, 0);
    vm.step();
    assert_eq!(vm.cell(1, 0, 0).power, 15);
    vm.step();
    assert_eq!(vm.cell(2, 0, 0).power, 14);
}

#[test]
fn last_write_to_a_port_wins_and_outside_writes_do_nothing() {
    let mut vm = RedstoneVM::new(Tier::Wood);
    vm.set_block(1, 0, 0, BlockType::Port(PortMode::Input));
    let queued = vm.updates.len();
    vm.write_inputs(0, &[(1, 0, 4), (40, 0, 9), (1, 0, 11)]);
    assert_eq!(vm.cell(1, 0, 0).power, 11);
    assert!(vm.cell(1, 0, 0).strongly_powered);
    assert_eq!(vm.updates.len(), queued);
    let mut same = RedstoneVM::new(Tier::Wood);
    same.set_block(1, 0, 0, BlockType::Port(PortMode::Input));
    same.set_port_input(1, 0, 0, 4);
    same.set_port_input(40, 0, 0, 9);
    same.set_port_input(1, 0, 0, 11);
    assert_eq!(same.cell(1, 0, 0), vm.cell(1, 0, 0));
    assert_eq!(same.updates, vm.updates);
}
