//! Command-side logic: identifiers of ALU pseudo-chips, tier names, how
//! saved circuit blocks read as simulator blocks, fabrication
//! cost and the test circuit.

use vstd::prelude::*;

use crate::chip::{new_chip_id, uuid_v4_text, ChipMeta, CircuitBlock, CircuitData, Port, PortDir, PortSide};
use crate::port::{PORT_BIDI, PORT_INPUT, PORT_OUTPUT};
use crate::chip::{chip_nbt_key, snbt_unframe};
use crate::text::{
    after_prefix, ascii_lower, dec_int, is_ascii_text, lowercase, push_dec_i64, seq_contains, str_contains, str_eq, strip_prefix,
    to_lowercase,
};
use crate::vm::{
    cell_index, in_world, lemma_cell_index_bounds, lemma_cell_index_injective, schedule,
    schedule_around, BlockType, Cell, ComparatorMode, DoorHalf, Facing, PortMode, Pos, RedstoneVM,
    ShulkerColor, Tier,
};

verus! {

broadcast use vstd::string::group_string_axioms;

// ── ALU pseudo-chips ──────────────────────────────────────────────────────────

/// `__ext_<x>_<y>_<z>`: the chip id under which an ALU's own external ports
/// take part in the link graph.
pub open spec fn ext_id_text(x: int, y: int, z: int) -> Seq<char> {
    "__ext_"@ + dec_int(x) + seq!['_'] + dec_int(y) + seq!['_'] + dec_int(z)
}

/// The pseudo-chip id of the ALU at `alu_pos`.
pub fn ext_chip_id(alu_pos: (i32, i32, i32)) -> (r: String)
    ensures
        r@ == ext_id_text(alu_pos.0 as int, alu_pos.1 as int, alu_pos.2 as int),
{
    let mut s = String::from_str("__ext_");
    push_dec_i64(&mut s, alu_pos.0 as i64);
    s.push('_');
    push_dec_i64(&mut s, alu_pos.1 as i64);
    s.push('_');
    push_dec_i64(&mut s, alu_pos.2 as i64);
    s
}

// ── Tiers by name ─────────────────────────────────────────────────────────────

/// The tier named by `s`, whatever its case: for ASCII text, the tier whose
/// identifier is `s` lower-cased letter by letter.
pub fn parse_tier_pub(s: &str) -> (r: Option<Tier>)
    ensures
        r == Tier::spec_from_id(lowercase(s@)),
        is_ascii_text(s@) ==> r == Tier::spec_from_id(ascii_lower(s@)),
        r matches Some(t) ==> lowercase(s@) == t.spec_id(),
{
    parse_tier(s)
}

fn parse_tier(s: &str) -> (r: Option<Tier>)
    ensures
        r == Tier::spec_from_id(lowercase(s@)),
        is_ascii_text(s@) ==> r == Tier::spec_from_id(ascii_lower(s@)),
        r matches Some(t) ==> lowercase(s@) == t.spec_id(),
{
    let lower = to_lowercase(s);
    let r = Tier::from_id(lower.as_str());
    proof {
        if let Some(t) = r {
            Tier::lemma_from_id_some(lowercase(s@), t);
        }
    }
    r
}

/// A tier's identifier and its display name are ASCII, and either one
/// lower-cased names the tier: `parse_tier_pub` gives the tier back for both.
pub proof fn lemma_tier_names_parse(t: Tier)
    ensures
        is_ascii_text(t.spec_id()),
        Tier::spec_from_id(ascii_lower(t.spec_id())) == Some(t),
        is_ascii_text(t.spec_name()),
        Tier::spec_from_id(ascii_lower(t.spec_name())) == Some(t),
{
    crate::vm::lemma_tier_text(t);
    crate::vm::lemma_tier_id_roundtrip(t);
}

// ── Saved blocks to simulator blocks ──────────────────────────────────────────

/// `state` holds the property text `pat`.
pub open spec fn holds_prop(state: Seq<char>, pat: Seq<char>) -> bool {
    seq_contains(state, pat)
}

/// The facing named in a block state; down when none of the others is.
pub open spec fn facing_of(st: Seq<char>) -> Facing {
    if holds_prop(st, "\"facing\":\"north\""@) {
        Facing::North
    } else if holds_prop(st, "\"facing\":\"south\""@) {
        Facing::South
    } else if holds_prop(st, "\"facing\":\"east\""@) {
        Facing::East
    } else if holds_prop(st, "\"facing\":\"west\""@) {
        Facing::West
    } else if holds_prop(st, "\"facing\":\"up\""@) {
        Facing::Up
    } else {
        Facing::Down
    }
}

/// The door half named in a block state; lower unless it says upper.
pub open spec fn half_of(st: Seq<char>) -> DoorHalf {
    if holds_prop(st, "\"half\":\"upper\""@) {
        DoorHalf::Upper
    } else {
        DoorHalf::Lower
    }
}

/// A repeater's delay from its block state: 2, 3 or 4 when stated, else 1.
pub open spec fn delay_of(st: Seq<char>) -> u8 {
    if holds_prop(st, "\"delay\":\"2\""@) {
        2
    } else if holds_prop(st, "\"delay\":\"3\""@) {
        3
    } else if holds_prop(st, "\"delay\":\"4\""@) {
        4
    } else {
        1
    }
}

/// The shulker box of a colour, by its block id.
pub open spec fn shulker_of(id: Seq<char>) -> Option<Option<ShulkerColor>> {
    if id == "minecraft:white_shulker_box"@ {
        Some(Some(ShulkerColor::White))
    } else if id == "minecraft:orange_shulker_box"@ {
        Some(Some(ShulkerColor::Orange))
    } else if id == "minecraft:magenta_shulker_box"@ {
        Some(Some(ShulkerColor::Magenta))
    } else if id == "minecraft:light_blue_shulker_box"@ {
        Some(Some(ShulkerColor::LightBlue))
    } else if id == "minecraft:yellow_shulker_box"@ {
        Some(Some(ShulkerColor::Yellow))
    } else if id == "minecraft:lime_shulker_box"@ {
        Some(Some(ShulkerColor::Lime))
    } else if id == "minecraft:pink_shulker_box"@ {
        Some(Some(ShulkerColor::Pink))
    } else if id == "minecraft:gray_shulker_box"@ {
        Some(Some(ShulkerColor::Gray))
    } else if id == "minecraft:light_gray_shulker_box"@ {
        Some(Some(ShulkerColor::LightGray))
    } else if id == "minecraft:cyan_shulker_box"@ {
        Some(Some(ShulkerColor::Cyan))
    } else if id == "minecraft:purple_shulker_box"@ {
        Some(Some(ShulkerColor::Purple))
    } else if id == "minecraft:blue_shulker_box"@ {
        Some(Some(ShulkerColor::Blue))
    } else if id == "minecraft:brown_shulker_box"@ {
        Some(Some(ShulkerColor::Brown))
    } else if id == "minecraft:green_shulker_box"@ {
        Some(Some(ShulkerColor::Green))
    } else if id == "minecraft:red_shulker_box"@ {
        Some(Some(ShulkerColor::Red))
    } else if id == "minecraft:black_shulker_box"@ {
        Some(Some(ShulkerColor::Black))
    } else if id == "minecraft:shulker_box"@ {
        Some(None)
    } else {
        None
    }
}

/// The simulator block for a redstone component, by block id and state.
pub open spec fn redstone_block_of(id: Seq<char>, st: Seq<char>) -> Option<BlockType> {
    if id == "minecraft:air"@ || id == "minecraft:cave_air"@ || id == "minecraft:void_air"@ {
        Some(BlockType::Air)
    } else if id == "minecraft:redstone_wire"@ {
        Some(BlockType::RedstoneWire)
    } else if id == "minecraft:redstone_torch"@ {
        Some(BlockType::RedstoneTorch { lit: !holds_prop(st, "\"lit\":\"false\""@) })
    } else if id == "minecraft:redstone_wall_torch"@ {
        Some(BlockType::RedstoneWallTorch { lit: !holds_prop(st, "\"lit\":\"false\""@), facing: facing_of(st) })
    } else if id == "minecraft:repeater"@ {
        Some(
            BlockType::Repeater {
                delay_ticks: delay_of(st),
                facing: facing_of(st),
                locked: holds_prop(st, "\"locked\":\"true\""@),
            },
        )
    } else if id == "minecraft:comparator"@ {
        Some(
            BlockType::Comparator {
                mode: if holds_prop(st, "\"mode\":\"subtract\""@) {
                    ComparatorMode::Subtract
                } else {
                    ComparatorMode::Compare
                },
                facing: facing_of(st),
            },
        )
    } else if id == "minecraft:redstone_lamp"@ {
        Some(BlockType::RedstoneLamp)
    } else if id == "minecraft:redstone_block"@ {
        Some(BlockType::RedstoneBlock)
    } else if id == "minecraft:lever"@ {
        Some(BlockType::Lever { on: holds_prop(st, "\"powered\":\"true\""@) })
    } else if id == "minecraft:stone_button"@ {
        Some(BlockType::StoneButton { pressed: holds_prop(st, "\"powered\":\"true\""@), facing: facing_of(st) })
    } else if id == "minecraft:observer"@ {
        Some(BlockType::Observer { facing: facing_of(st), powered: holds_prop(st, "\"powered\":\"true\""@) })
    } else if id == "minecraft:note_block"@ {
        Some(BlockType::NoteBlock)
    } else if id == "minecraft:target"@ {
        Some(BlockType::TargetBlock { power: 0 })
    } else if id == "minecraft:piston"@ {
        Some(BlockType::Piston { extended: holds_prop(st, "\"extended\":\"true\""@), facing: facing_of(st) })
    } else if id == "minecraft:sticky_piston"@ {
        Some(BlockType::StickyPiston { extended: holds_prop(st, "\"extended\":\"true\""@), facing: facing_of(st) })
    } else {
        None
    }
}

/// The simulator block for a container or furnace, by block id and state.
pub open spec fn container_block_of(id: Seq<char>, st: Seq<char>) -> Option<BlockType> {
    if id == "minecraft:chest"@ {
        Some(BlockType::Chest)
    } else if id == "minecraft:trapped_chest"@ {
        Some(BlockType::TrappedChest)
    } else if id == "minecraft:ender_chest"@ {
        Some(BlockType::EnderChest)
    } else if id == "minecraft:barrel"@ {
        Some(BlockType::Barrel)
    } else if id == "minecraft:hopper"@ {
        Some(BlockType::Hopper { facing: facing_of(st), enabled: !holds_prop(st, "\"enabled\":\"false\""@) })
    } else if id == "minecraft:dropper"@ {
        Some(BlockType::Dropper { facing: facing_of(st), triggered: holds_prop(st, "\"triggered\":\"true\""@) })
    } else if id == "minecraft:dispenser"@ {
        Some(BlockType::Dispenser { facing: facing_of(st), triggered: holds_prop(st, "\"triggered\":\"true\""@) })
    } else if id == "minecraft:furnace"@ {
        Some(BlockType::Furnace { lit: holds_prop(st, "\"lit\":\"true\""@) })
    } else if id == "minecraft:blast_furnace"@ {
        Some(BlockType::BlastFurnace { lit: holds_prop(st, "\"lit\":\"true\""@) })
    } else if id == "minecraft:smoker"@ {
        Some(BlockType::Smoker { lit: holds_prop(st, "\"lit\":\"true\""@) })
    } else if id == "minecraft:brewing_stand"@ {
        Some(BlockType::BrewingStand)
    } else {
        match shulker_of(id) {
            Some(color) => Some(BlockType::ShulkerBox { color }),
            None => None,
        }
    }
}

/// The simulator block for the remaining known blocks, by block id and state.
pub open spec fn utility_block_of(id: Seq<char>, st: Seq<char>) -> Option<BlockType> {
    if id == "minecraft:slime_block"@ {
        Some(BlockType::SlimeBlock)
    } else if id == "minecraft:honey_block"@ {
        Some(BlockType::HoneyBlock)
    } else if id == "minecraft:tnt"@ {
        Some(BlockType::Tnt { unstable: holds_prop(st, "\"unstable\":\"true\""@) })
    } else if id == "minecraft:rail"@ {
        Some(BlockType::Rail)
    } else if id == "minecraft:powered_rail"@ {
        Some(BlockType::PoweredRail { powered: holds_prop(st, "\"powered\":\"true\""@) })
    } else if id == "minecraft:detector_rail"@ {
        Some(BlockType::DetectorRail { powered: holds_prop(st, "\"powered\":\"true\""@) })
    } else if id == "minecraft:activator_rail"@ {
        Some(BlockType::ActivatorRail { powered: holds_prop(st, "\"powered\":\"true\""@) })
    } else if id == "minecraft:iron_door"@ {
        Some(BlockType::IronDoor { open: holds_prop(st, "\"open\":\"true\""@), facing: facing_of(st), half: half_of(st) })
    } else if id == "minecraft:oak_door"@ {
        Some(BlockType::WoodDoor { open: holds_prop(st, "\"open\":\"true\""@), facing: facing_of(st), half: half_of(st) })
    } else if id == "minecraft:iron_trapdoor"@ {
        Some(
            BlockType::IronTrapdoor {
                open: holds_prop(st, "\"open\":\"true\""@),
                facing: facing_of(st),
                half: half_of(st),
            },
        )
    } else if id == "minecraft:oak_trapdoor"@ {
        Some(
            BlockType::WoodTrapdoor {
                open: holds_prop(st, "\"open\":\"true\""@),
                facing: facing_of(st),
                half: half_of(st),
            },
        )
    } else if id == "minecraft:oak_fence_gate"@ {
        Some(BlockType::FenceGate { open: holds_prop(st, "\"open\":\"true\""@), facing: facing_of(st) })
    } else if id == "minecraft:oak_button"@ {
        Some(BlockType::WoodButton { pressed: holds_prop(st, "\"powered\":\"true\""@), facing: facing_of(st) })
    } else if id == "minecraft:stone_pressure_plate"@ {
        Some(BlockType::StonePressurePlate { pressed: holds_prop(st, "\"powered\":\"true\""@) })
    } else if id == "minecraft:oak_pressure_plate"@ {
        Some(BlockType::WoodPressurePlate { pressed: holds_prop(st, "\"powered\":\"true\""@) })
    } else if id == "minecraft:light_weighted_pressure_plate"@ {
        Some(BlockType::LightWeightedPressurePlate { power: 0 })
    } else if id == "minecraft:heavy_weighted_pressure_plate"@ {
        Some(BlockType::HeavyWeightedPressurePlate { power: 0 })
    } else if id == "minecraft:glass"@ {
        Some(BlockType::Glass)
    } else if id == "yog-vlsi:port_input"@ {
        Some(BlockType::Port(PortMode::Input))
    } else if id == "yog-vlsi:port_output"@ {
        Some(BlockType::Port(PortMode::Output))
    } else if id == "yog-vlsi:port_bidi"@ {
        Some(BlockType::Port(PortMode::Bidirectional))
    } else {
        None
    }
}

/// The simulator block for a saved block: the first table that knows the
/// block id decides; an unknown id is a plain solid block.
pub open spec fn block_type_of(id: Seq<char>, st: Seq<char>) -> BlockType {
    match redstone_block_of(id, st) {
        Some(b) => b,
        None => match container_block_of(id, st) {
            Some(b) => b,
            None => match utility_block_of(id, st) {
                Some(b) => b,
                None => BlockType::Solid,
            },
        },
    }
}

fn facing_from_state(st: &str) -> (r: Facing)
    ensures
        r == facing_of(st@),
{
    if str_contains(st, "\"facing\":\"north\"") {
        Facing::North
    } else if str_contains(st, "\"facing\":\"south\"") {
        Facing::South
    } else if str_contains(st, "\"facing\":\"east\"") {
        Facing::East
    } else if str_contains(st, "\"facing\":\"west\"") {
        Facing::West
    } else if str_contains(st, "\"facing\":\"up\"") {
        Facing::Up
    } else {
        Facing::Down
    }
}

fn door_half(state_json: &str) -> (r: DoorHalf)
    ensures
        r == half_of(state_json@),
{
    if str_contains(state_json, "\"half\":\"upper\"") {
        DoorHalf::Upper
    } else {
        DoorHalf::Lower
    }
}

fn shulker_from_id(id: &str) -> (r: Option<Option<ShulkerColor>>)
    ensures
        r == shulker_of(id@),
{
    if str_eq(id, "minecraft:white_shulker_box") {
        Some(Some(ShulkerColor::White))
    } else if str_eq(id, "minecraft:orange_shulker_box") {
        Some(Some(ShulkerColor::Orange))
    } else if str_eq(id, "minecraft:magenta_shulker_box") {
        Some(Some(ShulkerColor::Magenta))
    } else if str_eq(id, "minecraft:light_blue_shulker_box") {
        Some(Some(ShulkerColor::LightBlue))
    } else if str_eq(id, "minecraft:yellow_shulker_box") {
        Some(Some(ShulkerColor::Yellow))
    } else if str_eq(id, "minecraft:lime_shulker_box") {
        Some(Some(ShulkerColor::Lime))
    } else if str_eq(id, "minecraft:pink_shulker_box") {
        Some(Some(ShulkerColor::Pink))
    } else if str_eq(id, "minecraft:gray_shulker_box") {
        Some(Some(ShulkerColor::Gray))
    } else if str_eq(id, "minecraft:light_gray_shulker_box") {
        Some(Some(ShulkerColor::LightGray))
    } else if str_eq(id, "minecraft:cyan_shulker_box") {
        Some(Some(ShulkerColor::Cyan))
    } else if str_eq(id, "minecraft:purple_shulker_box") {
        Some(Some(ShulkerColor::Purple))
    } else if str_eq(id, "minecraft:blue_shulker_box") {
        Some(Some(ShulkerColor::Blue))
    } else if str_eq(id, "minecraft:brown_shulker_box") {
        Some(Some(ShulkerColor::Brown))
    } else if str_eq(id, "minecraft:green_shulker_box") {
        Some(Some(ShulkerColor::Green))
    } else if str_eq(id, "minecraft:red_shulker_box") {
        Some(Some(ShulkerColor::Red))
    } else if str_eq(id, "minecraft:black_shulker_box") {
        Some(Some(ShulkerColor::Black))
    } else if str_eq(id, "minecraft:shulker_box") {
        Some(None)
    } else {
        None
    }
}

fn redstone_block_from(id: &str, st: &str) -> (r: Option<BlockType>)
    ensures
        r == redstone_block_of(id@, st@),
{
    if str_eq(id, "minecraft:air") || str_eq(id, "minecraft:cave_air") || str_eq(id, "minecraft:void_air") {
        Some(BlockType::Air)
    } else if str_eq(id, "minecraft:redstone_wire") {
        Some(BlockType::RedstoneWire)
    } else if str_eq(id, "minecraft:redstone_torch") {
        Some(BlockType::RedstoneTorch { lit: !str_contains(st, "\"lit\":\"false\"") })
    } else if str_eq(id, "minecraft:redstone_wall_torch") {
        Some(BlockType::RedstoneWallTorch { lit: !str_contains(st, "\"lit\":\"false\""), facing: facing_from_state(st) })
    } else if str_eq(id, "minecraft:repeater") {
        let delay: u8 = if str_contains(st, "\"delay\":\"2\"") {
            2
        } else if str_contains(st, "\"delay\":\"3\"") {
            3
        } else if str_contains(st, "\"delay\":\"4\"") {
            4
        } else {
            1
        };
        Some(
            BlockType::Repeater {
                delay_ticks: delay,
                facing: facing_from_state(st),
                locked: str_contains(st, "\"locked\":\"true\""),
            },
        )
    } else if str_eq(id, "minecraft:comparator") {
        let mode = if str_contains(st, "\"mode\":\"subtract\"") {
            ComparatorMode::Subtract
        } else {
            ComparatorMode::Compare
        };
        Some(BlockType::Comparator { mode, facing: facing_from_state(st) })
    } else if str_eq(id, "minecraft:redstone_lamp") {
        Some(BlockType::RedstoneLamp)
    } else if str_eq(id, "minecraft:redstone_block") {
        Some(BlockType::RedstoneBlock)
    } else if str_eq(id, "minecraft:lever") {
        Some(BlockType::Lever { on: str_contains(st, "\"powered\":\"true\"") })
    } else if str_eq(id, "minecraft:stone_button") {
        Some(BlockType::StoneButton { pressed: str_contains(st, "\"powered\":\"true\""), facing: facing_from_state(st) })
    } else if str_eq(id, "minecraft:observer") {
        Some(BlockType::Observer { facing: facing_from_state(st), powered: str_contains(st, "\"powered\":\"true\"") })
    } else if str_eq(id, "minecraft:note_block") {
        Some(BlockType::NoteBlock)
    } else if str_eq(id, "minecraft:target") {
        Some(BlockType::TargetBlock { power: 0 })
    } else if str_eq(id, "minecraft:piston") {
        Some(BlockType::Piston { extended: str_contains(st, "\"extended\":\"true\""), facing: facing_from_state(st) })
    } else if str_eq(id, "minecraft:sticky_piston") {
        Some(BlockType::StickyPiston { extended: str_contains(st, "\"extended\":\"true\""), facing: facing_from_state(st) })
    } else {
        None
    }
}

fn container_block_from(id: &str, st: &str) -> (r: Option<BlockType>)
    ensures
        r == container_block_of(id@, st@),
{
    if str_eq(id, "minecraft:chest") {
        Some(BlockType::Chest)
    } else if str_eq(id, "minecraft:trapped_chest") {
        Some(BlockType::TrappedChest)
    } else if str_eq(id, "minecraft:ender_chest") {
        Some(BlockType::EnderChest)
    } else if str_eq(id, "minecraft:barrel") {
        Some(BlockType::Barrel)
    } else if str_eq(id, "minecraft:hopper") {
        Some(BlockType::Hopper { facing: facing_from_state(st), enabled: !str_contains(st, "\"enabled\":\"false\"") })
    } else if str_eq(id, "minecraft:dropper") {
        Some(BlockType::Dropper { facing: facing_from_state(st), triggered: str_contains(st, "\"triggered\":\"true\"") })
    } else if str_eq(id, "minecraft:dispenser") {
        Some(BlockType::Dispenser { facing: facing_from_state(st), triggered: str_contains(st, "\"triggered\":\"true\"") })
    } else if str_eq(id, "minecraft:furnace") {
        Some(BlockType::Furnace { lit: str_contains(st, "\"lit\":\"true\"") })
    } else if str_eq(id, "minecraft:blast_furnace") {
        Some(BlockType::BlastFurnace { lit: str_contains(st, "\"lit\":\"true\"") })
    } else if str_eq(id, "minecraft:smoker") {
        Some(BlockType::Smoker { lit: str_contains(st, "\"lit\":\"true\"") })
    } else if str_eq(id, "minecraft:brewing_stand") {
        Some(BlockType::BrewingStand)
    } else {
        match shulker_from_id(id) {
            Some(color) => Some(BlockType::ShulkerBox { color }),
            None => None,
        }
    }
}

fn utility_block_from(id: &str, st: &str) -> (r: Option<BlockType>)
    ensures
        r == utility_block_of(id@, st@),
{
    if str_eq(id, "minecraft:slime_block") {
        Some(BlockType::SlimeBlock)
    } else if str_eq(id, "minecraft:honey_block") {
        Some(BlockType::HoneyBlock)
    } else if str_eq(id, "minecraft:tnt") {
        Some(BlockType::Tnt { unstable: str_contains(st, "\"unstable\":\"true\"") })
    } else if str_eq(id, "minecraft:rail") {
        Some(BlockType::Rail)
    } else if str_eq(id, "minecraft:powered_rail") {
        Some(BlockType::PoweredRail { powered: str_contains(st, "\"powered\":\"true\"") })
    } else if str_eq(id, "minecraft:detector_rail") {
        Some(BlockType::DetectorRail { powered: str_contains(st, "\"powered\":\"true\"") })
    } else if str_eq(id, "minecraft:activator_rail") {
        Some(BlockType::ActivatorRail { powered: str_contains(st, "\"powered\":\"true\"") })
    } else if str_eq(id, "minecraft:iron_door") {
        Some(BlockType::IronDoor { open: str_contains(st, "\"open\":\"true\""), facing: facing_from_state(st), half: door_half(st) })
    } else if str_eq(id, "minecraft:oak_door") {
        Some(BlockType::WoodDoor { open: str_contains(st, "\"open\":\"true\""), facing: facing_from_state(st), half: door_half(st) })
    } else if str_eq(id, "minecraft:iron_trapdoor") {
        Some(BlockType::IronTrapdoor { open: str_contains(st, "\"open\":\"true\""), facing: facing_from_state(st), half: door_half(st) })
    } else if str_eq(id, "minecraft:oak_trapdoor") {
        Some(BlockType::WoodTrapdoor { open: str_contains(st, "\"open\":\"true\""), facing: facing_from_state(st), half: door_half(st) })
    } else if str_eq(id, "minecraft:oak_fence_gate") {
        Some(BlockType::FenceGate { open: str_contains(st, "\"open\":\"true\""), facing: facing_from_state(st) })
    } else if str_eq(id, "minecraft:oak_button") {
        Some(BlockType::WoodButton { pressed: str_contains(st, "\"powered\":\"true\""), facing: facing_from_state(st) })
    } else if str_eq(id, "minecraft:stone_pressure_plate") {
        Some(BlockType::StonePressurePlate { pressed: str_contains(st, "\"powered\":\"true\"") })
    } else if str_eq(id, "minecraft:oak_pressure_plate") {
        Some(BlockType::WoodPressurePlate { pressed: str_contains(st, "\"powered\":\"true\"") })
    } else if str_eq(id, "minecraft:light_weighted_pressure_plate") {
        Some(BlockType::LightWeightedPressurePlate { power: 0 })
    } else if str_eq(id, "minecraft:heavy_weighted_pressure_plate") {
        Some(BlockType::HeavyWeightedPressurePlate { power: 0 })
    } else if str_eq(id, "minecraft:glass") {
        Some(BlockType::Glass)
    } else if str_eq(id, PORT_INPUT) {
        Some(BlockType::Port(PortMode::Input))
    } else if str_eq(id, PORT_OUTPUT) {
        Some(BlockType::Port(PortMode::Output))
    } else if str_eq(id, PORT_BIDI) {
        Some(BlockType::Port(PortMode::Bidirectional))
    } else {
        None
    }
}

/// The simulator block for a saved block id and its JSON block state.
pub fn parse_block_type(block_id: &str, state_json: &str) -> (r: BlockType)
    ensures
        r == block_type_of(block_id@, state_json@),
{
    match redstone_block_from(block_id, state_json) {
        Some(b) => b,
        None => match container_block_from(block_id, state_json) {
            Some(b) => b,
            None => match utility_block_from(block_id, state_json) {
                Some(b) => b,
                None => BlockType::Solid,
            },
        },
    }
}

// ── Storage keys ──────────────────────────────────────────────────────────────

/// The storage key of a chip's circuit: `circuit/<chip id>`.
pub fn circuit_key(chip_id: &str) -> (r: String)
    ensures
        r@ == "circuit/"@ + chip_id@,
{
    let s = String::from_str("circuit/");
    s.concat(chip_id)
}


// ── Loading a circuit into the simulator ──────────────────────────────────────

/// Every block of `bs` lies in a world `w` wide and `h` high.
pub open spec fn blocks_in_world(bs: Seq<CircuitBlock>, w: u32, h: u32) -> bool {
    forall|i: int| 0 <= i < bs.len() ==> in_world(bs[i].x as int, bs[i].y as int, bs[i].z as int, w as int, h as int)
}

/// The cells and update queue after placing `bs` in order, each as
/// `RedstoneVM::set_block` places a block.
pub open spec fn placed(g: Seq<Cell>, q: Seq<Pos>, bs: Seq<CircuitBlock>, w: u32, h: u32) -> (Seq<Cell>, Seq<Pos>)
    decreases bs.len(),
{
    if bs.len() == 0 {
        (g, q)
    } else {
        let before = placed(g, q, bs.drop_last(), w, h);
        let b = bs.last();
        (
            before.0.update(
                cell_index(b.x as int, b.y as int, b.z as int, w as int),
                Cell::spec_new(block_type_of(b.block_id@, b.state_json@)),
            ),
            schedule_around(schedule(before.1, (b.x, b.y, b.z)), b.x, b.y, b.z, w, h),
        )
    }
}

/// The last block of `bs` that stands at (x, y, z).
pub open spec fn last_block_at(bs: Seq<CircuitBlock>, x: int, y: int, z: int) -> Option<CircuitBlock>
    decreases bs.len(),
{
    if bs.len() == 0 {
        None
    } else if bs.last().x == x && bs.last().y == y && bs.last().z == z {
        Some(bs.last())
    } else {
        last_block_at(bs.drop_last(), x, y, z)
    }
}

/// Place every block of `circuit` into the simulator, in order.
pub fn load_circuit_into_vm(vm: &mut RedstoneVM, circuit: &CircuitData)
    requires
        old(vm).wf(),
        blocks_in_world(circuit.blocks@, old(vm).width, old(vm).height),
    ensures
        final(vm).wf(),
        final(vm).same_header(old(vm)),
        (final(vm).cells(), final(vm).pending()) == placed(
            old(vm).cells(),
            old(vm).pending(),
            circuit.blocks@,
            old(vm).width,
            old(vm).height,
        ),
{
    let ghost g0 = vm.cells();
    let ghost q0 = vm.pending();
    let ghost w = vm.width;
    let ghost h = vm.height;
    let ghost vm0 = *vm;
    let n = circuit.blocks.len();
    let mut i: usize = 0;
    assert(circuit.blocks@.take(0).len() == 0);
    while i < n
        invariant
            i <= n,
            n == circuit.blocks@.len(),
            vm.wf(),
            vm.same_header(&vm0),
            w == vm.width,
            h == vm.height,
            blocks_in_world(circuit.blocks@, w, h),
            (vm.cells(), vm.pending()) == placed(g0, q0, circuit.blocks@.take(i as int), w, h),
        decreases n - i,
    {
        let b = &circuit.blocks[i];
        let t = parse_block_type(b.block_id.as_str(), b.state_json.as_str());
        vm.set_block(b.x, b.y, b.z, t);
        assert(circuit.blocks@.take(i + 1).drop_last() == circuit.blocks@.take(i as int));
        assert(circuit.blocks@.take(i + 1).last() == circuit.blocks@[i as int]);
        i += 1;
    }
    assert(circuit.blocks@.take(n as int) == circuit.blocks@);
}

/// After a circuit is placed, an in-world cell holds the block of the last
/// saved block standing there, and a cell no saved block names is unchanged.
pub proof fn lemma_placed_cell(
    g: Seq<Cell>,
    q: Seq<Pos>,
    bs: Seq<CircuitBlock>,
    w: u32,
    h: u32,
    x: int,
    y: int,
    z: int,
)
    requires
        g.len() == w * w * h,
        blocks_in_world(bs, w, h),
        in_world(x, y, z, w as int, h as int),
    ensures
        placed(g, q, bs, w, h).0.len() == g.len(),
        placed(g, q, bs, w, h).0[cell_index(x, y, z, w as int)] == match last_block_at(bs, x, y, z) {
            Some(b) => Cell::spec_new(block_type_of(b.block_id@, b.state_json@)),
            None => g[cell_index(x, y, z, w as int)],
        },
    decreases bs.len(),
{
    if bs.len() > 0 {
        let rest = bs.drop_last();
        assert(blocks_in_world(rest, w, h)) by {
            assert forall|i: int| 0 <= i < rest.len() implies in_world(
                rest[i].x as int,
                rest[i].y as int,
                rest[i].z as int,
                w as int,
                h as int,
            ) by {
                assert(rest[i] == bs[i]);
            }
        }
        lemma_placed_cell(g, q, rest, w, h, x, y, z);
        let b = bs.last();
        assert(b == bs[bs.len() - 1]);
        lemma_cell_index_bounds(b.x as int, b.y as int, b.z as int, w as int, h as int);
        lemma_cell_index_bounds(x, y, z, w as int, h as int);
        if cell_index(b.x as int, b.y as int, b.z as int, w as int) == cell_index(x, y, z, w as int) {
            lemma_cell_index_injective(b.x as int, b.y as int, b.z as int, x, y, z, w as int, h as int);
        }
    }
}

// ── Test chip ─────────────────────────────────────────────────────────────────

/// The blocks of the test circuit for a world `size` wide, in placing order.
pub open spec fn test_blocks_ok(bs: Seq<CircuitBlock>, size: u32) -> bool {
    &&& bs.len() == size + 1
    &&& bs[0].x == 0 && bs[0].y == 0 && bs[0].z == 0 && bs[0].block_id@ == "yog-vlsi:port"@
        && bs[0].state_json@ == "{\"mode\":\"input\"}"@
    &&& bs[1].x == size - 1 && bs[1].y == 0 && bs[1].z == 0 && bs[1].block_id@ == "yog-vlsi:port"@
        && bs[1].state_json@ == "{\"mode\":\"output\"}"@
    &&& bs[2].x == 1 && bs[2].y == 0 && bs[2].z == 0 && bs[2].block_id@ == "minecraft:redstone_block"@
        && bs[2].state_json@ == "{}"@
    &&& forall|i: int|
        3 <= i < size ==> bs[i].x == i - 1 && bs[i].y == 0 && bs[i].z == 0 && bs[i].block_id@
            == "minecraft:redstone_wire"@ && bs[i].state_json@ == "{}"@
    &&& bs[size as int].x == size - 2 && bs[size as int].y == 0 && bs[size as int].z == 0
        && bs[size as int].block_id@ == "minecraft:redstone_lamp"@ && bs[size as int].state_json@
        == "{\"lit\":\"false\"}"@
}

fn block_at(x: u32, block_id: &str, state_json: &str) -> (b: CircuitBlock)
    ensures
        b.x == x,
        b.y == 0,
        b.z == 0,
        b.block_id@ == block_id@,
        b.state_json@ == state_json@,
{
    CircuitBlock { x, y: 0, z: 0, block_id: String::from_str(block_id), state_json: String::from_str(state_json) }
}

/// The test chip for `tier`, under a new random id: an input port, then a
/// redstone block, a line of wire ending in a lamp, and an output port
/// along the first row; `IN` on the west edge, `OUT` on the east. The
/// circuit is what the application saves under the chip's id.
pub fn create_test_chip(tier: Tier) -> (r: (ChipMeta, CircuitData))
    ensures
        uuid_v4_text(r.0.id@),
        r.0.tier == tier,
        r.0.name@ == "Test "@ + tier.spec_name(),
        r.0.ports@.len() == 2,
        r.0.ports@[0].label@ == "IN"@ && r.0.ports@[0].side == PortSide::West && r.0.ports@[0].index == 0
            && r.0.ports@[0].dir == PortDir::Input,
        r.0.ports@[1].label@ == "OUT"@ && r.0.ports@[1].side == PortSide::East && r.0.ports@[1].index == 0
            && r.0.ports@[1].dir == PortDir::Output,
        r.1.chip_id@ == r.0.id@,
        r.1.width == tier.spec_world_size(),
        r.1.height == tier.spec_world_size(),
        test_blocks_ok(r.1.blocks@, tier.spec_world_size()),
        r.1.ports@.len() == 2,
        r.1.ports@[0].label@ == "IN"@ && r.1.ports@[0].side == PortSide::West && r.1.ports@[0].index == 0
            && r.1.ports@[0].dir == PortDir::Input,
        r.1.ports@[1].label@ == "OUT"@ && r.1.ports@[1].side == PortSide::East && r.1.ports@[1].index == 0
            && r.1.ports@[1].dir == PortDir::Output,
{
    let chip_id = new_chip_id();
    let size = tier.world_size();
    proof {
        crate::vm::lemma_world_size_bounds(tier);
    }
    let mut blocks: Vec<CircuitBlock> = Vec::new();
    blocks.push(block_at(0, "yog-vlsi:port", "{\"mode\":\"input\"}"));
    blocks.push(block_at(size - 1, "yog-vlsi:port", "{\"mode\":\"output\"}"));
    blocks.push(block_at(1, "minecraft:redstone_block", "{}"));
    let mut x: u32 = 2;
    while x < size - 1
        invariant
            2 <= x <= size - 1,
            16 <= size <= 256,
            blocks@.len() == x + 1,
            blocks@[0].x == 0 && blocks@[0].y == 0 && blocks@[0].z == 0 && blocks@[0].block_id@
                == "yog-vlsi:port"@ && blocks@[0].state_json@ == "{\"mode\":\"input\"}"@,
            blocks@[1].x == size - 1 && blocks@[1].y == 0 && blocks@[1].z == 0 && blocks@[1].block_id@
                == "yog-vlsi:port"@ && blocks@[1].state_json@ == "{\"mode\":\"output\"}"@,
            blocks@[2].x == 1 && blocks@[2].y == 0 && blocks@[2].z == 0 && blocks@[2].block_id@
                == "minecraft:redstone_block"@ && blocks@[2].state_json@ == "{}"@,
            forall|i: int|
                3 <= i < x + 1 ==> blocks@[i].x == i - 1 && blocks@[i].y == 0 && blocks@[i].z == 0
                    && blocks@[i].block_id@ == "minecraft:redstone_wire"@ && blocks@[i].state_json@ == "{}"@,
        decreases size - 1 - x,
    {
        blocks.push(block_at(x, "minecraft:redstone_wire", "{}"));
        x += 1;
    }
    blocks.push(block_at(size - 2, "minecraft:redstone_lamp", "{\"lit\":\"false\"}"));
    let mut ports: Vec<Port> = Vec::new();
    ports.push(Port { label: String::from_str("IN"), side: PortSide::West, index: 0, dir: PortDir::Input });
    ports.push(Port { label: String::from_str("OUT"), side: PortSide::East, index: 0, dir: PortDir::Output });
    let mut meta_ports: Vec<Port> = Vec::new();
    meta_ports.push(Port { label: String::from_str("IN"), side: PortSide::West, index: 0, dir: PortDir::Input });
    meta_ports.push(Port { label: String::from_str("OUT"), side: PortSide::East, index: 0, dir: PortDir::Output });
    let name = String::from_str("Test ").concat(tier.name());
    let id2 = chip_id.clone();
    let circuit = CircuitData { chip_id: id2, width: size, height: size, blocks, ports };
    let meta = ChipMeta { id: chip_id, tier, name, ports: meta_ports };
    (meta, circuit)
}

// ── Fabrication cost ──────────────────────────────────────────────────────────

/// A list of (item, count) pairs seen as texts and counts.
pub open spec fn cost_view(v: Seq<(String, u64)>) -> Seq<(Seq<char>, u64)> {
    v.map_values(|e: (String, u64)| (e.0@, e.1))
}

/// No item is listed twice.
pub open spec fn keys_distinct(s: Seq<(Seq<char>, u64)>) -> bool {
    forall|a: int, b: int| 0 <= a < b < s.len() ==> s[a].0 != s[b].0
}

/// How many of `item` a list of (item, count) pairs holds, over all its entries.
pub open spec fn count_of(s: Seq<(Seq<char>, u64)>, item: Seq<char>) -> nat
    decreases s.len(),
{
    if s.len() == 0 {
        0
    } else {
        count_of(s.drop_last(), item) + if s.last().0 == item {
            s.last().1 as nat
        } else {
            0
        }
    }
}

/// Recipes of the redstone blocks; `None` for a block this table does not list.
pub open spec fn redstone_recipe(id: Seq<char>) -> Option<Seq<(Seq<char>, u64)>> {
    if id == "minecraft:redstone_wire"@ {
        Some(seq![("minecraft:redstone"@, 1u64)])
    } else if id == "minecraft:redstone_torch"@ || id == "minecraft:redstone_wall_torch"@ {
        Some(seq![("minecraft:redstone"@, 1u64), ("minecraft:stick"@, 1u64)])
    } else if id == "minecraft:repeater"@ {
        Some(seq![("minecraft:redstone"@, 3u64), ("minecraft:stick"@, 2u64), ("minecraft:stone"@, 3u64)])
    } else if id == "minecraft:comparator"@ {
        Some(seq![("minecraft:redstone"@, 3u64), ("minecraft:quartz"@, 1u64), ("minecraft:stone"@, 3u64)])
    } else if id == "minecraft:redstone_lamp"@ {
        Some(seq![("minecraft:redstone"@, 4u64), ("minecraft:glowstone_dust"@, 1u64)])
    } else if id == "minecraft:redstone_block"@ {
        Some(seq![("minecraft:redstone"@, 9u64)])
    } else if id == "minecraft:lever"@ {
        Some(seq![("minecraft:stick"@, 1u64), ("minecraft:cobblestone"@, 1u64)])
    } else if id == "minecraft:stone_button"@ {
        Some(seq![("minecraft:stone"@, 1u64)])
    } else if id == "minecraft:observer"@ {
        Some(seq![("minecraft:cobblestone"@, 6u64), ("minecraft:redstone"@, 2u64), ("minecraft:quartz"@, 1u64)])
    } else if id == "minecraft:note_block"@ {
        Some(seq![("minecraft:oak_planks"@, 8u64), ("minecraft:redstone"@, 1u64)])
    } else if id == "minecraft:target"@ {
        Some(seq![("minecraft:redstone"@, 4u64), ("minecraft:hay_block"@, 1u64)])
    } else if id == "minecraft:piston"@ {
        Some(seq![("minecraft:oak_planks"@, 3u64), ("minecraft:cobblestone"@, 4u64), ("minecraft:iron_ingot"@, 1u64), ("minecraft:redstone"@, 1u64)])
    } else if id == "minecraft:sticky_piston"@ {
        Some(seq![("minecraft:slime_ball"@, 1u64), ("minecraft:piston"@, 1u64)])
    } else {
        None
    }
}

fn redstone_cost(id: &str) -> (r: Option<Vec<(String, u64)>>)
    ensures
        match redstone_recipe(id@) {
            Some(rec) => r is Some && cost_view(r->0@) == rec,
            None => r is None,
        },
{
    if str_eq(id, "minecraft:redstone_wire") {
        let v = vec![cost_entry("minecraft:redstone", 1)];
        assert(cost_view(v@) =~= seq![("minecraft:redstone"@, 1u64)]);
        Some(v)
    } else if str_eq(id, "minecraft:redstone_torch") || str_eq(id, "minecraft:redstone_wall_torch") {
        let v = vec![cost_entry("minecraft:redstone", 1), cost_entry("minecraft:stick", 1)];
        assert(cost_view(v@) =~= seq![("minecraft:redstone"@, 1u64), ("minecraft:stick"@, 1u64)]);
        Some(v)
    } else if str_eq(id, "minecraft:repeater") {
        let v = vec![cost_entry("minecraft:redstone", 3), cost_entry("minecraft:stick", 2), cost_entry("minecraft:stone", 3)];
        assert(cost_view(v@) =~= seq![("minecraft:redstone"@, 3u64), ("minecraft:stick"@, 2u64), ("minecraft:stone"@, 3u64)]);
        Some(v)
    } else if str_eq(id, "minecraft:comparator") {
        let v = vec![cost_entry("minecraft:redstone", 3), cost_entry("minecraft:quartz", 1), cost_entry("minecraft:stone", 3)];
        assert(cost_view(v@) =~= seq![("minecraft:redstone"@, 3u64), ("minecraft:quartz"@, 1u64), ("minecraft:stone"@, 3u64)]);
        Some(v)
    } else if str_eq(id, "minecraft:redstone_lamp") {
        let v = vec![cost_entry("minecraft:redstone", 4), cost_entry("minecraft:glowstone_dust", 1)];
        assert(cost_view(v@) =~= seq![("minecraft:redstone"@, 4u64), ("minecraft:glowstone_dust"@, 1u64)]);
        Some(v)
    } else if str_eq(id, "minecraft:redstone_block") {
        let v = vec![cost_entry("minecraft:redstone", 9)];
        assert(cost_view(v@) =~= seq![("minecraft:redstone"@, 9u64)]);
        Some(v)
    } else if str_eq(id, "minecraft:lever") {
        let v = vec![cost_entry("minecraft:stick", 1), cost_entry("minecraft:cobblestone", 1)];
        assert(cost_view(v@) =~= seq![("minecraft:stick"@, 1u64), ("minecraft:cobblestone"@, 1u64)]);
        Some(v)
    } else if str_eq(id, "minecraft:stone_button") {
        let v = vec![cost_entry("minecraft:stone", 1)];
        assert(cost_view(v@) =~= seq![("minecraft:stone"@, 1u64)]);
        Some(v)
    } else if str_eq(id, "minecraft:observer") {
        let v = vec![cost_entry("minecraft:cobblestone", 6), cost_entry("minecraft:redstone", 2), cost_entry("minecraft:quartz", 1)];
        assert(cost_view(v@) =~= seq![("minecraft:cobblestone"@, 6u64), ("minecraft:redstone"@, 2u64), ("minecraft:quartz"@, 1u64)]);
        Some(v)
    } else if str_eq(id, "minecraft:note_block") {
        let v = vec![cost_entry("minecraft:oak_planks", 8), cost_entry("minecraft:redstone", 1)];
        assert(cost_view(v@) =~= seq![("minecraft:oak_planks"@, 8u64), ("minecraft:redstone"@, 1u64)]);
        Some(v)
    } else if str_eq(id, "minecraft:target") {
        let v = vec![cost_entry("minecraft:redstone", 4), cost_entry("minecraft:hay_block", 1)];
        assert(cost_view(v@) =~= seq![("minecraft:redstone"@, 4u64), ("minecraft:hay_block"@, 1u64)]);
        Some(v)
    } else if str_eq(id, "minecraft:piston") {
        let v = vec![cost_entry("minecraft:oak_planks", 3), cost_entry("minecraft:cobblestone", 4), cost_entry("minecraft:iron_ingot", 1), cost_entry("minecraft:redstone", 1)];
        assert(cost_view(v@) =~= seq![("minecraft:oak_planks"@, 3u64), ("minecraft:cobblestone"@, 4u64), ("minecraft:iron_ingot"@, 1u64), ("minecraft:redstone"@, 1u64)]);
        Some(v)
    } else if str_eq(id, "minecraft:sticky_piston") {
        let v = vec![cost_entry("minecraft:slime_ball", 1), cost_entry("minecraft:piston", 1)];
        assert(cost_view(v@) =~= seq![("minecraft:slime_ball"@, 1u64), ("minecraft:piston"@, 1u64)]);
        Some(v)
    } else {
        None
    }
}

/// Recipes of the container blocks; `None` for a block this table does not list.
pub open spec fn container_recipe(id: Seq<char>) -> Option<Seq<(Seq<char>, u64)>> {
    if id == "minecraft:chest"@ || id == "minecraft:barrel"@ {
        Some(seq![("minecraft:oak_planks"@, 8u64)])
    } else if id == "minecraft:trapped_chest"@ {
        Some(seq![("minecraft:oak_planks"@, 8u64), ("minecraft:tripwire_hook"@, 1u64)])
    } else if id == "minecraft:ender_chest"@ {
        Some(seq![("minecraft:obsidian"@, 8u64), ("minecraft:ender_eye"@, 1u64)])
    } else if id == "minecraft:hopper"@ {
        Some(seq![("minecraft:iron_ingot"@, 5u64), ("minecraft:chest"@, 1u64)])
    } else if id == "minecraft:dropper"@ {
        Some(seq![("minecraft:cobblestone"@, 7u64), ("minecraft:redstone"@, 1u64)])
    } else if id == "minecraft:dispenser"@ {
        Some(seq![("minecraft:cobblestone"@, 7u64), ("minecraft:redstone"@, 1u64), ("minecraft:bow"@, 1u64)])
    } else if id == "minecraft:furnace"@ {
        Some(seq![("minecraft:cobblestone"@, 8u64)])
    } else if id == "minecraft:blast_furnace"@ {
        Some(seq![("minecraft:smooth_stone"@, 3u64), ("minecraft:furnace"@, 1u64), ("minecraft:iron_ingot"@, 5u64)])
    } else if id == "minecraft:smoker"@ {
        Some(seq![("minecraft:oak_log"@, 4u64), ("minecraft:furnace"@, 1u64)])
    } else if id == "minecraft:brewing_stand"@ {
        Some(seq![("minecraft:blaze_rod"@, 1u64), ("minecraft:cobblestone"@, 3u64)])
    } else if id == "minecraft:slime_block"@ {
        Some(seq![("minecraft:slime_ball"@, 9u64)])
    } else if id == "minecraft:honey_block"@ {
        Some(seq![("minecraft:honey_bottle"@, 4u64)])
    } else if id == "minecraft:tnt"@ {
        Some(seq![("minecraft:sand"@, 4u64), ("minecraft:gunpowder"@, 5u64)])
    } else {
        None
    }
}

fn container_cost(id: &str) -> (r: Option<Vec<(String, u64)>>)
    ensures
        match container_recipe(id@) {
            Some(rec) => r is Some && cost_view(r->0@) == rec,
            None => r is None,
        },
{
    if str_eq(id, "minecraft:chest") || str_eq(id, "minecraft:barrel") {
        let v = vec![cost_entry("minecraft:oak_planks", 8)];
        assert(cost_view(v@) =~= seq![("minecraft:oak_planks"@, 8u64)]);
        Some(v)
    } else if str_eq(id, "minecraft:trapped_chest") {
        let v = vec![cost_entry("minecraft:oak_planks", 8), cost_entry("minecraft:tripwire_hook", 1)];
        assert(cost_view(v@) =~= seq![("minecraft:oak_planks"@, 8u64), ("minecraft:tripwire_hook"@, 1u64)]);
        Some(v)
    } else if str_eq(id, "minecraft:ender_chest") {
        let v = vec![cost_entry("minecraft:obsidian", 8), cost_entry("minecraft:ender_eye", 1)];
        assert(cost_view(v@) =~= seq![("minecraft:obsidian"@, 8u64), ("minecraft:ender_eye"@, 1u64)]);
        Some(v)
    } else if str_eq(id, "minecraft:hopper") {
        let v = vec![cost_entry("minecraft:iron_ingot", 5), cost_entry("minecraft:chest", 1)];
        assert(cost_view(v@) =~= seq![("minecraft:iron_ingot"@, 5u64), ("minecraft:chest"@, 1u64)]);
        Some(v)
    } else if str_eq(id, "minecraft:dropper") {
        let v = vec![cost_entry("minecraft:cobblestone", 7), cost_entry("minecraft:redstone", 1)];
        assert(cost_view(v@) =~= seq![("minecraft:cobblestone"@, 7u64), ("minecraft:redstone"@, 1u64)]);
        Some(v)
    } else if str_eq(id, "minecraft:dispenser") {
        let v = vec![cost_entry("minecraft:cobblestone", 7), cost_entry("minecraft:redstone", 1), cost_entry("minecraft:bow", 1)];
        assert(cost_view(v@) =~= seq![("minecraft:cobblestone"@, 7u64), ("minecraft:redstone"@, 1u64), ("minecraft:bow"@, 1u64)]);
        Some(v)
    } else if str_eq(id, "minecraft:furnace") {
        let v = vec![cost_entry("minecraft:cobblestone", 8)];
        assert(cost_view(v@) =~= seq![("minecraft:cobblestone"@, 8u64)]);
        Some(v)
    } else if str_eq(id, "minecraft:blast_furnace") {
        let v = vec![cost_entry("minecraft:smooth_stone", 3), cost_entry("minecraft:furnace", 1), cost_entry("minecraft:iron_ingot", 5)];
        assert(cost_view(v@) =~= seq![("minecraft:smooth_stone"@, 3u64), ("minecraft:furnace"@, 1u64), ("minecraft:iron_ingot"@, 5u64)]);
        Some(v)
    } else if str_eq(id, "minecraft:smoker") {
        let v = vec![cost_entry("minecraft:oak_log", 4), cost_entry("minecraft:furnace", 1)];
        assert(cost_view(v@) =~= seq![("minecraft:oak_log"@, 4u64), ("minecraft:furnace"@, 1u64)]);
        Some(v)
    } else if str_eq(id, "minecraft:brewing_stand") {
        let v = vec![cost_entry("minecraft:blaze_rod", 1), cost_entry("minecraft:cobblestone", 3)];
        assert(cost_view(v@) =~= seq![("minecraft:blaze_rod"@, 1u64), ("minecraft:cobblestone"@, 3u64)]);
        Some(v)
    } else if str_eq(id, "minecraft:slime_block") {
        let v = vec![cost_entry("minecraft:slime_ball", 9)];
        assert(cost_view(v@) =~= seq![("minecraft:slime_ball"@, 9u64)]);
        Some(v)
    } else if str_eq(id, "minecraft:honey_block") {
        let v = vec![cost_entry("minecraft:honey_bottle", 4)];
        assert(cost_view(v@) =~= seq![("minecraft:honey_bottle"@, 4u64)]);
        Some(v)
    } else if str_eq(id, "minecraft:tnt") {
        let v = vec![cost_entry("minecraft:sand", 4), cost_entry("minecraft:gunpowder", 5)];
        assert(cost_view(v@) =~= seq![("minecraft:sand"@, 4u64), ("minecraft:gunpowder"@, 5u64)]);
        Some(v)
    } else {
        None
    }
}

/// Recipes of the other blocks; `None` for a block this table does not list.
pub open spec fn other_recipe(id: Seq<char>) -> Option<Seq<(Seq<char>, u64)>> {
    if id == "minecraft:rail"@ {
        Some(seq![("minecraft:iron_ingot"@, 6u64), ("minecraft:stick"@, 1u64)])
    } else if id == "minecraft:powered_rail"@ {
        Some(seq![("minecraft:gold_ingot"@, 6u64), ("minecraft:stick"@, 1u64), ("minecraft:redstone"@, 1u64)])
    } else if id == "minecraft:detector_rail"@ {
        Some(seq![("minecraft:iron_ingot"@, 6u64), ("minecraft:stone_pressure_plate"@, 1u64), ("minecraft:redstone"@, 1u64)])
    } else if id == "minecraft:activator_rail"@ {
        Some(seq![("minecraft:iron_ingot"@, 6u64), ("minecraft:stick"@, 2u64), ("minecraft:redstone_torch"@, 1u64)])
    } else if id == "minecraft:iron_door"@ {
        Some(seq![("minecraft:iron_ingot"@, 6u64)])
    } else if id == "minecraft:iron_trapdoor"@ {
        Some(seq![("minecraft:iron_ingot"@, 4u64)])
    } else if id == "minecraft:glass"@ {
        Some(seq![("minecraft:sand"@, 1u64)])
    } else if id == "minecraft:glowstone"@ {
        Some(seq![("minecraft:glowstone_dust"@, 4u64)])
    } else if id == "minecraft:sea_lantern"@ {
        Some(seq![("minecraft:prismarine_shard"@, 4u64), ("minecraft:prismarine_crystals"@, 5u64)])
    } else if id == "yog-vlsi:port"@ {
        Some(seq![("minecraft:redstone"@, 2u64), ("minecraft:stone"@, 4u64)])
    } else if id == "yog-vlsi:vlsi_workbench"@ {
        Some(seq![("minecraft:iron_ingot"@, 4u64), ("minecraft:smooth_stone"@, 3u64), ("minecraft:redstone_block"@, 1u64)])
    } else if id == "yog-vlsi:alu"@ {
        Some(seq![("minecraft:gold_ingot"@, 4u64), ("minecraft:copper_ingot"@, 2u64), ("minecraft:repeater"@, 1u64), ("minecraft:diamond"@, 1u64)])
    } else if id == "yog-vlsi:analog_cable"@ {
        Some(seq![("minecraft:redstone"@, 1u64)])
    } else if id == "yog-vlsi:digital_cable"@ {
        Some(seq![("minecraft:gold_nugget"@, 4u64), ("minecraft:redstone"@, 4u64), ("minecraft:iron_ingot"@, 1u64)])
    } else if id == "yog-vlsi:redstone_port"@ {
        Some(seq![("minecraft:smooth_stone"@, 8u64), ("minecraft:redstone"@, 1u64)])
    } else {
        None
    }
}

fn other_cost(id: &str) -> (r: Option<Vec<(String, u64)>>)
    ensures
        match other_recipe(id@) {
            Some(rec) => r is Some && cost_view(r->0@) == rec,
            None => r is None,
        },
{
    if str_eq(id, "minecraft:rail") {
        let v = vec![cost_entry("minecraft:iron_ingot", 6), cost_entry("minecraft:stick", 1)];
        assert(cost_view(v@) =~= seq![("minecraft:iron_ingot"@, 6u64), ("minecraft:stick"@, 1u64)]);
        Some(v)
    } else if str_eq(id, "minecraft:powered_rail") {
        let v = vec![cost_entry("minecraft:gold_ingot", 6), cost_entry("minecraft:stick", 1), cost_entry("minecraft:redstone", 1)];
        assert(cost_view(v@) =~= seq![("minecraft:gold_ingot"@, 6u64), ("minecraft:stick"@, 1u64), ("minecraft:redstone"@, 1u64)]);
        Some(v)
    } else if str_eq(id, "minecraft:detector_rail") {
        let v = vec![cost_entry("minecraft:iron_ingot", 6), cost_entry("minecraft:stone_pressure_plate", 1), cost_entry("minecraft:redstone", 1)];
        assert(cost_view(v@) =~= seq![("minecraft:iron_ingot"@, 6u64), ("minecraft:stone_pressure_plate"@, 1u64), ("minecraft:redstone"@, 1u64)]);
        Some(v)
    } else if str_eq(id, "minecraft:activator_rail") {
        let v = vec![cost_entry("minecraft:iron_ingot", 6), cost_entry("minecraft:stick", 2), cost_entry("minecraft:redstone_torch", 1)];
        assert(cost_view(v@) =~= seq![("minecraft:iron_ingot"@, 6u64), ("minecraft:stick"@, 2u64), ("minecraft:redstone_torch"@, 1u64)]);
        Some(v)
    } else if str_eq(id, "minecraft:iron_door") {
        let v = vec![cost_entry("minecraft:iron_ingot", 6)];
        assert(cost_view(v@) =~= seq![("minecraft:iron_ingot"@, 6u64)]);
        Some(v)
    } else if str_eq(id, "minecraft:iron_trapdoor") {
        let v = vec![cost_entry("minecraft:iron_ingot", 4)];
        assert(cost_view(v@) =~= seq![("minecraft:iron_ingot"@, 4u64)]);
        Some(v)
    } else if str_eq(id, "minecraft:glass") {
        let v = vec![cost_entry("minecraft:sand", 1)];
        assert(cost_view(v@) =~= seq![("minecraft:sand"@, 1u64)]);
        Some(v)
    } else if str_eq(id, "minecraft:glowstone") {
        let v = vec![cost_entry("minecraft:glowstone_dust", 4)];
        assert(cost_view(v@) =~= seq![("minecraft:glowstone_dust"@, 4u64)]);
        Some(v)
    } else if str_eq(id, "minecraft:sea_lantern") {
        let v = vec![cost_entry("minecraft:prismarine_shard", 4), cost_entry("minecraft:prismarine_crystals", 5)];
        assert(cost_view(v@) =~= seq![("minecraft:prismarine_shard"@, 4u64), ("minecraft:prismarine_crystals"@, 5u64)]);
        Some(v)
    } else if str_eq(id, "yog-vlsi:port") {
        let v = vec![cost_entry("minecraft:redstone", 2), cost_entry("minecraft:stone", 4)];
        assert(cost_view(v@) =~= seq![("minecraft:redstone"@, 2u64), ("minecraft:stone"@, 4u64)]);
        Some(v)
    } else if str_eq(id, "yog-vlsi:vlsi_workbench") {
        let v = vec![cost_entry("minecraft:iron_ingot", 4), cost_entry("minecraft:smooth_stone", 3), cost_entry("minecraft:redstone_block", 1)];
        assert(cost_view(v@) =~= seq![("minecraft:iron_ingot"@, 4u64), ("minecraft:smooth_stone"@, 3u64), ("minecraft:redstone_block"@, 1u64)]);
        Some(v)
    } else if str_eq(id, "yog-vlsi:alu") {
        let v = vec![cost_entry("minecraft:gold_ingot", 4), cost_entry("minecraft:copper_ingot", 2), cost_entry("minecraft:repeater", 1), cost_entry("minecraft:diamond", 1)];
        assert(cost_view(v@) =~= seq![("minecraft:gold_ingot"@, 4u64), ("minecraft:copper_ingot"@, 2u64), ("minecraft:repeater"@, 1u64), ("minecraft:diamond"@, 1u64)]);
        Some(v)
    } else if str_eq(id, "yog-vlsi:analog_cable") {
        let v = vec![cost_entry("minecraft:redstone", 1)];
        assert(cost_view(v@) =~= seq![("minecraft:redstone"@, 1u64)]);
        Some(v)
    } else if str_eq(id, "yog-vlsi:digital_cable") {
        let v = vec![cost_entry("minecraft:gold_nugget", 4), cost_entry("minecraft:redstone", 4), cost_entry("minecraft:iron_ingot", 1)];
        assert(cost_view(v@) =~= seq![("minecraft:gold_nugget"@, 4u64), ("minecraft:redstone"@, 4u64), ("minecraft:iron_ingot"@, 1u64)]);
        Some(v)
    } else if str_eq(id, "yog-vlsi:redstone_port") {
        let v = vec![cost_entry("minecraft:smooth_stone", 8), cost_entry("minecraft:redstone", 1)];
        assert(cost_view(v@) =~= seq![("minecraft:smooth_stone"@, 8u64), ("minecraft:redstone"@, 1u64)]);
        Some(v)
    } else {
        None
    }
}

/// The vanilla recipe of a block, as (item, count) pairs; one stone for a
/// block no table lists.
pub open spec fn recipe_of(id: Seq<char>) -> Seq<(Seq<char>, u64)> {
    match redstone_recipe(id) {
        Some(r) => r,
        None => match container_recipe(id) {
            Some(r) => r,
            None => match other_recipe(id) {
                Some(r) => r,
                None => seq![("minecraft:stone"@, 1u64)],
            },
        },
    }
}

/// How many of `item` the recipes of all of `bs` add up to.
pub open spec fn items_needed(bs: Seq<CircuitBlock>, item: Seq<char>) -> nat
    decreases bs.len(),
{
    if bs.len() == 0 {
        0
    } else {
        items_needed(bs.drop_last(), item) + count_of(recipe_of(bs.last().block_id@), item)
    }
}

/// A quarter of `n`, rounded up.
pub open spec fn quarter_up(n: nat) -> nat {
    (n + 3) / 4
}

/// Every recipe lists at most four entries of one to nine items each.
pub open spec fn recipe_small(rec: Seq<(Seq<char>, u64)>) -> bool {
    rec.len() <= 4 && forall|i: int| 0 <= i < rec.len() ==> 1 <= #[trigger] rec[i].1 <= 9
}

proof fn lemma_recipe_small(id: Seq<char>)
    ensures
        recipe_small(recipe_of(id)),
{
}

proof fn lemma_count_small(rec: Seq<(Seq<char>, u64)>, item: Seq<char>)
    requires
        forall|i: int| 0 <= i < rec.len() ==> 1 <= #[trigger] rec[i].1 <= 9,
    ensures
        count_of(rec, item) <= 9 * rec.len(),
    decreases rec.len(),
{
    if rec.len() > 0 {
        let r = rec.drop_last();
        assert forall|i: int| 0 <= i < r.len() implies 1 <= #[trigger] r[i].1 <= 9 by {
            assert(r[i] == rec[i]);
        }
        lemma_count_small(r, item);
        assert(rec.last() == rec[rec.len() - 1]);
    }
}

proof fn lemma_needed_bound(bs: Seq<CircuitBlock>, item: Seq<char>)
    ensures
        items_needed(bs, item) <= 36 * bs.len(),
    decreases bs.len(),
{
    if bs.len() > 0 {
        lemma_needed_bound(bs.drop_last(), item);
        lemma_recipe_small(bs.last().block_id@);
        lemma_count_small(recipe_of(bs.last().block_id@), item);
    }
}

proof fn lemma_count_take_le(s: Seq<(Seq<char>, u64)>, j: int, item: Seq<char>)
    requires
        0 <= j <= s.len(),
    ensures
        count_of(s.take(j), item) <= count_of(s, item),
    decreases s.len(),
{
    if j < s.len() {
        lemma_count_take_le(s.drop_last(), j, item);
        assert(s.drop_last().take(j) == s.take(j));
    } else {
        assert(s.take(j) == s);
    }
}

proof fn lemma_count_take_step(s: Seq<(Seq<char>, u64)>, j: int, item: Seq<char>)
    requires
        0 <= j < s.len(),
    ensures
        count_of(s.take(j + 1), item) == count_of(s.take(j), item) + if s[j].0 == item {
            s[j].1 as nat
        } else {
            0
        },
{
    assert(s.take(j + 1).drop_last() == s.take(j));
}

proof fn lemma_count_update(s: Seq<(Seq<char>, u64)>, k: int, q: u64, item: Seq<char>)
    requires
        0 <= k < s.len(),
        s[k].1 + q <= u64::MAX,
    ensures
        count_of(s.update(k, (s[k].0, (s[k].1 + q) as u64)), item) == count_of(s, item) + if s[k].0
            == item {
            q as nat
        } else {
            0
        },
    decreases s.len(),
{
    let t = s.update(k, (s[k].0, (s[k].1 + q) as u64));
    if k == s.len() - 1 {
        assert(t.drop_last() == s.drop_last());
    } else {
        lemma_count_update(s.drop_last(), k, q, item);
        assert(t.drop_last() == s.drop_last().update(k, (s[k].0, (s[k].1 + q) as u64)));
    }
}

proof fn lemma_count_set(s: Seq<(Seq<char>, u64)>, k: int, v: u64, item: Seq<char>)
    requires
        0 <= k < s.len(),
    ensures
        count_of(s.update(k, (s[k].0, v)), item) + (if s[k].0 == item {
            s[k].1 as nat
        } else {
            0
        }) == count_of(s, item) + if s[k].0 == item {
            v as nat
        } else {
            0
        },
    decreases s.len(),
{
    let t = s.update(k, (s[k].0, v));
    if k == s.len() - 1 {
        assert(t.drop_last() == s.drop_last());
    } else {
        lemma_count_set(s.drop_last(), k, v, item);
        assert(t.drop_last() == s.drop_last().update(k, (s[k].0, v)));
    }
}

proof fn lemma_count_absent(s: Seq<(Seq<char>, u64)>, item: Seq<char>)
    requires
        forall|k: int| 0 <= k < s.len() ==> s[k].0 != item,
    ensures
        count_of(s, item) == 0,
    decreases s.len(),
{
    if s.len() > 0 {
        lemma_count_absent(s.drop_last(), item);
    }
}

proof fn lemma_count_distinct(s: Seq<(Seq<char>, u64)>, k: int)
    requires
        keys_distinct(s),
        0 <= k < s.len(),
    ensures
        count_of(s, s[k].0) == s[k].1,
    decreases s.len(),
{
    if k == s.len() - 1 {
        lemma_count_absent(s.drop_last(), s[k].0);
    } else {
        lemma_count_distinct(s.drop_last(), k);
    }
}

proof fn lemma_count_positive(s: Seq<(Seq<char>, u64)>, item: Seq<char>)
    requires
        count_of(s, item) > 0,
    ensures
        exists|k: int| 0 <= k < s.len() && s[k].0 == item,
    decreases s.len(),
{
    if s.last().0 != item {
        lemma_count_positive(s.drop_last(), item);
        let k = choose|k: int| 0 <= k < s.drop_last().len() && s.drop_last()[k].0 == item;
        assert(s[k].0 == item);
    } else {
        assert(s[s.len() - 1].0 == item);
    }
}

fn cost_entry(item: &str, q: u64) -> (e: (String, u64))
    ensures
        e.0@ == item@,
        e.1 == q,
{
    (String::from_str(item), q)
}

/// The vanilla recipe of a block.
fn block_cost(block: &CircuitBlock) -> (r: Vec<(String, u64)>)
    ensures
        cost_view(r@) == recipe_of(block.block_id@),
{
    let id = block.block_id.as_str();
    match redstone_cost(id) {
        Some(v) => v,
        None => match container_cost(id) {
            Some(v) => v,
            None => match other_cost(id) {
                Some(v) => v,
                None => {
                    let v = vec![cost_entry("minecraft:stone", 1)];
                    assert(cost_view(v@) =~= seq![("minecraft:stone"@, 1u64)]);
                    v
                },
            },
        },
    }
}

/// Add `q` of `item` to a list of (item, count) pairs with distinct items.
fn add_count(acc: &mut Vec<(String, u64)>, item: &String, q: u64)
    requires
        keys_distinct(cost_view(old(acc)@)),
        count_of(cost_view(old(acc)@), item@) + q <= u64::MAX,
        q > 0,
        forall|k: int| 0 <= k < old(acc)@.len() ==> #[trigger] old(acc)@[k].1 > 0,
    ensures
        keys_distinct(cost_view(final(acc)@)),
        forall|k: int| 0 <= k < final(acc)@.len() ==> #[trigger] final(acc)@[k].1 > 0,
        forall|it: Seq<char>|
            #[trigger] count_of(cost_view(final(acc)@), it) == count_of(cost_view(old(acc)@), it) + if it
                == item@ {
                q as nat
            } else {
                0
            },
{
    let ghost v0 = cost_view(acc@);
    let n = acc.len();
    let mut k: usize = 0;
    while k < n
        invariant
            k <= n,
            n == acc@.len(),
            v0 == cost_view(acc@),
            v0 == cost_view(old(acc)@),
            keys_distinct(v0),
            count_of(v0, item@) + q <= u64::MAX,
            forall|m: int| 0 <= m < acc@.len() ==> #[trigger] acc@[m].1 > 0,
            forall|m: int| 0 <= m < k ==> acc@[m].0@ != item@,
        decreases n - k,
    {
        if str_eq(acc[k].0.as_str(), item.as_str()) {
            proof {
                lemma_count_distinct(v0, k as int);
                lemma_count_update(v0, k as int, q, item@);
            }
            let key = acc[k].0.clone();
            let total = acc[k].1 + q;
            acc.set(k, (key, total));
            proof {
                assert(cost_view(acc@) =~= v0.update(k as int, (v0[k as int].0, (v0[k as int].1 + q) as u64)));
                assert forall|it: Seq<char>| #[trigger]
                    count_of(cost_view(acc@), it) == count_of(v0, it) + if it == item@ {
                        q as nat
                    } else {
                        0
                    } by {
                    lemma_count_update(v0, k as int, q, it);
                }
            }
            return;
        }
        k += 1;
    }
    proof {
        lemma_count_absent(v0, item@);
    }
    acc.push((item.clone(), q));
    proof {
        assert(cost_view(acc@) =~= v0.push((item@, q)));
        assert(cost_view(acc@).drop_last() == v0);
        assert forall|a: int, b: int| 0 <= a < b < cost_view(acc@).len() implies cost_view(acc@)[a].0
            != cost_view(acc@)[b].0 by {
            if b == n {
                assert(v0[a].0 == acc@[a].0@);
            } else {
                assert(v0[a].0 != v0[b].0);
            }
        }
    }
}

/// What fabricating `blocks` costs at a quarter of the vanilla recipes,
/// rounded up per item: each item the recipes need appears once, with its
/// count, in no particular order.
pub fn calculate_cost(blocks: &[CircuitBlock]) -> (r: Vec<(String, u64)>)
    requires
        blocks@.len() <= 0x3ff_ffff_ffff_ffff,
    ensures
        keys_distinct(cost_view(r@)),
        forall|k: int|
            0 <= k < r@.len() ==> #[trigger] r@[k].1 == quarter_up(items_needed(blocks@, r@[k].0@))
                && r@[k].1 > 0,
        forall|it: Seq<char>|
            #[trigger] items_needed(blocks@, it) > 0 ==> exists|k: int| 0 <= k < r@.len() && r@[k].0@ == it,
        forall|it: Seq<char>| #[trigger] count_of(cost_view(r@), it) == quarter_up(items_needed(blocks@, it)),
{
    let mut acc: Vec<(String, u64)> = Vec::new();
    let n = blocks.len();
    let mut i: usize = 0;
    while i < n
        invariant
            i <= n,
            n == blocks@.len(),
            n <= 0x3ff_ffff_ffff_ffff,
            keys_distinct(cost_view(acc@)),
            forall|k: int| 0 <= k < acc@.len() ==> #[trigger] acc@[k].1 > 0,
            forall|it: Seq<char>|
                #[trigger] count_of(cost_view(acc@), it) == items_needed(blocks@.take(i as int), it),
        decreases n - i,
    {
        let rec = block_cost(&blocks[i]);
        let ghost rv = cost_view(rec@);
        let ghost bs = blocks@.take(i + 1);
        proof {
            assert(bs.drop_last() == blocks@.take(i as int));
            assert(bs.last() == blocks@[i as int]);
            lemma_recipe_small(blocks@[i as int].block_id@);
        }
        let m = rec.len();
        let mut j: usize = 0;
        assert(rv.take(0) == Seq::<(Seq<char>, u64)>::empty());
        while j < m
            invariant
                j <= m,
                m == rec@.len(),
                i < n,
                n == blocks@.len(),
                n <= 0x3ff_ffff_ffff_ffff,
                rv == cost_view(rec@),
                rv == recipe_of(blocks@[i as int].block_id@),
                recipe_small(rv),
                bs == blocks@.take(i + 1),
                bs.drop_last() == blocks@.take(i as int),
                bs.last() == blocks@[i as int],
                keys_distinct(cost_view(acc@)),
                forall|k: int| 0 <= k < acc@.len() ==> #[trigger] acc@[k].1 > 0,
                forall|it: Seq<char>|
                    #[trigger] count_of(cost_view(acc@), it) == items_needed(blocks@.take(i as int), it)
                        + count_of(rv.take(j as int), it),
            decreases m - j,
        {
            let ghost item = rec@[j as int].0@;
            proof {
                assert(rv[j as int] == (item, rec@[j as int].1));
                lemma_count_take_step(rv, j as int, item);
                lemma_count_take_le(rv, j + 1, item);
                lemma_needed_bound(bs, item);
                assert(items_needed(bs, item) == items_needed(blocks@.take(i as int), item) + count_of(
                    rv,
                    item,
                ));
                assert(bs.len() == i + 1);
                assert(1 <= rv[j as int].1 <= 9);
            }
            add_count(&mut acc, &rec[j].0, rec[j].1);
            proof {
                assert forall|it: Seq<char>| #[trigger]
                    count_of(cost_view(acc@), it) == items_needed(blocks@.take(i as int), it) + count_of(
                        rv.take(j + 1),
                        it,
                    ) by {
                    lemma_count_take_step(rv, j as int, it);
                }
            }
            j += 1;
        }
        assert(rv.take(m as int) == rv);
        i += 1;
    }
    assert(blocks@.take(n as int) == blocks@);
    let ghost av = cost_view(acc@);
    let mut r: Vec<(String, u64)> = Vec::new();
    let mut k: usize = 0;
    while k < acc.len()
        invariant
            k <= acc@.len(),
            av == cost_view(acc@),
            keys_distinct(av),
            forall|m: int| 0 <= m < acc@.len() ==> #[trigger] acc@[m].1 > 0,
            r@.len() == k,
            forall|m: int|
                0 <= m < k ==> #[trigger] r@[m].0@ == acc@[m].0@ && r@[m].1 == (acc@[m].1 + 3) / 4,
        decreases acc@.len() - k,
    {
        let q = acc[k].1;
        let v = q / 4 + if q % 4 == 0 { 0 } else { 1 };
        assert(v == (q + 3) / 4);
        if v > 0 {
            r.push((acc[k].0.clone(), v));
        }
        k += 1;
    }
    proof {
        assert forall|a: int, b: int| 0 <= a < b < r@.len() implies cost_view(r@)[a].0 != cost_view(
            r@,
        )[b].0 by {
            assert(av[a].0 != av[b].0);
        }
        assert forall|m: int| 0 <= m < r@.len() implies #[trigger] r@[m].1 == quarter_up(
            items_needed(blocks@, r@[m].0@),
        ) && r@[m].1 > 0 by {
            lemma_count_distinct(av, m);
            assert(av[m].0 == acc@[m].0@);
        }
        assert forall|it: Seq<char>| #[trigger] items_needed(blocks@, it) > 0 implies exists|m: int|
            0 <= m < r@.len() && r@[m].0@ == it by {
            assert(count_of(av, it) > 0);
            lemma_count_positive(av, it);
            let m = choose|m: int| 0 <= m < av.len() && av[m].0 == it;
            assert(r@[m].0@ == it);
        }
        let rv = cost_view(r@);
        assert forall|it: Seq<char>| #[trigger] count_of(rv, it) == quarter_up(items_needed(blocks@, it)) by {
            if exists|m: int| 0 <= m < rv.len() && rv[m].0 == it {
                let m = choose|m: int| 0 <= m < rv.len() && rv[m].0 == it;
                lemma_count_distinct(rv, m);
                assert(r@[m].0@ == it);
            } else {
                lemma_count_absent(rv, it);
                if items_needed(blocks@, it) > 0 {
                    let m = choose|m: int| 0 <= m < r@.len() && r@[m].0@ == it;
                    assert(rv[m].0 == it);
                }
            }
        }
    }
    r
}

/// The recipes of two block lists put together add up item by item.
pub proof fn lemma_items_needed_concat(a: Seq<CircuitBlock>, b: Seq<CircuitBlock>, item: Seq<char>)
    ensures
        items_needed(a + b, item) == items_needed(a, item) + items_needed(b, item),
    decreases b.len(),
{
    if b.len() > 0 {
        lemma_items_needed_concat(a, b.drop_last(), item);
        assert((a + b).drop_last() =~= a + b.drop_last());
        assert((a + b).last() == b.last());
    }
}

/// Fabricating two block lists together costs, item by item, at least what
/// either costs alone and at most what both cost separately.
pub proof fn lemma_cost_concat(a: Seq<CircuitBlock>, b: Seq<CircuitBlock>, item: Seq<char>)
    ensures
        quarter_up(items_needed(a + b, item)) >= quarter_up(items_needed(a, item)),
        quarter_up(items_needed(a + b, item)) >= quarter_up(items_needed(b, item)),
        quarter_up(items_needed(a + b, item)) <= quarter_up(items_needed(a, item)) + quarter_up(
            items_needed(b, item),
        ),
{
    lemma_items_needed_concat(a, b, item);
    let x = items_needed(a, item);
    let y = items_needed(b, item);
    assert((x + y + 3) / 4 >= (x + 3) / 4);
    assert((x + y + 3) / 4 >= (y + 3) / 4);
    assert((x + y + 3) / 4 <= (x + 3) / 4 + (y + 3) / 4);
}

/// Dropping the block at `j` takes its recipe off the total.
proof fn lemma_items_needed_remove(p: Seq<CircuitBlock>, j: int, item: Seq<char>)
    requires
        0 <= j < p.len(),
    ensures
        items_needed(p, item) == items_needed(p.remove(j), item) + count_of(recipe_of(p[j].block_id@), item),
{
    let l = p.take(j);
    let m = seq![p[j]];
    let r = p.skip(j + 1);
    assert(p =~= (l + m) + r);
    assert(p.remove(j) =~= l + r);
    lemma_items_needed_concat(l + m, r, item);
    lemma_items_needed_concat(l, m, item);
    lemma_items_needed_concat(l, r, item);
    assert(m.drop_last() =~= Seq::<CircuitBlock>::empty());
    assert(items_needed(m.drop_last(), item) == 0);
    assert(m.last() == p[j]);
    assert(items_needed(m, item) == count_of(recipe_of(p[j].block_id@), item));
}

/// The order of the blocks does not change what they cost: two lists
/// holding the same blocks need the same items.
pub proof fn lemma_cost_reorder(a: Seq<CircuitBlock>, p: Seq<CircuitBlock>, item: Seq<char>)
    requires
        a.to_multiset() == p.to_multiset(),
    ensures
        items_needed(a, item) == items_needed(p, item),
        quarter_up(items_needed(a, item)) == quarter_up(items_needed(p, item)),
    decreases a.len(),
{
    broadcast use vstd::seq_lib::group_to_multiset_ensures;

    if a.len() == 0 {
        assert(p.to_multiset().len() == 0);
        assert(p.len() == 0);
    } else {
        let x = a.last();
        let a1 = a.drop_last();
        assert(a =~= a1.push(x));
        assert(a.to_multiset() == a1.to_multiset().insert(x));
        assert(p.to_multiset().count(x) > 0);
        assert(p.contains(x));
        let j = choose|j: int| 0 <= j < p.len() && p[j] == x;
        let p1 = p.remove(j);
        assert(p1.to_multiset() == p.to_multiset().remove(x));
        assert(a1.to_multiset() =~= p1.to_multiset());
        lemma_cost_reorder(a1, p1, item);
        lemma_items_needed_remove(p, j, item);
    }
}

// ── Paying for a fabrication ──────────────────────────────────────────────────

/// The entries of `cost` that `have` cannot pay, in order, each as
/// (item, needed, held).
pub open spec fn shortfall(have: Seq<(Seq<char>, u64)>, cost: Seq<(Seq<char>, u64)>) -> Seq<(Seq<char>, u64, nat)>
    decreases cost.len(),
{
    if cost.len() == 0 {
        Seq::empty()
    } else {
        let prev = shortfall(have, cost.drop_last());
        let e = cost.last();
        if count_of(have, e.0) < e.1 {
            prev.push((e.0, e.1, count_of(have, e.0)))
        } else {
            prev
        }
    }
}

/// A list of (item, needed, held) triples seen as texts and numbers.
pub open spec fn shortfall_view(v: Seq<(String, u64, u64)>) -> Seq<(Seq<char>, u64, nat)> {
    v.map_values(|e: (String, u64, u64)| (e.0@, e.1, e.2 as nat))
}

proof fn lemma_shortfall_empty(have: Seq<(Seq<char>, u64)>, cost: Seq<(Seq<char>, u64)>)
    ensures
        shortfall(have, cost).len() == 0 <==> forall|k: int|
            0 <= k < cost.len() ==> count_of(have, #[trigger] cost[k].0) >= cost[k].1,
    decreases cost.len(),
{
    if cost.len() > 0 {
        lemma_shortfall_empty(have, cost.drop_last());
        let c = cost.drop_last();
        if shortfall(have, cost).len() == 0 {
            assert forall|k: int| 0 <= k < cost.len() implies count_of(have, #[trigger] cost[k].0)
                >= cost[k].1 by {
                if k < cost.len() - 1 {
                    assert(cost[k] == c[k]);
                }
            }
        }
        if forall|k: int| 0 <= k < cost.len() ==> count_of(have, #[trigger] cost[k].0) >= cost[k].1 {
            assert forall|k: int| 0 <= k < c.len() implies count_of(have, #[trigger] c[k].0) >= c[k].1 by {
                assert(cost[k] == c[k]);
            }
            assert(count_of(have, cost[cost.len() - 1].0) >= cost[cost.len() - 1].1);
        }
    }
}

/// Where `item` stands in `have`.
fn find_item(have: &Vec<(String, u64)>, item: &String) -> (r: Option<usize>)
    ensures
        match r {
            Some(k) => k < have@.len() && have@[k as int].0@ == item@,
            None => forall|m: int| 0 <= m < have@.len() ==> have@[m].0@ != item@,
        },
{
    let mut k: usize = 0;
    while k < have.len()
        invariant
            k <= have@.len(),
            forall|m: int| 0 <= m < k ==> have@[m].0@ != item@,
        decreases have@.len() - k,
    {
        if str_eq(have[k].0.as_str(), item.as_str()) {
            return Some(k);
        }
        k += 1;
    }
    None
}

/// How many of `item` `have` holds.
fn held(have: &Vec<(String, u64)>, item: &String) -> (r: u64)
    requires
        keys_distinct(cost_view(have@)),
    ensures
        r == count_of(cost_view(have@), item@),
{
    let ghost hv = cost_view(have@);
    let mut k: usize = 0;
    while k < have.len()
        invariant
            k <= have@.len(),
            hv == cost_view(have@),
            keys_distinct(hv),
            forall|m: int| 0 <= m < k ==> have@[m].0@ != item@,
        decreases have@.len() - k,
    {
        if str_eq(have[k].0.as_str(), item.as_str()) {
            proof {
                lemma_count_distinct(hv, k as int);
            }
            return have[k].1;
        }
        k += 1;
    }
    proof {
        lemma_count_absent(hv, item@);
    }
    0
}

/// Pay `cost` from a workbench's resources `have`. When `have` holds every
/// entry's count, each is taken off and the result is `Ok`; otherwise
/// nothing is taken and the entries it cannot pay are returned.
pub fn consume_resources(have: &mut Vec<(String, u64)>, cost: &Vec<(String, u64)>) -> (r: Result<(), Vec<(String, u64, u64)>>)
    requires
        keys_distinct(cost_view(old(have)@)),
        keys_distinct(cost_view(cost@)),
        forall|k: int| 0 <= k < cost@.len() ==> #[trigger] cost@[k].1 > 0,
    ensures
        match r {
            Ok(()) => {
                &&& shortfall(cost_view(old(have)@), cost_view(cost@)).len() == 0
                &&& final(have)@.len() == old(have)@.len()
                &&& forall|k: int| 0 <= k < old(have)@.len() ==> #[trigger] final(have)@[k].0@ == old(have)@[k].0@
                &&& forall|it: Seq<char>|
                    #[trigger] count_of(cost_view(final(have)@), it) + count_of(cost_view(cost@), it) == count_of(
                        cost_view(old(have)@),
                        it,
                    )
            },
            Err(missing) => {
                &&& shortfall(cost_view(old(have)@), cost_view(cost@)).len() > 0
                &&& shortfall_view(missing@) == shortfall(cost_view(old(have)@), cost_view(cost@))
                &&& final(have)@ == old(have)@
            },
        },
{
    let ghost h0 = cost_view(have@);
    let ghost cv = cost_view(cost@);
    let n = cost.len();
    let mut missing: Vec<(String, u64, u64)> = Vec::new();
    let mut j: usize = 0;
    while j < n
        invariant
            j <= n,
            n == cost@.len(),
            h0 == cost_view(have@),
            cv == cost_view(cost@),
            keys_distinct(h0),
            shortfall_view(missing@) == shortfall(h0, cv.take(j as int)),
        decreases n - j,
    {
        let h = held(have, &cost[j].0);
        proof {
            assert(cv.take(j + 1).drop_last() == cv.take(j as int));
            assert(cv.take(j + 1).last() == cv[j as int]);
        }
        if h < cost[j].1 {
            missing.push((cost[j].0.clone(), cost[j].1, h));
            assert(shortfall_view(missing@) =~= shortfall(h0, cv.take(j as int)).push(
                (cost@[j as int].0@, cost@[j as int].1, h as nat),
            ));
        }
        j += 1;
    }
    assert(cv.take(n as int) == cv);
    if missing.len() > 0 {
        return Err(missing);
    }
    proof {
        lemma_shortfall_empty(h0, cv);
    }
    let ghost old_have = have@;
    let mut j: usize = 0;
    assert(cv.take(0) == Seq::<(Seq<char>, u64)>::empty());
    while j < n
        invariant
            j <= n,
            n == cost@.len(),
            cv == cost_view(cost@),
            keys_distinct(cv),
            keys_distinct(h0),
            forall|k: int| 0 <= k < cost@.len() ==> #[trigger] cost@[k].1 > 0,
            h0 == cost_view(old_have),
            forall|k: int| 0 <= k < cv.len() ==> count_of(h0, #[trigger] cv[k].0) >= cv[k].1,
            have@.len() == old_have.len(),
            forall|k: int| 0 <= k < old_have.len() ==> #[trigger] have@[k].0@ == old_have[k].0@,
            keys_distinct(cost_view(have@)),
            forall|it: Seq<char>|
                #[trigger] count_of(cost_view(have@), it) + count_of(cv.take(j as int), it) == count_of(h0, it),
        decreases n - j,
    {
        let ghost item = cv[j as int].0;
        let ghost hv = cost_view(have@);
        proof {
            assert forall|m: int| 0 <= m < cv.take(j as int).len() implies cv.take(j as int)[m].0 != item by {
                assert(cv.take(j as int)[m] == cv[m]);
            }
            lemma_count_absent(cv.take(j as int), item);
            assert(count_of(h0, cv[j as int].0) >= cv[j as int].1);
            assert(cost@[j as int].0@ == item);
        }
        let found = find_item(have, &cost[j].0);
        proof {
            if found is None {
                lemma_count_absent(hv, item);
                assert(cost@[j as int].1 > 0);
                assert(count_of(hv, item) + count_of(cv.take(j as int), item) == count_of(h0, item));
                assert(false);
            }
        }
        let k = found.unwrap();
        proof {
            lemma_count_distinct(hv, k as int);
            assert(count_of(hv, item) + count_of(cv.take(j as int), item) == count_of(h0, item));
            assert(hv[k as int].0 == item);
        }
        let key = have[k].0.clone();
        let left = have[k].1 - cost[j].1;
        have.set(k, (key, left));
        proof {
            assert(cost_view(have@) =~= hv.update(k as int, (hv[k as int].0, left)));
            assert forall|it: Seq<char>| #[trigger]
                count_of(cost_view(have@), it) + count_of(cv.take(j + 1), it) == count_of(h0, it) by {
                lemma_count_set(hv, k as int, left, it);
                lemma_count_take_step(cv, j as int, it);
                assert(count_of(hv, it) + count_of(cv.take(j as int), it) == count_of(h0, it));
            }
            assert forall|a: int, b: int| 0 <= a < b < cost_view(have@).len() implies cost_view(have@)[a].0
                != cost_view(have@)[b].0 by {
                assert(hv[a].0 != hv[b].0);
            }
        }
        j += 1;
    }
    assert(cv.take(n as int) == cv);
    Ok(())
}

// ── Finding the workbench next to a player ────────────────────────────────────

/// The k-th offset tried around the player: dx, then dy, then dz, each
/// running from -3 to 3.
pub open spec fn search_offset(k: int) -> (int, int, int) {
    (k / 49 - 3, (k / 7) % 7 - 3, k % 7 - 3)
}

/// The k-th position tried around `p`.
pub open spec fn search_pos(p: (i32, i32, i32), k: int) -> (int, int, int) {
    let o = search_offset(k);
    (p.0 + o.0, p.1 + o.1, p.2 + o.2)
}

/// `stations` holds the position (x, y, z).
pub open spec fn station_at(stations: Seq<(i32, i32, i32)>, q: (int, int, int)) -> bool {
    exists|i: int| 0 <= i < stations.len() && stations[i].0 == q.0 && stations[i].1 == q.1 && stations[i].2 == q.2
}

/// The first workbench position, among `stations`, in the 7×7×7 cube around
/// `p`, scanning dx, then dy, then dz from -3 to 3.
pub fn find_workbench(stations: &Vec<(i32, i32, i32)>, p: (i32, i32, i32)) -> (r: Option<(i32, i32, i32)>)
    requires
        i32::MIN + 3 <= p.0 <= i32::MAX - 3,
        i32::MIN + 3 <= p.1 <= i32::MAX - 3,
        i32::MIN + 3 <= p.2 <= i32::MAX - 3,
    ensures
        match r {
            Some(s) => exists|k: int|
                0 <= k < 343 && search_pos(p, k) == (s.0 as int, s.1 as int, s.2 as int) && station_at(
                    stations@,
                    search_pos(p, k),
                ) && forall|j: int| 0 <= j < k ==> !station_at(stations@, #[trigger] search_pos(p, j)),
            None => forall|k: int| 0 <= k < 343 ==> !station_at(stations@, #[trigger] search_pos(p, k)),
        },
{
    let mut k: i32 = 0;
    while k < 343
        invariant
            0 <= k <= 343,
            i32::MIN + 3 <= p.0 <= i32::MAX - 3,
            i32::MIN + 3 <= p.1 <= i32::MAX - 3,
            i32::MIN + 3 <= p.2 <= i32::MAX - 3,
            forall|j: int| 0 <= j < k ==> !station_at(stations@, #[trigger] search_pos(p, j)),
        decreases 343 - k,
    {
        let key = (p.0 + (k / 49 - 3), p.1 + ((k / 7) % 7 - 3), p.2 + (k % 7 - 3));
        assert(search_pos(p, k as int) == (key.0 as int, key.1 as int, key.2 as int));
        let mut i: usize = 0;
        while i < stations.len()
            invariant
                i <= stations@.len(),
                forall|m: int|
                    0 <= m < i ==> !(stations@[m].0 == key.0 && stations@[m].1 == key.1 && stations@[m].2
                        == key.2),
                0 <= k < 343,
                search_pos(p, k as int) == (key.0 as int, key.1 as int, key.2 as int),
                forall|j: int| 0 <= j < k ==> !station_at(stations@, #[trigger] search_pos(p, j)),
            decreases stations@.len() - i,
        {
            let s = stations[i];
            if s.0 == key.0 && s.1 == key.1 && s.2 == key.2 {
                proof {
                    let q = search_pos(p, k as int);
                    assert(stations@[i as int].0 == q.0 && stations@[i as int].1 == q.1 && stations@[i as int].2
                        == q.2);
                    assert(station_at(stations@, q));
                    assert(0 <= k < 343 && search_pos(p, k as int) == (key.0 as int, key.1 as int, key.2 as int)
                        && station_at(stations@, search_pos(p, k as int)) && forall|j: int|
                        0 <= j < k ==> !station_at(stations@, #[trigger] search_pos(p, j)));
                }
                return Some(key);
            }
            i += 1;
        }
        k += 1;
    }
    None
}

// ── Installing from an inventory slot ─────────────────────────────────────────

/// Why a slot's item cannot be installed into an ALU.
#[derive(Debug)]
pub enum SlotRefusal {
    /// The item is not a microchip.
    NotAChip,
    /// The microchip carries no design.
    NotProgrammed,
}

/// What an inventory slot holding `item_id` with the SNBT `nbt` offers an
/// ALU: the metadata JSON of a programmed microchip, or why not.
pub fn chip_in_slot(item_id: &str, nbt: &str) -> (r: Result<String, SlotRefusal>)
    ensures
        after_prefix(item_id@, "yog-vlsi:chip_"@) is None ==> r matches Err(SlotRefusal::NotAChip),
        after_prefix(item_id@, "yog-vlsi:chip_"@) is Some ==> match snbt_unframe(chip_nbt_key(), nbt@) {
            Some(j) => r matches Ok(s) && s@ == j,
            None => r matches Err(SlotRefusal::NotProgrammed),
        },
{
    match strip_prefix(item_id, "yog-vlsi:chip_") {
        None => Err(SlotRefusal::NotAChip),
        Some(_) => match ChipMeta::from_nbt(nbt) {
            Some(j) => Ok(j),
            None => Err(SlotRefusal::NotProgrammed),
        },
    }
}

/// Saved switches and torches come back in the state they were saved in:
/// a lever is on, a stone button pressed and an observer powered exactly
/// when the block state says `"powered":"true"`; a torch, standing or on a
/// wall, is lit unless the state says `"lit":"false"`.
pub proof fn lemma_saved_switch_states(st: Seq<char>)
    ensures
        block_type_of("minecraft:lever"@, st) == (BlockType::Lever { on: seq_contains(st, "\"powered\":\"true\""@) }),
        block_type_of("minecraft:stone_button"@, st) matches BlockType::StoneButton { pressed, .. } && pressed
            == seq_contains(st, "\"powered\":\"true\""@),
        block_type_of("minecraft:observer"@, st) matches BlockType::Observer { powered, .. } && powered
            == seq_contains(st, "\"powered\":\"true\""@),
        block_type_of("minecraft:redstone_torch"@, st) == (BlockType::RedstoneTorch {
            lit: !seq_contains(st, "\"lit\":\"false\""@),
        }),
        block_type_of("minecraft:redstone_wall_torch"@, st) matches BlockType::RedstoneWallTorch { lit, .. } && lit
            == !seq_contains(st, "\"lit\":\"false\""@),
        block_type_of("minecraft:repeater"@, st) matches BlockType::Repeater { locked, .. } && locked == seq_contains(
            st,
            "\"locked\":\"true\""@,
        ),
        block_type_of("minecraft:piston"@, st) matches BlockType::Piston { extended, .. } && extended
            == seq_contains(st, "\"extended\":\"true\""@),
        block_type_of("minecraft:sticky_piston"@, st) matches BlockType::StickyPiston { extended, .. } && extended
            == seq_contains(st, "\"extended\":\"true\""@),
{
    reveal_strlit("minecraft:lever");
    reveal_strlit("minecraft:stone_button");
    reveal_strlit("minecraft:observer");
    reveal_strlit("minecraft:air");
    reveal_strlit("minecraft:cave_air");
    reveal_strlit("minecraft:void_air");
    reveal_strlit("minecraft:redstone_wire");
    reveal_strlit("minecraft:redstone_torch");
    reveal_strlit("minecraft:redstone_wall_torch");
    reveal_strlit("minecraft:repeater");
    reveal_strlit("minecraft:comparator");
    reveal_strlit("minecraft:redstone_lamp");
    reveal_strlit("minecraft:redstone_block");
    assert("minecraft:lever"@.len() == 15);
    assert("minecraft:stone_button"@.len() == 22);
    assert("minecraft:observer"@.len() == 18);
    assert("minecraft:redstone_torch"@.len() == 24);
    assert("minecraft:redstone_wall_torch"@.len() == 29);
    assert("minecraft:observer"@ != "minecraft:cave_air"@ && "minecraft:observer"@ != "minecraft:void_air"@
        && "minecraft:observer"@ != "minecraft:repeater"@) by {
        assert("minecraft:observer"@[10] != "minecraft:cave_air"@[10]);
        assert("minecraft:observer"@[10] != "minecraft:void_air"@[10]);
        assert("minecraft:observer"@[10] != "minecraft:repeater"@[10]);
    }
    assert("minecraft:redstone_torch"@ != "minecraft:redstone_lamp"@) by {
        assert("minecraft:redstone_torch"@[19] != "minecraft:redstone_lamp"@[19]);
    }
    assert(redstone_block_of("minecraft:lever"@, st) == Some(BlockType::Lever { on: seq_contains(st, "\"powered\":\"true\""@) }));
    assert(redstone_block_of("minecraft:stone_button"@, st) is Some);
    assert(redstone_block_of("minecraft:observer"@, st) is Some);
    assert(redstone_block_of("minecraft:redstone_torch"@, st) is Some);
    assert(redstone_block_of("minecraft:redstone_wall_torch"@, st) is Some);
    reveal_strlit("minecraft:repeater");
    reveal_strlit("minecraft:piston");
    reveal_strlit("minecraft:sticky_piston");
    reveal_strlit("minecraft:note_block");
    reveal_strlit("minecraft:target");
    assert("minecraft:repeater"@.len() == 18);
    assert("minecraft:piston"@.len() == 16);
    assert("minecraft:sticky_piston"@.len() == 23);
    assert("minecraft:repeater"@ != "minecraft:cave_air"@ && "minecraft:repeater"@ != "minecraft:void_air"@) by {
        assert("minecraft:repeater"@[10] != "minecraft:cave_air"@[10]);
        assert("minecraft:repeater"@[10] != "minecraft:void_air"@[10]);
    }
    assert("minecraft:sticky_piston"@ != "minecraft:redstone_wire"@) by {
        assert("minecraft:sticky_piston"@[10] != "minecraft:redstone_wire"@[10]);
    }
    assert("minecraft:piston"@ != "minecraft:target"@ && "minecraft:piston"@ != "minecraft:observer"@) by {
        assert("minecraft:piston"@[10] != "minecraft:target"@[10]);
    }
    assert(redstone_block_of("minecraft:repeater"@, st) is Some);
    assert(redstone_block_of("minecraft:piston"@, st) is Some);
    assert("minecraft:sticky_piston"@ != "minecraft:redstone_lamp"@) by {
        assert("minecraft:sticky_piston"@[10] != "minecraft:redstone_lamp"@[10]);
    }
    assert(redstone_block_of("minecraft:sticky_piston"@, st) == Some(BlockType::StickyPiston {
        extended: holds_prop(st, "\"extended\":\"true\""@),
        facing: facing_of(st),
    }));
}

/// A wall torch costs what a standing torch costs: one redstone and one
/// stick, and nothing else.
pub proof fn lemma_torch_recipes(item: Seq<char>)
    ensures
        count_of(recipe_of("minecraft:redstone_wall_torch"@), item) == count_of(
            recipe_of("minecraft:redstone_torch"@),
            item,
        ),
        count_of(recipe_of("minecraft:redstone_wall_torch"@), item) == if item == "minecraft:redstone"@ {
            1nat
        } else if item == "minecraft:stick"@ {
            1nat
        } else {
            0nat
        },
{
    reveal_strlit("minecraft:redstone_wire");
    reveal_strlit("minecraft:redstone_torch");
    reveal_strlit("minecraft:redstone_wall_torch");
    reveal_strlit("minecraft:redstone");
    reveal_strlit("minecraft:stick");
    assert("minecraft:redstone_wall_torch"@.len() == 29);
    assert("minecraft:redstone_torch"@.len() == 24);
    assert("minecraft:redstone_wire"@.len() == 23);
    assert("minecraft:redstone"@ != "minecraft:stick"@) by {
        assert("minecraft:redstone"@[10] != "minecraft:stick"@[10]);
    }
    let r = seq![("minecraft:redstone"@, 1u64), ("minecraft:stick"@, 1u64)];
    assert(redstone_recipe("minecraft:redstone_wall_torch"@) == Some(r));
    assert(redstone_recipe("minecraft:redstone_torch"@) == Some(r));
    assert(r.drop_last().drop_last() =~= Seq::<(Seq<char>, u64)>::empty());
    assert(r.drop_last().last() == ("minecraft:redstone"@, 1u64));
    assert(r.last() == ("minecraft:stick"@, 1u64));
    let e = Seq::<(Seq<char>, u64)>::empty();
    assert(count_of(e, item) == 0);
    assert(count_of(r.drop_last(), item) == if item == "minecraft:redstone"@ { 1nat } else { 0nat });
    assert(count_of(r, item) == count_of(r.drop_last(), item) + if item == "minecraft:stick"@ { 1nat } else { 0nat });
    assert(recipe_of("minecraft:redstone_wall_torch"@) == r);
}

/// Fabricating any design costs the same when each of its wall torches is a
/// standing torch instead: item by item, the two block lists need the same.
pub proof fn lemma_wall_torch_costs_standing_torch(a: Seq<CircuitBlock>, b: Seq<CircuitBlock>, item: Seq<char>)
    requires
        a.len() == b.len(),
        forall|i: int|
            0 <= i < a.len() ==> #[trigger] b[i].block_id@ == if a[i].block_id@ == "minecraft:redstone_wall_torch"@ {
                "minecraft:redstone_torch"@
            } else {
                a[i].block_id@
            },
    ensures
        items_needed(a, item) == items_needed(b, item),
        quarter_up(items_needed(a, item)) == quarter_up(items_needed(b, item)),
    decreases a.len(),
{
    if a.len() > 0 {
        let a1 = a.drop_last();
        let b1 = b.drop_last();
        assert forall|i: int| 0 <= i < a1.len() implies #[trigger] b1[i].block_id@ == if a1[i].block_id@
            == "minecraft:redstone_wall_torch"@ {
            "minecraft:redstone_torch"@
        } else {
            a1[i].block_id@
        } by {
            assert(a1[i] == a[i] && b1[i] == b[i]);
        }
        lemma_wall_torch_costs_standing_torch(a1, b1, item);
        lemma_torch_recipes(item);
        assert(b.last().block_id@ == b[a.len() - 1].block_id@);
    }
}

/// Each cost is a quarter of what the recipes need, rounded up: four times
/// it covers the need, by less than four.
pub proof fn lemma_cost_is_quarter_rounded_up(blocks: Seq<CircuitBlock>, item: Seq<char>)
    ensures
        4 * quarter_up(items_needed(blocks, item)) >= items_needed(blocks, item),
        4 * quarter_up(items_needed(blocks, item)) <= items_needed(blocks, item) + 3,
        items_needed(blocks, item) == 0 <==> quarter_up(items_needed(blocks, item)) == 0,
{
}


} // verus!
