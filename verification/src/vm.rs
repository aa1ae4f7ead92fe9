//! Redstone virtual machine: the accelerated redstone simulation that runs
//! inside every microchip.
//!
//! Each chip tier maps to a cubic world. The VM keeps one cell per block
//! position, a queue of pending block updates, and a tick counter. One
//! `step` runs the tick algorithm: reset wire power, process queued updates,
//! propagate power outward from every source along redstone wire, give
//! output ports the level of the circuit next to them, recompute strong
//! powering of solid blocks, and advance timers (a repeater whose delay runs
//! out switches on while its input is still powered).

use std::collections::VecDeque;
use vstd::prelude::*;

use crate::text::{ascii_lower, is_ascii_text, str_eq};

pub mod propagate;

verus! {

// ── Tier ──────────────────────────────────────────────────────────────────────

/// Microchip tier: decides the size of the virtual world and the simulation rate.
#[derive(Debug, Clone, Copy, PartialEq, Eq)]
pub enum Tier {
    Wood,
    Stone,
    Gold,
    Iron,
    Diamond,
    Netherite,
}

impl Tier {
    pub open spec fn spec_tick_rate(self) -> u32 {
        match self {
            Tier::Wood => 5,
            Tier::Stone => 10,
            Tier::Gold => 20,
            Tier::Iron => 25,
            Tier::Diamond => 30,
            Tier::Netherite => 40,
        }
    }

    pub open spec fn spec_world_size(self) -> u32 {
        match self {
            Tier::Wood => 16,
            Tier::Stone => 32,
            Tier::Gold => 64,
            Tier::Iron => 64,
            Tier::Diamond => 128,
            Tier::Netherite => 256,
        }
    }

    pub open spec fn spec_name(self) -> Seq<char> {
        match self {
            Tier::Wood => "Wood"@,
            Tier::Stone => "Stone"@,
            Tier::Gold => "Gold"@,
            Tier::Iron => "Iron"@,
            Tier::Diamond => "Diamond"@,
            Tier::Netherite => "Netherite"@,
        }
    }

    pub open spec fn spec_id(self) -> Seq<char> {
        match self {
            Tier::Wood => "wood"@,
            Tier::Stone => "stone"@,
            Tier::Gold => "gold"@,
            Tier::Iron => "iron"@,
            Tier::Diamond => "diamond"@,
            Tier::Netherite => "netherite"@,
        }
    }

    /// The tier whose identifier is `id`.
    pub open spec fn spec_from_id(id: Seq<char>) -> Option<Tier> {
        if id == "wood"@ {
            Some(Tier::Wood)
        } else if id == "stone"@ {
            Some(Tier::Stone)
        } else if id == "gold"@ {
            Some(Tier::Gold)
        } else if id == "iron"@ {
            Some(Tier::Iron)
        } else if id == "diamond"@ {
            Some(Tier::Diamond)
        } else if id == "netherite"@ {
            Some(Tier::Netherite)
        } else {
            None
        }
    }

    /// An identifier that names a tier is that tier's identifier.
    pub proof fn lemma_from_id_some(id: Seq<char>, t: Tier)
        requires
            Tier::spec_from_id(id) == Some(t),
        ensures
            id == t.spec_id(),
    {
    }

    /// The tier whose lower-case identifier is `id`; `None` for any other text.
    pub fn from_id(id: &str) -> (r: Option<Tier>)
        ensures
            r == Tier::spec_from_id(id@),
    {
        if str_eq(id, "wood") {
            Some(Tier::Wood)
        } else if str_eq(id, "stone") {
            Some(Tier::Stone)
        } else if str_eq(id, "gold") {
            Some(Tier::Gold)
        } else if str_eq(id, "iron") {
            Some(Tier::Iron)
        } else if str_eq(id, "diamond") {
            Some(Tier::Diamond)
        } else if str_eq(id, "netherite") {
            Some(Tier::Netherite)
        } else {
            None
        }
    }

    /// Every tier, from the smallest to the largest.
    pub fn all() -> (v: Vec<Tier>)
        ensures
            v@ == seq![Tier::Wood, Tier::Stone, Tier::Gold, Tier::Iron, Tier::Diamond, Tier::Netherite],
    {
        vec![Tier::Wood, Tier::Stone, Tier::Gold, Tier::Iron, Tier::Diamond, Tier::Netherite]
    }

    /// Simulation steps per second.
    #[verifier::when_used_as_spec(spec_tick_rate)]
    pub fn tick_rate(self) -> (r: u32)
        ensures
            r == self.spec_tick_rate(),
    {
        match self {
            Tier::Wood => 5,
            Tier::Stone => 10,
            Tier::Gold => 20,
            Tier::Iron => 25,
            Tier::Diamond => 30,
            Tier::Netherite => 40,
        }
    }

    /// Edge length of the tier's cubic virtual world.
    #[verifier::when_used_as_spec(spec_world_size)]
    pub fn world_size(self) -> (r: u32)
        ensures
            r == self.spec_world_size(),
    {
        match self {
            Tier::Wood => 16,
            Tier::Stone => 32,
            Tier::Gold => 64,
            Tier::Iron => 64,
            Tier::Diamond => 128,
            Tier::Netherite => 256,
        }
    }

    /// Display name.
    pub fn name(self) -> (r: &'static str)
        ensures
            r@ == self.spec_name(),
    {
        match self {
            Tier::Wood => "Wood",
            Tier::Stone => "Stone",
            Tier::Gold => "Gold",
            Tier::Iron => "Iron",
            Tier::Diamond => "Diamond",
            Tier::Netherite => "Netherite",
        }
    }

    /// Lower-case identifier used in item ids and commands.
    pub fn id(self) -> (r: &'static str)
        ensures
            r@ == self.spec_id(),
    {
        match self {
            Tier::Wood => "wood",
            Tier::Stone => "stone",
            Tier::Gold => "gold",
            Tier::Iron => "iron",
            Tier::Diamond => "diamond",
            Tier::Netherite => "netherite",
        }
    }
}

/// A tier is found again from its identifier.
pub proof fn lemma_tier_id_roundtrip(t: Tier)
    ensures
        Tier::spec_from_id(t.spec_id()) == Some(t),
{
    reveal_strlit("wood");
    reveal_strlit("stone");
    reveal_strlit("gold");
    reveal_strlit("iron");
    reveal_strlit("diamond");
    reveal_strlit("netherite");
    match t {
        Tier::Wood => {},
        Tier::Stone => assert("stone"@[0] != "wood"@[0]),
        Tier::Gold => {
            assert("gold"@[0] != "wood"@[0]);
            assert("gold"@[0] != "stone"@[0]);
        },
        Tier::Iron => {
            assert("iron"@[0] != "wood"@[0]);
            assert("iron"@[0] != "stone"@[0]);
            assert("iron"@[0] != "gold"@[0]);
        },
        Tier::Diamond => {
            assert("diamond"@[0] != "wood"@[0]);
            assert("diamond"@[0] != "stone"@[0]);
            assert("diamond"@[0] != "gold"@[0]);
            assert("diamond"@[0] != "iron"@[0]);
        },
        Tier::Netherite => {
            assert("netherite"@[0] != "wood"@[0]);
            assert("netherite"@[0] != "stone"@[0]);
            assert("netherite"@[0] != "gold"@[0]);
            assert("netherite"@[0] != "iron"@[0]);
            assert("netherite"@[0] != "diamond"@[0]);
        },
    }
}

/// A tier's identifier is its display name lower-cased; both are ASCII.
pub proof fn lemma_tier_text(t: Tier)
    ensures
        is_ascii_text(t.spec_id()),
        is_ascii_text(t.spec_name()),
        ascii_lower(t.spec_id()) == t.spec_id(),
        ascii_lower(t.spec_name()) == t.spec_id(),
{
    reveal_strlit("wood");
    reveal_strlit("stone");
    reveal_strlit("gold");
    reveal_strlit("iron");
    reveal_strlit("diamond");
    reveal_strlit("netherite");
    reveal_strlit("Wood");
    reveal_strlit("Stone");
    reveal_strlit("Gold");
    reveal_strlit("Iron");
    reveal_strlit("Diamond");
    reveal_strlit("Netherite");
    let id = t.spec_id();
    let name = t.spec_name();
    assert(ascii_lower(id) =~= id);
    assert(ascii_lower(name) =~= id);
}

/// Tiers in order: every tier listed once, tick rates strictly rising,
/// world sizes never falling, identifiers and names told apart.
pub proof fn lemma_tier_order()
    ensures
        ({
            let all = seq![Tier::Wood, Tier::Stone, Tier::Gold, Tier::Iron, Tier::Diamond, Tier::Netherite];
            &&& forall|t: Tier| #[trigger] all.contains(t)
            &&& forall|i: int, j: int|
                0 <= i < j < 6 ==> all[i].spec_tick_rate() < all[j].spec_tick_rate() && all[i].spec_world_size()
                    <= all[j].spec_world_size()
        }),
        forall|a: Tier, b: Tier| a != b ==> #[trigger] a.spec_id() != #[trigger] b.spec_id(),
        forall|a: Tier, b: Tier| a != b ==> #[trigger] a.spec_name() != #[trigger] b.spec_name(),
{
    let all = seq![Tier::Wood, Tier::Stone, Tier::Gold, Tier::Iron, Tier::Diamond, Tier::Netherite];
    assert forall|t: Tier| #[trigger] all.contains(t) by {
        match t {
            Tier::Wood => assert(all[0] == t),
            Tier::Stone => assert(all[1] == t),
            Tier::Gold => assert(all[2] == t),
            Tier::Iron => assert(all[3] == t),
            Tier::Diamond => assert(all[4] == t),
            Tier::Netherite => assert(all[5] == t),
        }
    }
    assert forall|a: Tier, b: Tier| a != b implies #[trigger] a.spec_id() != #[trigger] b.spec_id() by {
        lemma_tier_id_roundtrip(a);
        lemma_tier_id_roundtrip(b);
    }
    assert forall|a: Tier, b: Tier| a != b implies #[trigger] a.spec_name() != #[trigger] b.spec_name() by {
        lemma_tier_text(a);
        lemma_tier_text(b);
        lemma_tier_id_roundtrip(a);
        lemma_tier_id_roundtrip(b);
    }
}

/// Every tier's world fits in 256 blocks per edge and is at least 16.
pub proof fn lemma_world_size_bounds(t: Tier)
    ensures
        16 <= t.spec_world_size() <= 256,
{
}

// ── Block types ───────────────────────────────────────────────────────────────

#[derive(Debug, Clone, Copy, PartialEq, Eq)]
pub enum ComparatorMode {
    Compare,
    Subtract,
}

#[derive(Debug, Clone, Copy, PartialEq, Eq)]
pub enum ShulkerColor {
    White,
    Orange,
    Magenta,
    LightBlue,
    Yellow,
    Lime,
    Pink,
    Gray,
    LightGray,
    Cyan,
    Purple,
    Blue,
    Brown,
    Green,
    Red,
    Black,
}

#[derive(Debug, Clone, Copy, PartialEq, Eq)]
pub enum DoorHalf {
    Upper,
    Lower,
}

#[derive(Debug, Clone, Copy, PartialEq, Eq)]
pub enum Facing {
    North,
    South,
    East,
    West,
    Up,
    Down,
}

#[derive(Debug, Clone, Copy, PartialEq, Eq)]
pub enum PortMode {
    Input,
    Output,
    Bidirectional,
}

#[derive(Debug, Clone, Copy, PartialEq, Eq)]
pub enum BlockType {
    Air,
    // Solid / decorative
    Solid,
    Glass,
    // Redstone components
    RedstoneWire,
    RedstoneTorch { lit: bool },
    RedstoneWallTorch { lit: bool, facing: Facing },
    Repeater { delay_ticks: u8, facing: Facing, locked: bool },
    Comparator { mode: ComparatorMode, facing: Facing },
    RedstoneLamp,
    RedstoneBlock,
    Lever { on: bool },
    StoneButton { pressed: bool, facing: Facing },
    WoodButton { pressed: bool, facing: Facing },
    StonePressurePlate { pressed: bool },
    WoodPressurePlate { pressed: bool },
    LightWeightedPressurePlate { power: u8 },
    HeavyWeightedPressurePlate { power: u8 },
    Observer { facing: Facing, powered: bool },
    NoteBlock,
    TargetBlock { power: u8 },
    Piston { extended: bool, facing: Facing },
    StickyPiston { extended: bool, facing: Facing },
    // Containers (inventory not simulated, but they conduct/block redstone)
    Chest,
    TrappedChest,
    EnderChest,
    ShulkerBox { color: Option<ShulkerColor> },
    Barrel,
    Hopper { facing: Facing, enabled: bool },
    Dropper { facing: Facing, triggered: bool },
    Dispenser { facing: Facing, triggered: bool },
    Furnace { lit: bool },
    BlastFurnace { lit: bool },
    Smoker { lit: bool },
    BrewingStand,
    // Movement / utility
    SlimeBlock,
    HoneyBlock,
    Tnt { unstable: bool },
    IronDoor { open: bool, facing: Facing, half: DoorHalf },
    WoodDoor { open: bool, facing: Facing, half: DoorHalf },
    IronTrapdoor { open: bool, facing: Facing, half: DoorHalf },
    WoodTrapdoor { open: bool, facing: Facing, half: DoorHalf },
    FenceGate { open: bool, facing: Facing },
    Rail,
    PoweredRail { powered: bool },
    DetectorRail { powered: bool },
    ActivatorRail { powered: bool },
    // I/O ports (special VLSI blocks)
    Port(PortMode),
}

impl Facing {
    pub open spec fn spec_horizontal_offset(self) -> (i32, i32) {
        match self {
            Facing::North => (0i32, -1i32),
            Facing::South => (0i32, 1i32),
            Facing::East => (1i32, 0i32),
            Facing::West => (-1i32, 0i32),
            _ => (0i32, 0i32),
        }
    }

    pub open spec fn spec_opposite(self) -> Facing {
        match self {
            Facing::North => Facing::South,
            Facing::South => Facing::North,
            Facing::East => Facing::West,
            Facing::West => Facing::East,
            Facing::Up => Facing::Down,
            Facing::Down => Facing::Up,
        }
    }

    pub open spec fn spec_from_minecraft(s: Seq<char>) -> Facing {
        if s == "north"@ {
            Facing::North
        } else if s == "south"@ {
            Facing::South
        } else if s == "east"@ {
            Facing::East
        } else if s == "west"@ {
            Facing::West
        } else if s == "up"@ {
            Facing::Up
        } else if s == "down"@ {
            Facing::Down
        } else {
            Facing::North
        }
    }

    /// The (dx, dz) step one block towards this facing; (0, 0) for up and down.
    #[verifier::when_used_as_spec(spec_horizontal_offset)]
    pub fn horizontal_offset(self) -> (r: (i32, i32))
        ensures
            r == self.spec_horizontal_offset(),
    {
        match self {
            Facing::North => (0, -1),
            Facing::South => (0, 1),
            Facing::East => (1, 0),
            Facing::West => (-1, 0),
            _ => (0, 0),
        }
    }

    /// The facing that points the other way.
    #[verifier::when_used_as_spec(spec_opposite)]
    pub fn opposite(self) -> (r: Facing)
        ensures
            r == self.spec_opposite(),
    {
        match self {
            Facing::North => Facing::South,
            Facing::South => Facing::North,
            Facing::East => Facing::West,
            Facing::West => Facing::East,
            Facing::Up => Facing::Down,
            Facing::Down => Facing::Up,
        }
    }

    /// Parse a Minecraft `facing` property value; anything unknown is north.
    pub fn from_minecraft(s: &str) -> (r: Facing)
        ensures
            r == Facing::spec_from_minecraft(s@),
    {
        if str_eq(s, "north") {
            Facing::North
        } else if str_eq(s, "south") {
            Facing::South
        } else if str_eq(s, "east") {
            Facing::East
        } else if str_eq(s, "west") {
            Facing::West
        } else if str_eq(s, "up") {
            Facing::Up
        } else if str_eq(s, "down") {
            Facing::Down
        } else {
            Facing::North
        }
    }
}

/// Turning around twice gives the facing back.
pub proof fn lemma_opposite_involutive(f: Facing)
    ensures
        f.spec_opposite().spec_opposite() == f,
{
}

/// The offset towards the opposite facing is the negated offset.
pub proof fn lemma_opposite_offset(f: Facing)
    ensures
        f.spec_opposite().spec_horizontal_offset().0 == -f.spec_horizontal_offset().0,
        f.spec_opposite().spec_horizontal_offset().1 == -f.spec_horizontal_offset().1,
{
}


// ── Cell ──────────────────────────────────────────────────────────────────────

/// One block position of the virtual world.
#[derive(Debug, Clone, Copy, PartialEq, Eq)]
pub struct Cell {
    pub block: BlockType,
    pub power: u8,
    pub strongly_powered: bool,
    pub weakly_powered: bool,
    pub repeater_timer: u8,
    pub torch_burnout: u8,
}

impl Cell {
    pub open spec fn spec_new(block: BlockType) -> Cell {
        Cell {
            block,
            power: 0,
            strongly_powered: false,
            weakly_powered: false,
            repeater_timer: 0,
            torch_burnout: 0,
        }
    }

    /// Blocks that carry weak power and can be strongly powered.
    pub open spec fn spec_is_solid(&self) -> bool {
        match self.block {
            BlockType::Solid | BlockType::RedstoneLamp | BlockType::RedstoneBlock
            | BlockType::NoteBlock | BlockType::TargetBlock { .. } | BlockType::Piston { .. }
            | BlockType::StickyPiston { .. } | BlockType::Chest | BlockType::TrappedChest
            | BlockType::EnderChest | BlockType::ShulkerBox { .. } | BlockType::Barrel
            | BlockType::Hopper { .. } | BlockType::Dropper { .. } | BlockType::Dispenser { .. }
            | BlockType::Furnace { .. } | BlockType::BlastFurnace { .. } | BlockType::Smoker { .. }
            | BlockType::BrewingStand | BlockType::Observer { .. } | BlockType::SlimeBlock
            | BlockType::HoneyBlock | BlockType::IronDoor { .. } | BlockType::WoodDoor { .. }
            | BlockType::IronTrapdoor { .. } | BlockType::WoodTrapdoor { .. }
            | BlockType::FenceGate { .. } => true,
            _ => false,
        }
    }

    pub open spec fn spec_is_redstone_conductor(&self) -> bool {
        self.spec_is_solid() || match self.block {
            BlockType::Hopper { .. } | BlockType::Dropper { .. } | BlockType::Dispenser { .. } => true,
            _ => false,
        }
    }

    pub open spec fn spec_is_power_source(&self) -> bool {
        match self.block {
            BlockType::RedstoneTorch { lit } => lit,
            BlockType::RedstoneWallTorch { lit, .. } => lit,
            BlockType::RedstoneBlock => true,
            BlockType::Lever { on } => on,
            BlockType::Observer { powered, .. } => powered,
            BlockType::TargetBlock { .. } => true,
            BlockType::DetectorRail { powered } => powered,
            _ => false,
        }
    }

    pub open spec fn spec_source_power(&self) -> u8 {
        match self.block {
            BlockType::RedstoneTorch { lit } => if lit { 15 } else { 0 },
            BlockType::RedstoneWallTorch { lit, .. } => if lit { 15 } else { 0 },
            BlockType::Repeater { .. } => self.power,
            BlockType::Lever { on } => if on { 15 } else { 0 },
            BlockType::StoneButton { pressed, .. } => if pressed { 15 } else { 0 },
            BlockType::WoodButton { pressed, .. } => if pressed { 15 } else { 0 },
            BlockType::RedstoneBlock => 15,
            BlockType::TargetBlock { power } => power,
            BlockType::Observer { powered, .. } => if powered { 15 } else { 0 },
            BlockType::LightWeightedPressurePlate { power } => power,
            BlockType::HeavyWeightedPressurePlate { power } => power,
            BlockType::DetectorRail { powered } => if powered { 15 } else { 0 },
            BlockType::TrappedChest => 1,
            BlockType::Port(mode) => if mode != PortMode::Output && self.strongly_powered {
                self.power
            } else {
                0
            },
            _ => 0,
        }
    }

    /// A fresh cell holding `block`, unpowered and with idle timers.
    #[verifier::when_used_as_spec(spec_new)]
    pub fn new(block: BlockType) -> (c: Cell)
        ensures
            c == Cell::spec_new(block),
    {
        Cell {
            block,
            power: 0,
            strongly_powered: false,
            weakly_powered: false,
            repeater_timer: 0,
            torch_burnout: 0,
        }
    }

    #[verifier::when_used_as_spec(spec_is_solid)]
    fn is_solid(&self) -> (r: bool)
        ensures
            r == self.spec_is_solid(),
    {
        matches!(self.block,
            BlockType::Solid | BlockType::RedstoneLamp | BlockType::RedstoneBlock
            | BlockType::NoteBlock | BlockType::TargetBlock { .. } | BlockType::Piston { .. }
            | BlockType::StickyPiston { .. } | BlockType::Chest | BlockType::TrappedChest
            | BlockType::EnderChest | BlockType::ShulkerBox { .. } | BlockType::Barrel
            | BlockType::Hopper { .. } | BlockType::Dropper { .. } | BlockType::Dispenser { .. }
            | BlockType::Furnace { .. } | BlockType::BlastFurnace { .. } | BlockType::Smoker { .. }
            | BlockType::BrewingStand | BlockType::Observer { .. } | BlockType::SlimeBlock
            | BlockType::HoneyBlock | BlockType::IronDoor { .. } | BlockType::WoodDoor { .. }
            | BlockType::IronTrapdoor { .. } | BlockType::WoodTrapdoor { .. }
            | BlockType::FenceGate { .. })
    }

    /// Blocks that can receive a redstone signal (solid + specific non-solids).
    #[verifier::when_used_as_spec(spec_is_redstone_conductor)]
    pub fn is_redstone_conductor(&self) -> (r: bool)
        ensures
            r == self.spec_is_redstone_conductor(),
    {
        self.is_solid() || matches!(self.block,
            BlockType::Hopper { .. } | BlockType::Dropper { .. } | BlockType::Dispenser { .. })
    }

    /// Whether this block type outputs power by itself.
    #[verifier::when_used_as_spec(spec_is_power_source)]
    pub fn is_power_source(&self) -> (r: bool)
        ensures
            r == self.spec_is_power_source(),
    {
        matches!(self.block,
            BlockType::RedstoneTorch { lit: true }
            | BlockType::RedstoneWallTorch { lit: true, .. }
            | BlockType::RedstoneBlock
            | BlockType::Lever { on: true }
            | BlockType::Observer { powered: true, .. }
            | BlockType::TargetBlock { .. }
            | BlockType::DetectorRail { powered: true })
    }

    /// Power level a source outputs.
    #[verifier::when_used_as_spec(spec_source_power)]
    pub fn source_power(&self) -> (r: u8)
        ensures
            r == self.spec_source_power(),
    {
        match self.block {
            BlockType::RedstoneTorch { lit: true } => 15,
            BlockType::RedstoneWallTorch { lit: true, .. } => 15,
            BlockType::Repeater { .. } if self.power > 0 => self.power,
            BlockType::Lever { on: true } => 15,
            BlockType::StoneButton { pressed: true, .. } => 15,
            BlockType::WoodButton { pressed: true, .. } => 15,
            BlockType::RedstoneBlock => 15,
            BlockType::TargetBlock { power } => power,
            BlockType::Observer { powered: true, .. } => 15,
            BlockType::LightWeightedPressurePlate { power } => power,
            BlockType::HeavyWeightedPressurePlate { power } => power,
            BlockType::DetectorRail { powered: true } => 15,
            // Trapped chest outputs power based on viewers (simplified: 1 per viewer)
            BlockType::TrappedChest => 1,
            BlockType::Port(PortMode::Input) if self.strongly_powered => self.power,
            BlockType::Port(PortMode::Bidirectional) if self.strongly_powered => self.power,
            _ => 0,
        }
    }
}


// ── World geometry ────────────────────────────────────────────────────────────

/// Position of a block in the virtual world: (x, y, z).
pub type Pos = (u32, u32, u32);

/// Grid index of (x, y, z) in a world `w` blocks wide: x fastest, then z, then y.
pub open spec fn cell_index(x: int, y: int, z: int, w: int) -> int {
    x + z * w + y * (w * w)
}

/// (x, y, z) lies inside a world `w` wide and `h` high.
pub open spec fn in_world(x: int, y: int, z: int, w: int, h: int) -> bool {
    0 <= x < w && 0 <= y < h && 0 <= z < w
}

pub open spec fn pos_in_world(p: Pos, w: int, h: int) -> bool {
    in_world(p.0 as int, p.1 as int, p.2 as int, w, h)
}

/// A well-formed update queue: every position lies in the world and none repeats.
pub open spec fn queue_ok(q: Seq<Pos>, w: int, h: int) -> bool {
    &&& q.no_duplicates()
    &&& forall|i: int| 0 <= i < q.len() ==> pos_in_world(#[trigger] q[i], w, h)
}

/// Queue `p` for an update unless it is already pending.
pub open spec fn schedule(q: Seq<Pos>, p: Pos) -> Seq<Pos> {
    if q.contains(p) {
        q
    } else {
        q.push(p)
    }
}

/// Queueing an update: the position is queued afterwards, everything queued
/// before stays queued and in place, a position already queued is not queued
/// again, and a queue without repeats keeps none.
pub proof fn lemma_schedule(q: Seq<Pos>, p: Pos)
    ensures
        schedule(q, p).contains(p),
        schedule(q, p) == if q.contains(p) {
            q
        } else {
            q.push(p)
        },
        forall|p2: Pos| q.contains(p2) ==> #[trigger] schedule(q, p).contains(p2),
        q.no_duplicates() ==> schedule(q, p).no_duplicates(),
{
    if !q.contains(p) {
        let r = q.push(p);
        assert(r[q.len() as int] == p);
        assert forall|p2: Pos| q.contains(p2) implies #[trigger] schedule(q, p).contains(p2) by {
            let k = choose|k: int| 0 <= k < q.len() && q[k] == p2;
            assert(r[k] == p2);
        }
        if q.no_duplicates() {
            assert forall|a: int, b: int| 0 <= a < r.len() && 0 <= b < r.len() && a != b implies r[a] != r[b] by {
                if a == q.len() {
                    assert(q[b] == r[b]);
                } else if b == q.len() {
                    assert(q[a] == r[a]);
                }
            }
        }
    }
}

pub open spec fn schedule_if(q: Seq<Pos>, cond: bool, p: Pos) -> Seq<Pos> {
    if cond {
        schedule(q, p)
    } else {
        q
    }
}

/// Queue the in-world neighbours of (x, y, z): east, west, south, north, below, above.
pub open spec fn schedule_around(q: Seq<Pos>, x: u32, y: u32, z: u32, w: u32, h: u32) -> Seq<Pos> {
    let q1 = schedule_if(q, x + 1 < w, ((x + 1) as u32, y, z));
    let q2 = schedule_if(q1, x > 0, ((x - 1) as u32, y, z));
    let q3 = schedule_if(q2, z + 1 < w, (x, y, (z + 1) as u32));
    let q4 = schedule_if(q3, z > 0, (x, y, (z - 1) as u32));
    let q5 = schedule_if(q4, y > 0, (x, (y - 1) as u32, z));
    schedule_if(q5, y + 1 < h, (x, (y + 1) as u32, z))
}

pub proof fn lemma_cell_index_bounds(x: int, y: int, z: int, w: int, h: int)
    requires
        in_world(x, y, z, w, h),
    ensures
        0 <= cell_index(x, y, z, w) < w * w * h,
        cell_index(x, y, z, w) < (y + 1) * (w * w),
        y * (w * w) <= cell_index(x, y, z, w),
{
    assert(0 <= z * w <= (w - 1) * w) by (nonlinear_arith)
        requires
            0 <= z < w,
    ;
    assert(0 <= y * (w * w)) by (nonlinear_arith)
        requires
            0 <= y,
    ;
    assert((w - 1) * w + w == w * w) by (nonlinear_arith);
    assert(y * (w * w) + w * w == (y + 1) * (w * w)) by (nonlinear_arith);
    assert((y + 1) * (w * w) <= h * (w * w)) by (nonlinear_arith)
        requires
            y + 1 <= h,
            0 <= w,
    ;
    assert(h * (w * w) == w * w * h) by (nonlinear_arith);
}

/// Distinct positions have distinct grid indices.
pub proof fn lemma_cell_index_injective(x1: int, y1: int, z1: int, x2: int, y2: int, z2: int, w: int, h: int)
    requires
        in_world(x1, y1, z1, w, h),
        in_world(x2, y2, z2, w, h),
        cell_index(x1, y1, z1, w) == cell_index(x2, y2, z2, w),
    ensures
        x1 == x2 && y1 == y2 && z1 == z2,
{
    lemma_cell_index_bounds(x1, y1, z1, w, h);
    lemma_cell_index_bounds(x2, y2, z2, w, h);
    if y1 < y2 {
        assert((y1 + 1) * (w * w) <= y2 * (w * w)) by (nonlinear_arith)
            requires
                y1 + 1 <= y2,
                0 <= w,
        ;
    } else if y2 < y1 {
        assert((y2 + 1) * (w * w) <= y1 * (w * w)) by (nonlinear_arith)
            requires
                y2 + 1 <= y1,
                0 <= w,
        ;
    }
    assert(y1 == y2);
    assert(x1 + z1 * w == x2 + z2 * w);
    if z1 < z2 {
        assert((z1 + 1) * w <= z2 * w) by (nonlinear_arith)
            requires
                z1 + 1 <= z2,
                0 <= w,
        ;
        assert((z1 + 1) * w == z1 * w + w) by (nonlinear_arith);
    } else if z2 < z1 {
        assert((z2 + 1) * w <= z1 * w) by (nonlinear_arith)
            requires
                z2 + 1 <= z1,
                0 <= w,
        ;
        assert((z2 + 1) * w == z2 * w + w) by (nonlinear_arith);
    }
}

pub proof fn lemma_world_volume(w: int)
    requires
        0 <= w <= 256,
    ensures
        w * w * w <= 16777216,
        w * w <= 65536,
{
    assert(w * w <= 256 * 256) by (nonlinear_arith)
        requires
            0 <= w <= 256,
    ;
    assert(w * w * w <= 256 * 256 * 256) by (nonlinear_arith)
        requires
            0 <= w <= 256,
            w * w <= 256 * 256,
    ;
}

proof fn lemma_schedule_ok(q: Seq<Pos>, p: Pos, w: int, h: int)
    requires
        queue_ok(q, w, h),
        pos_in_world(p, w, h),
    ensures
        queue_ok(schedule(q, p), w, h),
{
    if !q.contains(p) {
        let q2 = q.push(p);
        assert forall|i: int, j: int| 0 <= i < q2.len() && 0 <= j < q2.len() && i != j implies q2[i]
            != q2[j] by {
            if i == q.len() as int {
                assert(q[j] == q2[j]);
            } else if j == q.len() as int {
                assert(q[i] == q2[i]);
            }
        }
        assert forall|i: int| 0 <= i < q2.len() implies pos_in_world(#[trigger] q2[i], w, h) by {
            if i < q.len() {
                assert(q2[i] == q[i]);
            }
        }
    }
}

/// A port cell driven from outside: input and bidirectional ports take the
/// clamped power level, every other cell is left as it is.
pub open spec fn port_input_applied(c: Cell, power: u8) -> Cell {
    match c.block {
        BlockType::Port(mode) => if mode != PortMode::Output {
            Cell { power: if power <= 15 { power } else { 15 }, strongly_powered: power > 0, ..c }
        } else {
            c
        },
        _ => c,
    }
}

/// What an output or bidirectional port cell shows to the outside; 0 for any other cell.
pub open spec fn port_output_of(c: Cell) -> u8 {
    match c.block {
        BlockType::Port(mode) => if mode != PortMode::Input {
            c.power
        } else {
            0
        },
        _ => 0,
    }
}


// ── Tick rules ────────────────────────────────────────────────────────────────

/// A cell feeds a torch or repeater: it carries power or is powered.
pub open spec fn powered_any(c: Cell) -> bool {
    c.power > 0 || c.strongly_powered || c.weakly_powered
}

pub open spec fn is_torch(b: BlockType) -> bool {
    b is RedstoneTorch || b is RedstoneWallTorch
}

/// The block a torch is attached to is powered: the block below for a
/// standing torch, the block behind for a wall torch.
pub open spec fn torch_attached_powered(g: Seq<Cell>, x: u32, y: u32, z: u32, w: u32, h: u32) -> bool {
    match g[cell_index(x as int, y as int, z as int, w as int)].block {
        BlockType::RedstoneTorch { .. } => y > 0 && powered_any(
            g[cell_index(x as int, y - 1, z as int, w as int)],
        ),
        BlockType::RedstoneWallTorch { facing, .. } => {
            let ax = x + facing.spec_opposite().spec_horizontal_offset().0;
            let az = z + facing.spec_opposite().spec_horizontal_offset().1;
            in_world(ax, y as int, az, w as int, h as int) && powered_any(
                g[cell_index(ax, y as int, az, w as int)],
            )
        },
        _ => false,
    }
}

/// Torch rule: a torch not burnt out is lit exactly when the block it is
/// attached to is unpowered; it then drives power 15 and queues its neighbours.
pub open spec fn torch_rule(g: Seq<Cell>, q: Seq<Pos>, x: u32, y: u32, z: u32, w: u32, h: u32) -> (
    Seq<Cell>,
    Seq<Pos>,
) {
    let i = cell_index(x as int, y as int, z as int, w as int);
    let c = g[i];
    if c.torch_burnout > 0 || !is_torch(c.block) {
        (g, q)
    } else {
        let lit = !torch_attached_powered(g, x, y, z, w, h);
        let block = match c.block {
            BlockType::RedstoneWallTorch { facing, .. } => BlockType::RedstoneWallTorch { lit, facing },
            _ => BlockType::RedstoneTorch { lit },
        };
        let nc = Cell {
            block,
            power: if lit { 15 } else { 0 },
            strongly_powered: lit,
            ..c
        };
        (g.update(i, nc), schedule_around(q, x, y, z, w, h))
    }
}

/// The repeater facing `facing` at (x, y, z) sees a powered input: the
/// block behind it carries power or is strongly powered.
pub open spec fn repeater_input(g: Seq<Cell>, x: u32, y: u32, z: u32, facing: Facing, w: u32, h: u32) -> bool {
    let ax = x + facing.spec_opposite().spec_horizontal_offset().0;
    let az = z + facing.spec_opposite().spec_horizontal_offset().1;
    in_world(ax, y as int, az, w as int, h as int) && (g[cell_index(ax, y as int, az, w as int)].power > 0
        || g[cell_index(ax, y as int, az, w as int)].strongly_powered)
}

/// The repeater at (x, y, z), facing `facing`, switched on: it drives 15,
/// its timer is idle, and the solid block it faces is strongly powered.
pub open spec fn repeater_on(g: Seq<Cell>, x: u32, y: u32, z: u32, facing: Facing, w: u32, h: u32) -> Seq<Cell> {
    let i = cell_index(x as int, y as int, z as int, w as int);
    let g2 = g.update(i, Cell { power: 15, strongly_powered: true, repeater_timer: 0, ..g[i] });
    let ox = x + facing.spec_horizontal_offset().0;
    let oz = z + facing.spec_horizontal_offset().1;
    let oi = cell_index(ox, y as int, oz, w as int);
    if in_world(ox, y as int, oz, w as int, h as int) && g2[oi].spec_is_solid() {
        g2.update(oi, Cell { strongly_powered: true, ..g2[oi] })
    } else {
        g2
    }
}

/// The repeater at (x, y, z) switched off: no power, idle timer.
pub open spec fn repeater_off(g: Seq<Cell>, x: u32, y: u32, z: u32, w: u32) -> Seq<Cell> {
    let i = cell_index(x as int, y as int, z as int, w as int);
    g.update(i, Cell { power: 0, strongly_powered: false, repeater_timer: 0, ..g[i] })
}

/// Repeater rule, on a block update: an unpowered input switches the
/// repeater off; a powered input reaching an idle repeater (off, timer not
/// running) starts its delay, or switches it on at once for no delay; a
/// running timer or a repeater already on is left as it is.
pub open spec fn repeater_rule(g: Seq<Cell>, x: u32, y: u32, z: u32, w: u32, h: u32) -> Seq<Cell> {
    let i = cell_index(x as int, y as int, z as int, w as int);
    let c = g[i];
    match c.block {
        BlockType::Repeater { delay_ticks, facing, .. } => {
            if !repeater_input(g, x, y, z, facing, w, h) {
                repeater_off(g, x, y, z, w)
            } else if c.repeater_timer == 0 && c.power == 0 {
                if delay_ticks == 0 {
                    repeater_on(g, x, y, z, facing, w, h)
                } else {
                    g.update(i, Cell { repeater_timer: delay_ticks, ..c })
                }
            } else {
                g
            }
        },
        _ => g,
    }
}

/// Repeater rule, when its delay runs out: the repeater switches on when
/// its input is still powered, and off otherwise.
pub open spec fn repeater_fire_rule(g: Seq<Cell>, x: u32, y: u32, z: u32, w: u32, h: u32) -> Seq<Cell> {
    let i = cell_index(x as int, y as int, z as int, w as int);
    match g[i].block {
        BlockType::Repeater { facing, .. } => {
            if repeater_input(g, x, y, z, facing, w, h) {
                repeater_on(g, x, y, z, facing, w, h)
            } else {
                repeater_off(g, x, y, z, w)
            }
        },
        _ => g,
    }
}

/// Observer rule: the pulse ends, the observer switches off.
pub open spec fn observer_rule(g: Seq<Cell>, x: u32, y: u32, z: u32, w: u32) -> Seq<Cell> {
    let i = cell_index(x as int, y as int, z as int, w as int);
    let c = g[i];
    match c.block {
        BlockType::Observer { facing, .. } => g.update(
            i,
            Cell { block: BlockType::Observer { facing, powered: false }, power: 0, ..c },
        ),
        _ => g,
    }
}

/// One block update at (x, y, z), dispatched on the block found there.
pub open spec fn update_rule(g: Seq<Cell>, q: Seq<Pos>, p: Pos, w: u32, h: u32) -> (
    Seq<Cell>,
    Seq<Pos>,
) {
    let c = g[cell_index(p.0 as int, p.1 as int, p.2 as int, w as int)];
    if is_torch(c.block) {
        torch_rule(g, q, p.0, p.1, p.2, w, h)
    } else if c.block is Repeater {
        (repeater_rule(g, p.0, p.1, p.2, w, h), q)
    } else if c.block is Observer {
        (observer_rule(g, p.0, p.1, p.2, w), q)
    } else {
        (g, q)
    }
}

/// The block updates at `ps`, applied in order.
pub open spec fn update_all(g: Seq<Cell>, q: Seq<Pos>, ps: Seq<Pos>, w: u32, h: u32) -> (
    Seq<Cell>,
    Seq<Pos>,
)
    decreases ps.len(),
{
    if ps.len() == 0 {
        (g, q)
    } else {
        let r = update_all(g, q, ps.drop_last(), w, h);
        update_rule(r.0, r.1, ps.last(), w, h)
    }
}

/// The update a timer running out at `p` asks for: a repeater fires, any
/// other block takes an ordinary update.
pub open spec fn fire_rule(g: Seq<Cell>, q: Seq<Pos>, p: Pos, w: u32, h: u32) -> (Seq<Cell>, Seq<Pos>) {
    if g[cell_index(p.0 as int, p.1 as int, p.2 as int, w as int)].block is Repeater {
        (repeater_fire_rule(g, p.0, p.1, p.2, w, h), q)
    } else {
        update_rule(g, q, p, w, h)
    }
}

/// The timer updates at `ps`, applied in order.
pub open spec fn fire_all(g: Seq<Cell>, q: Seq<Pos>, ps: Seq<Pos>, w: u32, h: u32) -> (Seq<Cell>, Seq<Pos>)
    decreases ps.len(),
{
    if ps.len() == 0 {
        (g, q)
    } else {
        let r = fire_all(g, q, ps.drop_last(), w, h);
        fire_rule(r.0, r.1, ps.last(), w, h)
    }
}

/// Start of a tick: wires lose their power, nothing stays weakly powered.
pub open spec fn reset_cell(c: Cell) -> Cell {
    Cell { power: if c.block is RedstoneWire { 0 } else { c.power }, weakly_powered: false, ..c }
}

/// A redstone component that strongly powers an adjacent solid block while it carries power.
pub open spec fn strong_driver(c: Cell) -> bool {
    (c.block is Repeater || c.block is Comparator || (c.block matches BlockType::RedstoneTorch {
        lit,
    } && lit) || (c.block matches BlockType::RedstoneWallTorch { lit, .. } && lit)) && c.power > 0
}

/// In-plane neighbour `k` (0: east, 1: west, 2: south, 3: north) of (x, z).
pub open spec fn nbr(x: int, z: int, k: int) -> (int, int) {
    if k == 0 {
        (x + 1, z)
    } else if k == 1 {
        (x - 1, z)
    } else if k == 2 {
        (x, z + 1)
    } else {
        (x, z - 1)
    }
}

/// Some in-world in-plane neighbour of (x, y, z) is a powered strong driver.
pub open spec fn strongly_driven(g: Seq<Cell>, x: int, y: int, z: int, w: int, h: int) -> bool {
    exists|k: int|
        0 <= k < 4 && in_world(nbr(x, z, k).0, y, nbr(x, z, k).1, w, h) && strong_driver(
            #[trigger] g[cell_index(nbr(x, z, k).0, y, nbr(x, z, k).1, w)],
        )
}

/// Solid powering: every solid block is strongly powered exactly when a
/// powered repeater, lit torch or comparator sits next to it in its layer.
pub open spec fn solid_powering_done(g0: Seq<Cell>, g1: Seq<Cell>, w: int, h: int) -> bool {
    &&& g1.len() == g0.len()
    &&& forall|x: int, y: int, z: int|
        in_world(x, y, z, w, h) ==> #[trigger] g1[cell_index(x, y, z, w)] == (if g0[cell_index(
            x,
            y,
            z,
            w,
        )].spec_is_solid() {
            Cell { strongly_powered: strongly_driven(g0, x, y, z, w, h), ..g0[cell_index(x, y, z, w)] }
        } else {
            g0[cell_index(x, y, z, w)]
        })
}

/// A port that takes the level of the circuit around it: an output port,
/// or a bidirectional port not driven from outside.
pub open spec fn receives(c: Cell) -> bool {
    c.block matches BlockType::Port(mode) && (mode == PortMode::Output || (mode == PortMode::Bidirectional
        && !c.strongly_powered))
}

/// The level in-plane neighbour `k` of (x, y, z) carries: a wire's power,
/// any other block's source power; 0 outside the world.
pub open spec fn nbr_level(g: Seq<Cell>, x: int, y: int, z: int, k: int, w: int, h: int) -> int {
    let n = nbr(x, z, k);
    if in_world(n.0, y, n.1, w, h) {
        propagate::level_at(g, g, cell_index(n.0, y, n.1, w))
    } else {
        0
    }
}

/// The strongest level among the first `k` in-plane neighbours of (x, y, z), at least 0.
pub open spec fn max_nbr_level(g: Seq<Cell>, x: int, y: int, z: int, k: int, w: int, h: int) -> int
    decreases k,
{
    if k <= 0 {
        0
    } else {
        let a = max_nbr_level(g, x, y, z, k - 1, w, h);
        let b = nbr_level(g, x, y, z, k - 1, w, h);
        if a >= b {
            a
        } else {
            b
        }
    }
}

/// The level a port at (x, y, z) takes: one less than its strongest
/// neighbour, as a wire there would, and 0 when nothing above 1 is next to it.
pub open spec fn fed_level(g: Seq<Cell>, x: int, y: int, z: int, w: int, h: int) -> int {
    let m = max_nbr_level(g, x, y, z, 4, w, h);
    if m > 1 {
        m - 1
    } else {
        0
    }
}

/// The cell at grid index `i` after ports take the level of their circuit.
pub open spec fn fed_cell(g: Seq<Cell>, i: int, w: int, h: int) -> Cell {
    let p = index_pos(i, w);
    if receives(g[i]) {
        Cell { power: fed_level(g, p.0 as int, p.1 as int, p.2 as int, w, h) as u8, ..g[i] }
    } else {
        g[i]
    }
}

/// Every receiving port set to the level its circuit brings to it.
pub open spec fn ports_fed(g: Seq<Cell>, w: int, h: int) -> Seq<Cell> {
    Seq::new(g.len(), |i: int| fed_cell(g, i, w, h))
}

/// Timers count down by one: a running repeater timer and a torch burnout.
pub open spec fn timer_cell(c: Cell) -> Cell {
    Cell {
        repeater_timer: if c.block is Repeater && c.repeater_timer > 0 {
            (c.repeater_timer - 1) as u8
        } else {
            c.repeater_timer
        },
        torch_burnout: if c.torch_burnout > 0 {
            (c.torch_burnout - 1) as u8
        } else {
            c.torch_burnout
        },
        ..c
    }
}

/// The updates a cell asks for when one of its timers runs out.
pub open spec fn timer_events(c: Cell, p: Pos) -> Seq<Pos> {
    (if c.block is Repeater && c.repeater_timer == 1 {
        seq![p]
    } else {
        Seq::empty()
    }) + (if c.torch_burnout == 1 {
        seq![p]
    } else {
        Seq::empty()
    })
}

/// The position whose grid index is `i`.
pub open spec fn index_pos(i: int, w: int) -> Pos {
    ((i % w) as u32, (i / (w * w)) as u32, ((i / w) % w) as u32)
}

/// Timer events of the first `n` cells, in grid order.
pub open spec fn timer_events_upto(g: Seq<Cell>, w: int, n: int) -> Seq<Pos>
    decreases n,
{
    if n <= 0 {
        Seq::empty()
    } else {
        timer_events_upto(g, w, n - 1) + timer_events(g[n - 1], index_pos(n - 1, w))
    }
}


/// Stepping the scan counters (x fastest, then z, then y) moves to the next grid index.
pub proof fn lemma_scan_step(x: int, y: int, z: int, w: int)
    requires
        0 <= x < w,
        0 <= z < w,
        0 <= y,
    ensures
        x + 1 < w ==> cell_index(x + 1, y, z, w) == cell_index(x, y, z, w) + 1,
        x + 1 == w && z + 1 < w ==> cell_index(0, y, z + 1, w) == cell_index(x, y, z, w) + 1,
        x + 1 == w && z + 1 == w ==> cell_index(0, y + 1, 0, w) == cell_index(x, y, z, w) + 1,
{
    assert((z + 1) * w == z * w + w) by (nonlinear_arith);
    assert((y + 1) * (w * w) == y * (w * w) + w * w) by (nonlinear_arith);
    assert((w - 1) * w + w == w * w) by (nonlinear_arith);
}

/// The position of a grid index is recovered by division.
pub proof fn lemma_index_pos(x: int, y: int, z: int, w: int, h: int)
    requires
        in_world(x, y, z, w, h),
    ensures
        index_pos(cell_index(x, y, z, w), w) == (x as u32, y as u32, z as u32),
{
    let i = cell_index(x, y, z, w);
    assert(i == (z + y * w) * w + x) by (nonlinear_arith)
        requires
            i == x + z * w + y * (w * w),
    ;
    vstd::arithmetic::div_mod::lemma_fundamental_div_mod_converse(i, w, z + y * w, x);
    assert(0 <= y * w) by (nonlinear_arith)
        requires
            0 <= y,
            0 <= w,
    ;
    vstd::arithmetic::div_mod::lemma_fundamental_div_mod_converse(i / w, w, y, z);
    assert(0 <= z * w <= (w - 1) * w) by (nonlinear_arith)
        requires
            0 <= z < w,
    ;
    assert((w - 1) * w + w == w * w) by (nonlinear_arith);
    vstd::arithmetic::div_mod::lemma_fundamental_div_mod_converse(i, w * w, y, x + z * w);
}

/// Every cell with its timers counted down.
pub open spec fn timers_applied(g: Seq<Cell>) -> Seq<Cell> {
    Seq::new(g.len(), |i: int| timer_cell(g[i]))
}

/// Scan counters (x fastest, then z, then y) positioned at grid index `i` of an `n`-cell world.
pub open spec fn scan_at(i: int, x: int, y: int, z: int, w: int, h: int) -> bool {
    &&& i == cell_index(x, y, z, w)
    &&& 0 <= x < w
    &&& 0 <= z < w
    &&& 0 <= y <= h
    &&& (y == h ==> x == 0 && z == 0)
}

/// In-plane neighbour `k` of (x, z) as signed coordinates.
fn nbr_of(x: u32, z: u32, k: u32) -> (r: (i32, i32))
    requires
        x < 256,
        z < 256,
        k < 4,
    ensures
        (r.0 as int, r.1 as int) == nbr(x as int, z as int, k as int),
{
    if k == 0 {
        (x as i32 + 1, z as i32)
    } else if k == 1 {
        (x as i32 - 1, z as i32)
    } else if k == 2 {
        (x as i32, z as i32 + 1)
    } else {
        (x as i32, z as i32 - 1)
    }
}

fn is_strong_driver(c: &Cell) -> (r: bool)
    ensures
        r == strong_driver(*c),
{
    matches!(c.block,
        BlockType::Repeater { .. }
        | BlockType::RedstoneTorch { lit: true }
        | BlockType::RedstoneWallTorch { lit: true, .. }
        | BlockType::Comparator { .. }) && c.power > 0
}

/// Every cell as it enters a tick: wires unpowered, nothing weakly powered.
pub open spec fn reset_all(g: Seq<Cell>) -> Seq<Cell> {
    Seq::new(g.len(), |i: int| reset_cell(g[i]))
}

/// No wire carries power.
pub open spec fn wires_unpowered(g: Seq<Cell>) -> bool {
    forall|i: int| 0 <= i < g.len() && (#[trigger] g[i]).block is RedstoneWire ==> g[i].power == 0
}

/// One tick: wires reset, queued updates applied in order (queueing new
/// ones), power propagated (`propagation_done`), output ports given the
/// level of their circuit (`ports_fed`), solid blocks re-powered
/// (`solid_powering_done`), timers counted down and the updates they fire applied.
pub open spec fn step_done(w: u32, h: u32, g0: Seq<Cell>, q0: Seq<Pos>, g1: Seq<Cell>, q1: Seq<Pos>) -> bool {
    let a = update_all(reset_all(g0), Seq::empty(), q0, w, h);
    exists|gb: Seq<Cell>, gc: Seq<Cell>|
        #[trigger] propagate::propagation_done(a.0, gb, w as int, h as int) && #[trigger] solid_powering_done(
            ports_fed(gb, w as int, h as int),
            gc,
            w as int,
            h as int,
        ) && (g1, q1) == fire_all(
            timers_applied(gc),
            a.1,
            timer_events_upto(gc, w as int, gc.len() as int),
            w,
            h,
        )
}

/// What a block update does to a torch that is not burnt out: the torch is
/// lit exactly when the block it hangs on (the block below a standing torch,
/// the block behind a wall torch; none outside the world) carries no power
/// and is neither strongly nor weakly powered. A lit torch drives 15 and is
/// strongly powered; an unlit one drives nothing. It keeps its kind and facing.
pub proof fn lemma_torch_update(g: Seq<Cell>, q: Seq<Pos>, p: Pos, w: u32, h: u32)
    requires
        pos_in_world(p, w as int, h as int),
        g.len() == w * w * h,
        is_torch(g[cell_index(p.0 as int, p.1 as int, p.2 as int, w as int)].block),
        g[cell_index(p.0 as int, p.1 as int, p.2 as int, w as int)].torch_burnout == 0,
    ensures
        ({
            let (x, y, z) = (p.0 as int, p.1 as int, p.2 as int);
            let i = cell_index(x, y, z, w as int);
            let c0 = g[i];
            let c = update_rule(g, q, p, w, h).0[i];
            let attached: Option<int> = match c0.block {
                BlockType::RedstoneWallTorch { facing, .. } => {
                    let ax = x + facing.spec_opposite().spec_horizontal_offset().0;
                    let az = z + facing.spec_opposite().spec_horizontal_offset().1;
                    if 0 <= ax < w && 0 <= az < w {
                        Some(cell_index(ax, y, az, w as int))
                    } else {
                        None
                    }
                },
                _ => if y > 0 {
                    Some(cell_index(x, y - 1, z, w as int))
                } else {
                    None
                },
            };
            let powered = match attached {
                Some(a) => g[a].power > 0 || g[a].strongly_powered || g[a].weakly_powered,
                None => false,
            };
            &&& update_rule(g, q, p, w, h).0.len() == g.len()
            &&& (c0.block is RedstoneTorch ==> c.block == BlockType::RedstoneTorch { lit: !powered })
            &&& (c0.block matches BlockType::RedstoneWallTorch { facing, .. } ==> c.block
                == BlockType::RedstoneWallTorch { lit: !powered, facing })
            &&& c.power == if powered { 0u8 } else { 15u8 }
            &&& c.strongly_powered == !powered
        }),
{
    lemma_cell_index_bounds(p.0 as int, p.1 as int, p.2 as int, w as int, h as int);
}

/// What happens to a repeater, in terms of the block behind it (its input:
/// powered when it carries power or is strongly powered) and its timer:
/// - on a block update, an unpowered input switches it off (no power, idle
///   timer); a powered input reaching it idle (off, timer at 0) starts the
///   delay with the repeater still off, or, for no delay, switches it on;
///   a running or already-on repeater is left as it is;
/// - when its delay runs out it is on (power 15, strongly powered, idle
///   timer, and the solid block it faces strongly powered) if its input is
///   still powered, and off otherwise.
/// It keeps its kind, delay and facing throughout.
pub proof fn lemma_repeater_behaviour(g: Seq<Cell>, q: Seq<Pos>, p: Pos, w: u32, h: u32)
    requires
        pos_in_world(p, w as int, h as int),
        g.len() == w * w * h,
        g[cell_index(p.0 as int, p.1 as int, p.2 as int, w as int)].block is Repeater,
    ensures
        ({
            let (x, y, z) = (p.0 as int, p.1 as int, p.2 as int);
            let i = cell_index(x, y, z, w as int);
            let c0 = g[i];
            let (delay, facing) = match c0.block {
                BlockType::Repeater { delay_ticks, facing, .. } => (delay_ticks, facing),
                _ => (0u8, Facing::North),
            };
            let bx = x - facing.spec_horizontal_offset().0;
            let bz = z - facing.spec_horizontal_offset().1;
            let input = 0 <= bx < w && 0 <= bz < w && (g[cell_index(bx, y, bz, w as int)].power > 0 || g[cell_index(
                bx,
                y,
                bz,
                w as int,
            )].strongly_powered);
            let fx = x + facing.spec_horizontal_offset().0;
            let fz = z + facing.spec_horizontal_offset().1;
            let u = update_rule(g, q, p, w, h).0;
            let f = fire_rule(g, q, p, w, h).0;
            &&& u.len() == g.len() && f.len() == g.len()
            &&& u[i].block == c0.block && f[i].block == c0.block
            &&& update_rule(g, q, p, w, h).1 == q && fire_rule(g, q, p, w, h).1 == q
            &&& !input ==> u[i].power == 0 && !u[i].strongly_powered && u[i].repeater_timer == 0
            &&& input && c0.repeater_timer == 0 && c0.power == 0 && delay > 0 ==> u[i].repeater_timer == delay
                && u[i].power == 0 && !u[i].strongly_powered == !c0.strongly_powered
            &&& input && c0.repeater_timer == 0 && c0.power == 0 && delay == 0 ==> u[i].power == 15
                && u[i].strongly_powered
            &&& input && (c0.repeater_timer > 0 || c0.power > 0) ==> u == g
            &&& input ==> f[i].power == 15 && f[i].strongly_powered && f[i].repeater_timer == 0
            &&& !input ==> f[i].power == 0 && !f[i].strongly_powered && f[i].repeater_timer == 0
            &&& (input && 0 <= fx < w && 0 <= fz < w && g[cell_index(fx, y, fz, w as int)].spec_is_solid()) ==> f[cell_index(
                fx,
                y,
                fz,
                w as int,
            )].strongly_powered
        }),
{
    let (x, y, z) = (p.0 as int, p.1 as int, p.2 as int);
    lemma_cell_index_bounds(x, y, z, w as int, h as int);
    match g[cell_index(x, y, z, w as int)].block {
        BlockType::Repeater { facing, .. } => {
            lemma_opposite_offset(facing);
            let fx = x + facing.spec_horizontal_offset().0;
            let fz = z + facing.spec_horizontal_offset().1;
            let bx = x - facing.spec_horizontal_offset().0;
            let bz = z - facing.spec_horizontal_offset().1;
            if 0 <= fx < w && 0 <= fz < w {
                lemma_cell_index_bounds(fx, y, fz, w as int, h as int);
                if cell_index(fx, y, fz, w as int) == cell_index(x, y, z, w as int) {
                    lemma_cell_index_injective(fx, y, fz, x, y, z, w as int, h as int);
                }
            }
            if 0 <= bx < w && 0 <= bz < w {
                lemma_cell_index_bounds(bx, y, bz, w as int, h as int);
            }
        },
        _ => {},
    }
}

proof fn lemma_max_nbr_level(g: Seq<Cell>, x: int, y: int, z: int, k: int, w: int, h: int)
    requires
        0 <= k <= 4,
    ensures
        max_nbr_level(g, x, y, z, k, w, h) >= 0,
        forall|j: int| 0 <= j < k ==> max_nbr_level(g, x, y, z, k, w, h) >= #[trigger] nbr_level(g, x, y, z, j, w, h),
        max_nbr_level(g, x, y, z, k, w, h) == 0 || exists|j: int|
            0 <= j < k && max_nbr_level(g, x, y, z, k, w, h) == #[trigger] nbr_level(g, x, y, z, j, w, h),
    decreases k,
{
    if k > 0 {
        lemma_max_nbr_level(g, x, y, z, k - 1, w, h);
    }
}

/// After a tick's propagation, every output port, and every bidirectional
/// port not driven from outside, carries one less than the strongest level
/// next to it in its layer (a wire's power, any other block's source power),
/// as a wire would: at least L - 1 for every neighbour of level L above 1,
/// and, when above 0, exactly one less than some neighbour. Every other
/// cell, and everything but a port's power, is left alone.
pub proof fn lemma_ports_take_circuit_level(g: Seq<Cell>, w: int, h: int, x: int, y: int, z: int)
    requires
        in_world(x, y, z, w, h),
        w <= 256,
        h <= 256,
        g.len() == w * w * h,
    ensures
        ({
            let i = cell_index(x, y, z, w);
            let c0 = g[i];
            let c = ports_fed(g, w, h)[i];
            let takes = c0.block matches BlockType::Port(m) && (m == PortMode::Output || (m == PortMode::Bidirectional
                && !c0.strongly_powered));
            &&& ports_fed(g, w, h).len() == g.len()
            &&& !takes ==> c == c0
            &&& takes ==> c.block == c0.block && c.strongly_powered == c0.strongly_powered && c.weakly_powered
                == c0.weakly_powered
            &&& takes ==> forall|k: int|
                0 <= k < 4 && in_world(nbr(x, z, k).0, y, nbr(x, z, k).1, w, h) ==> {
                    let n = #[trigger] g[cell_index(nbr(x, z, k).0, y, nbr(x, z, k).1, w)];
                    let l: int = if n.block is RedstoneWire {
                        n.power as int
                    } else {
                        n.spec_source_power() as int
                    };
                    l > 1 ==> c.power >= l - 1
                }
            &&& takes && c.power > 0 ==> exists|k: int|
                0 <= k < 4 && in_world(nbr(x, z, k).0, y, nbr(x, z, k).1, w, h) && {
                    let n = #[trigger] g[cell_index(nbr(x, z, k).0, y, nbr(x, z, k).1, w)];
                    (if n.block is RedstoneWire {
                        n.power as int
                    } else {
                        n.spec_source_power() as int
                    }) == c.power + 1
                }
        }),
{
    lemma_cell_index_bounds(x, y, z, w, h);
    lemma_index_pos(x, y, z, w, h);
    lemma_max_nbr_level(g, x, y, z, 4, w, h);
    let i = cell_index(x, y, z, w);
    assert(index_pos(i, w) == (x as u32, y as u32, z as u32));
    assert forall|k: int| 0 <= k < 4 && in_world(nbr(x, z, k).0, y, nbr(x, z, k).1, w, h) implies {
        let n = #[trigger] g[cell_index(nbr(x, z, k).0, y, nbr(x, z, k).1, w)];
        nbr_level(g, x, y, z, k, w, h) == if n.block is RedstoneWire {
            n.power as int
        } else {
            n.spec_source_power() as int
        }
    } by {}
    let m = max_nbr_level(g, x, y, z, 4, w, h);
    if m > 1 {
        let j = choose|j: int| 0 <= j < 4 && m == #[trigger] nbr_level(g, x, y, z, j, w, h);
        assert(nbr_level(g, x, y, z, j, w, h) > 0);
        assert(in_world(nbr(x, z, j).0, y, nbr(x, z, j).1, w, h));
        let n = g[cell_index(nbr(x, z, j).0, y, nbr(x, z, j).1, w)];
        assert(m <= 255);
    }
}

/// After solid powering, a solid block is strongly powered exactly when a
/// repeater, a comparator or a lit torch carrying power stands next to it in
/// its layer; blocks that are not solid are left alone, and nothing but the
/// strong power of solid blocks changes.
pub proof fn lemma_solid_powering(g0: Seq<Cell>, g1: Seq<Cell>, w: int, h: int, x: int, y: int, z: int)
    requires
        solid_powering_done(g0, g1, w, h),
        in_world(x, y, z, w, h),
    ensures
        ({
            let i = cell_index(x, y, z, w);
            let driven = exists|k: int|
                #![trigger nbr(x, z, k)]
                0 <= k < 4 && in_world(nbr(x, z, k).0, y, nbr(x, z, k).1, w, h) && {
                    let n = g0[cell_index(nbr(x, z, k).0, y, nbr(x, z, k).1, w)];
                    (n.block is Repeater || n.block is Comparator || n.block == (BlockType::RedstoneTorch { lit: true })
                        || n.block matches BlockType::RedstoneWallTorch { lit: true, .. }) && n.power > 0
                };
            &&& g0[i].spec_is_solid() ==> g1[i] == (Cell { strongly_powered: driven, ..g0[i] })
            &&& !g0[i].spec_is_solid() ==> g1[i] == g0[i]
        }),
{
    let i = cell_index(x, y, z, w);
    assert(g1[cell_index(x, y, z, w)] == (if g0[cell_index(x, y, z, w)].spec_is_solid() {
        Cell { strongly_powered: strongly_driven(g0, x, y, z, w, h), ..g0[cell_index(x, y, z, w)] }
    } else {
        g0[cell_index(x, y, z, w)]
    }));
    let driven = exists|k: int|
        #![trigger nbr(x, z, k)]
        0 <= k < 4 && in_world(nbr(x, z, k).0, y, nbr(x, z, k).1, w, h) && {
            let n = g0[cell_index(nbr(x, z, k).0, y, nbr(x, z, k).1, w)];
            (n.block is Repeater || n.block is Comparator || n.block == (BlockType::RedstoneTorch { lit: true })
                || n.block matches BlockType::RedstoneWallTorch { lit: true, .. }) && n.power > 0
        };
    assert(strongly_driven(g0, x, y, z, w, h) == driven) by {
        if strongly_driven(g0, x, y, z, w, h) {
            let k = choose|k: int|
                0 <= k < 4 && in_world(nbr(x, z, k).0, y, nbr(x, z, k).1, w, h) && strong_driver(
                    #[trigger] g0[cell_index(nbr(x, z, k).0, y, nbr(x, z, k).1, w)],
                );
            assert(nbr(x, z, k) == nbr(x, z, k));
        }
        if driven {
            let k = choose|k: int|
                #![trigger nbr(x, z, k)]
                0 <= k < 4 && in_world(nbr(x, z, k).0, y, nbr(x, z, k).1, w, h) && {
                    let n = g0[cell_index(nbr(x, z, k).0, y, nbr(x, z, k).1, w)];
                    (n.block is Repeater || n.block is Comparator || n.block == (BlockType::RedstoneTorch { lit: true })
                        || n.block matches BlockType::RedstoneWallTorch { lit: true, .. }) && n.power > 0
                };
            assert(strong_driver(g0[cell_index(nbr(x, z, k).0, y, nbr(x, z, k).1, w)]));
        }
    }
}

pub proof fn lemma_update_rule_keeps_wires(g: Seq<Cell>, q: Seq<Pos>, p: Pos, w: u32, h: u32)
    requires
        wires_unpowered(g),
        pos_in_world(p, w as int, h as int),
        g.len() == w * w * h,
    ensures
        wires_unpowered(update_rule(g, q, p, w, h).0),
        update_rule(g, q, p, w, h).0.len() == g.len(),
{
    lemma_cell_index_bounds(p.0 as int, p.1 as int, p.2 as int, w as int, h as int);
    let pi = cell_index(p.0 as int, p.1 as int, p.2 as int, w as int);
    let c = g[pi];
    let r = update_rule(g, q, p, w, h).0;
    if is_torch(c.block) {
        assert(r == torch_rule(g, q, p.0, p.1, p.2, w, h).0);
    } else if c.block is Repeater {
        let (x, y, z) = (p.0, p.1, p.2);
        assert(r == repeater_rule(g, x, y, z, w, h));
        match c.block {
            BlockType::Repeater { delay_ticks, facing, .. } => {
                let ox = x + facing.spec_horizontal_offset().0;
                let oz = z + facing.spec_horizontal_offset().1;
                if in_world(ox, y as int, oz, w as int, h as int) {
                    lemma_cell_index_bounds(ox, y as int, oz, w as int, h as int);
                }
            },
            _ => {},
        }
    }
    assert forall|i: int| 0 <= i < r.len() && (#[trigger] r[i]).block is RedstoneWire implies r[i].power == 0 by {
        assert(r[i] == g[i] || i == pi || (g[i].spec_is_solid() && r[i].block == g[i].block));
        assert(g[i].block is RedstoneWire);
    }
}

pub proof fn lemma_update_all_keeps_wires(g: Seq<Cell>, q: Seq<Pos>, ps: Seq<Pos>, w: u32, h: u32)
    requires
        wires_unpowered(g),
        forall|j: int| 0 <= j < ps.len() ==> pos_in_world(#[trigger] ps[j], w as int, h as int),
        g.len() == w * w * h,
    ensures
        wires_unpowered(update_all(g, q, ps, w, h).0),
        update_all(g, q, ps, w, h).0.len() == g.len(),
    decreases ps.len(),
{
    if ps.len() > 0 {
        lemma_update_all_keeps_wires(g, q, ps.drop_last(), w, h);
        let r = update_all(g, q, ps.drop_last(), w, h);
        lemma_update_rule_keeps_wires(r.0, r.1, ps.last(), w, h);
    }
}

/// An output or bidirectional port: a cell the outside world reads.
pub open spec fn is_output_port(c: Cell) -> bool {
    c.block matches BlockType::Port(mode) && mode != PortMode::Input
}

/// Output ports among the first `n` cells of row z of layer y, as (x, z, power).
pub open spec fn row_outputs(g: Seq<Cell>, w: int, y: int, z: int, n: int) -> Seq<(u32, u32, u8)>
    decreases n,
{
    if n <= 0 {
        Seq::empty()
    } else {
        let c = g[cell_index(n - 1, y, z, w)];
        row_outputs(g, w, y, z, n - 1) + if is_output_port(c) {
            seq![((n - 1) as u32, z as u32, c.power)]
        } else {
            Seq::empty()
        }
    }
}

/// Output ports of the first `nz` rows of layer y, row by row.
pub open spec fn layer_outputs(g: Seq<Cell>, w: int, y: int, nz: int) -> Seq<(u32, u32, u8)>
    decreases nz,
{
    if nz <= 0 {
        Seq::empty()
    } else {
        layer_outputs(g, w, y, nz - 1) + row_outputs(g, w, y, nz - 1, w)
    }
}

/// Driving a port at (x, y, z) with `power`, as `set_port_input` does.
pub open spec fn port_input_rule(g: Seq<Cell>, q: Seq<Pos>, x: u32, y: u32, z: u32, power: u8, w: u32, h: u32) -> (
    Seq<Cell>,
    Seq<Pos>,
) {
    if in_world(x as int, y as int, z as int, w as int, h as int) {
        let i = cell_index(x as int, y as int, z as int, w as int);
        (g.update(i, port_input_applied(g[i], power)), schedule(q, (x, y, z)))
    } else {
        (g, q)
    }
}

/// Driving the ports of layer y listed as (x, z, power), in order.
pub open spec fn write_all(g: Seq<Cell>, q: Seq<Pos>, y: u32, inputs: Seq<(u32, u32, u8)>, w: u32, h: u32) -> (
    Seq<Cell>,
    Seq<Pos>,
)
    decreases inputs.len(),
{
    if inputs.len() == 0 {
        (g, q)
    } else {
        let r = write_all(g, q, y, inputs.drop_last(), w, h);
        let e = inputs.last();
        port_input_rule(r.0, r.1, e.0, y, e.1, e.2, w, h)
    }
}

/// The power last written to the port at (x, z) in `inputs`, if any.
pub open spec fn last_input(inputs: Seq<(u32, u32, u8)>, x: u32, z: u32) -> Option<u8>
    decreases inputs.len(),
{
    if inputs.len() == 0 {
        None
    } else if inputs.last().0 == x && inputs.last().1 == z {
        Some(inputs.last().2)
    } else {
        last_input(inputs.drop_last(), x, z)
    }
}

/// Driving a port twice leaves it as the second drive does.
pub proof fn lemma_port_input_twice(c: Cell, p1: u8, p2: u8)
    ensures
        port_input_applied(port_input_applied(c, p1), p2) == port_input_applied(c, p2),
{
}

/// Writing a list of inputs, as `write_inputs` does (one `set_port_input`
/// per entry, in order): the port at an in-world (x, y, z) ends as the last
/// entry for (x, z) drives it, and is untouched when no entry names it;
/// entries outside the world change nothing; the queue gains each written
/// in-world position once.
pub proof fn lemma_write_all_cell(g: Seq<Cell>, q: Seq<Pos>, y: u32, inputs: Seq<(u32, u32, u8)>, w: u32, h: u32, x: u32, z: u32)
    requires
        g.len() == w * w * h,
        in_world(x as int, y as int, z as int, w as int, h as int),
    ensures
        write_all(g, q, y, inputs, w, h).0.len() == g.len(),
        write_all(g, q, y, inputs, w, h).0[cell_index(x as int, y as int, z as int, w as int)] == match last_input(
            inputs,
            x,
            z,
        ) {
            Some(p) => port_input_applied(g[cell_index(x as int, y as int, z as int, w as int)], p),
            None => g[cell_index(x as int, y as int, z as int, w as int)],
        },
        forall|p: Pos| q.contains(p) ==> #[trigger] write_all(g, q, y, inputs, w, h).1.contains(p),
        last_input(inputs, x, z) is Some ==> write_all(g, q, y, inputs, w, h).1.contains((x, y, z)),
    decreases inputs.len(),
{
    let i = cell_index(x as int, y as int, z as int, w as int);
    lemma_cell_index_bounds(x as int, y as int, z as int, w as int, h as int);
    if inputs.len() > 0 {
        lemma_write_all_cell(g, q, y, inputs.drop_last(), w, h, x, z);
        let r = write_all(g, q, y, inputs.drop_last(), w, h);
        let e = inputs.last();
        if in_world(e.0 as int, y as int, e.1 as int, w as int, h as int) {
            let ei = cell_index(e.0 as int, y as int, e.1 as int, w as int);
            lemma_cell_index_bounds(e.0 as int, y as int, e.1 as int, w as int, h as int);
            if e.0 == x && e.1 == z {
                match last_input(inputs.drop_last(), x, z) {
                    Some(p) => lemma_port_input_twice(g[i], p, e.2),
                    None => {},
                }
            } else {
                if ei == i {
                    lemma_cell_index_injective(e.0 as int, y as int, e.1 as int, x as int, y as int, z as int, w as int, h as int);
                }
            }
            lemma_schedule(r.1, (e.0, y, e.1));
        }
    }
}

// ── VM ────────────────────────────────────────────────────────────────────────

/// The redstone simulation of one chip: a cubic grid of cells, a queue of
/// pending block updates and a tick counter.
pub struct RedstoneVM {
    pub tier: Tier,
    pub width: u32,
    pub height: u32,
    pub grid: Vec<Cell>,
    pub updates: VecDeque<Pos>,
    pub tick: u64,
}

impl RedstoneVM {
    /// The cells of the world, indexed by `cell_index`.
    pub open spec fn cells(&self) -> Seq<Cell> {
        self.grid@
    }

    /// Positions queued for an update at the next step, oldest first.
    pub open spec fn pending(&self) -> Seq<Pos> {
        self.updates@
    }

    pub open spec fn wf(&self) -> bool {
        &&& self.width == self.tier.spec_world_size()
        &&& self.height == self.width
        &&& self.cells().len() == self.width * self.width * self.height
        &&& queue_ok(self.pending(), self.width as int, self.height as int)
    }

    /// The cell at (x, y, z).
    pub open spec fn at(&self, x: int, y: int, z: int) -> Cell {
        self.cells()[cell_index(x, y, z, self.width as int)]
    }

    /// Tier, dimensions and tick counter are those of `other`.
    pub open spec fn same_header(&self, other: &RedstoneVM) -> bool {
        &&& self.tier == other.tier
        &&& self.width == other.width
        &&& self.height == other.height
        &&& self.tick == other.tick
    }

    /// An empty (all-air) world for `tier`, with nothing queued and the tick at 0.
    pub fn new(tier: Tier) -> (vm: RedstoneVM)
        ensures
            vm.wf(),
            vm.tier == tier,
            vm.width == tier.spec_world_size(),
            vm.height == tier.spec_world_size(),
            vm.tick == 0,
            vm.pending() == Seq::<Pos>::empty(),
            forall|i: int| 0 <= i < vm.cells().len() ==> vm.cells()[i] == Cell::spec_new(BlockType::Air),
    {
        let size = tier.world_size();
        proof {
            lemma_world_volume(size as int);
        }
        let cell_count = (size * size * size) as usize;
        let mut grid: Vec<Cell> = Vec::new();
        let mut i: usize = 0;
        while i < cell_count
            invariant
                i <= cell_count,
                grid@.len() == i,
                forall|j: int| 0 <= j < i ==> grid@[j] == Cell::spec_new(BlockType::Air),
            decreases cell_count - i,
        {
            grid.push(Cell::new(BlockType::Air));
            i += 1;
        }
        RedstoneVM { tier, width: size, height: size, grid, updates: VecDeque::new(), tick: 0 }
    }

    #[inline]
    fn idx_static(x: u32, y: u32, z: u32, w: u32) -> (r: usize)
        requires
            x < w,
            z < w,
            y < w,
            w <= 256,
        ensures
            r == cell_index(x as int, y as int, z as int, w as int),
    {
        proof {
            lemma_world_volume(w as int);
            lemma_cell_index_bounds(x as int, y as int, z as int, w as int, w as int);
            assert(z * w <= 65536) by (nonlinear_arith)
                requires
                    z < w,
                    w <= 256,
            ;
            assert(y * w <= 65536) by (nonlinear_arith)
                requires
                    y < w,
                    w <= 256,
            ;
            assert(y * w * w <= 16777216) by (nonlinear_arith)
                requires
                    y < w,
                    w <= 256,
            ;
            assert(y * w * w == y * (w * w)) by (nonlinear_arith);
        }
        (x + z * w + y * w * w) as usize
    }

    #[inline]
    fn in_bounds(&self, x: i32, y: i32, z: i32) -> (r: bool)
        ensures
            r == in_world(x as int, y as int, z as int, self.width as int, self.height as int),
    {
        x >= 0 && (x as u32) < self.width && y >= 0 && (y as u32) < self.height && z >= 0 && (z
            as u32) < self.width
    }

    /// The cell at (x, y, z).
    pub fn cell(&self, x: u32, y: u32, z: u32) -> (c: &Cell)
        requires
            self.wf(),
            in_world(x as int, y as int, z as int, self.width as int, self.height as int),
        ensures
            *c == self.at(x as int, y as int, z as int),
    {
        proof {
            lemma_world_size_bounds(self.tier);
            lemma_cell_index_bounds(x as int, y as int, z as int, self.width as int, self.height as int);
        }
        &self.grid[Self::idx_static(x, y, z, self.width)]
    }

    fn schedule_update(&mut self, x: u32, y: u32, z: u32)
        requires
            old(self).wf(),
            in_world(x as int, y as int, z as int, old(self).width as int, old(self).height as int),
        ensures
            final(self).wf(),
            final(self).same_header(old(self)),
            final(self).cells() == old(self).cells(),
            final(self).pending() == schedule(old(self).pending(), (x, y, z)),
    {
        let n = self.updates.len();
        let mut i: usize = 0;
        let mut found = false;
        while i < n && !found
            invariant
                n == self.updates@.len(),
                i <= n,
                found == exists|j: int| 0 <= j < i && self.updates@[j] == (x, y, z),
            decreases n - i,
        {
            let (ux, uy, uz) = self.updates[i];
            if ux == x && uy == y && uz == z {
                found = true;
            }
            i += 1;
        }
        proof {
            if !found {
                assert(!self.updates@.contains((x, y, z)));
            }
            lemma_schedule_ok(self.updates@, (x, y, z), self.width as int, self.height as int);
        }
        if !found {
            self.updates.push_back((x, y, z));
        }
    }

    /// Queue every in-world neighbour of (x, y, z) for an update.
    fn schedule_neighbors(&mut self, x: u32, y: u32, z: u32)
        requires
            old(self).wf(),
            in_world(x as int, y as int, z as int, old(self).width as int, old(self).height as int),
        ensures
            final(self).wf(),
            final(self).same_header(old(self)),
            final(self).cells() == old(self).cells(),
            final(self).pending() == schedule_around(
                old(self).pending(),
                x,
                y,
                z,
                old(self).width,
                old(self).height,
            ),
    {
        if self.in_bounds(x as i32 + 1, y as i32, z as i32) {
            self.schedule_update(x + 1, y, z);
        }
        if self.in_bounds(x as i32 - 1, y as i32, z as i32) {
            self.schedule_update(x - 1, y, z);
        }
        if self.in_bounds(x as i32, y as i32, z as i32 + 1) {
            self.schedule_update(x, y, z + 1);
        }
        if self.in_bounds(x as i32, y as i32, z as i32 - 1) {
            self.schedule_update(x, y, z - 1);
        }
        if y > 0 {
            self.schedule_update(x, y - 1, z);
        }
        if y + 1 < self.height {
            self.schedule_update(x, y + 1, z);
        }
    }

    /// Place `block` at (x, y, z) as a fresh cell and queue it and its
    /// neighbours for an update.
    pub fn set_block(&mut self, x: u32, y: u32, z: u32, block: BlockType)
        requires
            old(self).wf(),
            in_world(x as int, y as int, z as int, old(self).width as int, old(self).height as int),
        ensures
            final(self).wf(),
            final(self).same_header(old(self)),
            final(self).cells() == old(self).cells().update(
                cell_index(x as int, y as int, z as int, old(self).width as int),
                Cell::spec_new(block),
            ),
            final(self).pending() == schedule_around(
                schedule(old(self).pending(), (x, y, z)),
                x,
                y,
                z,
                old(self).width,
                old(self).height,
            ),
    {
        proof {
            lemma_world_size_bounds(self.tier);
            lemma_cell_index_bounds(x as int, y as int, z as int, self.width as int, self.height as int);
        }
        let i = Self::idx_static(x, y, z, self.width);
        self.grid.set(i, Cell::new(block));
        self.schedule_update(x, y, z);
        self.schedule_neighbors(x, y, z);
    }

    /// Drive an input or bidirectional port at (x, y, z) with `power`
    /// (clamped to 15) and queue it for an update; outside the world nothing happens.
    pub fn set_port_input(&mut self, x: u32, y: u32, z: u32, power: u8)
        requires
            old(self).wf(),
        ensures
            final(self).wf(),
            final(self).same_header(old(self)),
            in_world(x as int, y as int, z as int, old(self).width as int, old(self).height as int)
                ==> {
                &&& final(self).cells() == old(self).cells().update(
                    cell_index(x as int, y as int, z as int, old(self).width as int),
                    port_input_applied(old(self).at(x as int, y as int, z as int), power),
                )
                &&& final(self).pending() == schedule(old(self).pending(), (x, y, z))
            },
            !in_world(x as int, y as int, z as int, old(self).width as int, old(self).height as int)
                ==> final(self).cells() == old(self).cells() && final(self).pending() == old(
                self,
            ).pending(),
            (final(self).cells(), final(self).pending()) == port_input_rule(
                old(self).cells(),
                old(self).pending(),
                x,
                y,
                z,
                power,
                old(self).width,
                old(self).height,
            ),
    {
        if !(x < self.width && y < self.height && z < self.width) {
            return ;
        }
        proof {
            lemma_world_size_bounds(self.tier);
            lemma_cell_index_bounds(x as int, y as int, z as int, self.width as int, self.height as int);
        }
        let i = Self::idx_static(x, y, z, self.width);
        let mut cell = self.grid[i];
        if matches!(cell.block, BlockType::Port(PortMode::Input | PortMode::Bidirectional)) {
            cell.power = if power < 15 { power } else { 15 };
            cell.strongly_powered = power > 0;
        }
        self.grid.set(i, cell);
        self.schedule_update(x, y, z);
    }

    /// The power an output or bidirectional port at (x, y, z) shows; 0 for
    /// any other cell and outside the world.
    pub fn get_port_output(&self, x: u32, y: u32, z: u32) -> (r: u8)
        requires
            self.wf(),
        ensures
            r == if in_world(x as int, y as int, z as int, self.width as int, self.height as int) {
                port_output_of(self.at(x as int, y as int, z as int))
            } else {
                0
            },
    {
        if !(x < self.width && y < self.height && z < self.width) {
            return 0;
        }
        let cell = self.cell(x, y, z);
        if matches!(cell.block, BlockType::Port(PortMode::Output | PortMode::Bidirectional)) {
            cell.power
        } else {
            0
        }
    }

    fn reset_wire_power(&mut self)
        requires
            old(self).wf(),
        ensures
            final(self).wf(),
            final(self).same_header(old(self)),
            final(self).pending() == old(self).pending(),
            final(self).cells().len() == old(self).cells().len(),
            forall|i: int|
                0 <= i < old(self).cells().len() ==> final(self).cells()[i] == reset_cell(
                    old(self).cells()[i],
                ),
    {
        let n = self.grid.len();
        let mut i: usize = 0;
        while i < n
            invariant
                n == self.grid@.len(),
                n == old(self).grid@.len(),
                i <= n,
                self.same_header(old(self)),
                self.updates@ == old(self).updates@,
                forall|j: int| 0 <= j < i ==> self.grid@[j] == reset_cell(old(self).grid@[j]),
                forall|j: int| i <= j < n ==> self.grid@[j] == old(self).grid@[j],
            decreases n - i,
        {
            let mut cell = self.grid[i];
            if matches!(cell.block, BlockType::RedstoneWire) {
                cell.power = 0;
            }
            cell.weakly_powered = false;
            self.grid.set(i, cell);
            i += 1;
        }
    }

    fn update_torch_at(&mut self, x: u32, y: u32, z: u32)
        requires
            old(self).wf(),
            in_world(x as int, y as int, z as int, old(self).width as int, old(self).height as int),
        ensures
            final(self).wf(),
            final(self).same_header(old(self)),
            (final(self).cells(), final(self).pending()) == torch_rule(
                old(self).cells(),
                old(self).pending(),
                x,
                y,
                z,
                old(self).width,
                old(self).height,
            ),
    {
        proof {
            lemma_world_size_bounds(self.tier);
            lemma_cell_index_bounds(x as int, y as int, z as int, self.width as int, self.height as int);
        }
        let w = self.width;
        let i = Self::idx_static(x, y, z, w);
        if self.grid[i].torch_burnout > 0 {
            return ;
        }
        let attached_powered = match self.grid[i].block {
            BlockType::RedstoneTorch { .. } => {
                if y > 0 {
                    proof {
                        lemma_cell_index_bounds(x as int, y - 1, z as int, w as int, self.height as int);
                    }
                    let bi = Self::idx_static(x, y - 1, z, w);
                    let below = self.grid[bi];
                    below.power > 0 || below.strongly_powered || below.weakly_powered
                } else {
                    false
                }
            },
            BlockType::RedstoneWallTorch { facing, .. } => {
                let (dx, dz) = facing.opposite().horizontal_offset();
                let ax = x as i32 + dx;
                let az = z as i32 + dz;
                if self.in_bounds(ax, y as i32, az) {
                    proof {
                        lemma_cell_index_bounds(ax as int, y as int, az as int, w as int, self.height as int);
                    }
                    let ai = Self::idx_static(ax as u32, y, az as u32, w);
                    let attached = self.grid[ai];
                    attached.power > 0 || attached.strongly_powered || attached.weakly_powered
                } else {
                    false
                }
            },
            _ => {
                return ;
            },
        };
        let new_lit = !attached_powered;
        let mut cell = self.grid[i];
        cell.block =
        match cell.block {
            BlockType::RedstoneWallTorch { facing, .. } => BlockType::RedstoneWallTorch {
                lit: new_lit,
                facing,
            },
            _ => BlockType::RedstoneTorch { lit: new_lit },
        };
        if new_lit {
            cell.power = 15;
            cell.strongly_powered = true;
        } else {
            cell.power = 0;
            cell.strongly_powered = false;
        }
        self.grid.set(i, cell);
        self.schedule_neighbors(x, y, z);
    }

    fn repeater_input_at(&self, x: u32, y: u32, z: u32, facing: Facing) -> (r: bool)
        requires
            self.wf(),
            in_world(x as int, y as int, z as int, self.width as int, self.height as int),
        ensures
            r == repeater_input(self.cells(), x, y, z, facing, self.width, self.height),
    {
        proof {
            lemma_world_size_bounds(self.tier);
        }
        let w = self.width;
        let (ix, iz) = facing.opposite().horizontal_offset();
        let ix = x as i32 + ix;
        let iz = z as i32 + iz;
        if self.in_bounds(ix, y as i32, iz) {
            proof {
                lemma_cell_index_bounds(ix as int, y as int, iz as int, w as int, self.height as int);
            }
            let ii = Self::idx_static(ix as u32, y, iz as u32, w);
            self.grid[ii].power > 0 || self.grid[ii].strongly_powered
        } else {
            false
        }
    }

    fn switch_repeater_on(&mut self, x: u32, y: u32, z: u32, facing: Facing)
        requires
            old(self).wf(),
            in_world(x as int, y as int, z as int, old(self).width as int, old(self).height as int),
        ensures
            final(self).wf(),
            final(self).same_header(old(self)),
            final(self).pending() == old(self).pending(),
            final(self).cells() == repeater_on(old(self).cells(), x, y, z, facing, old(self).width, old(self).height),
    {
        proof {
            lemma_world_size_bounds(self.tier);
            lemma_cell_index_bounds(x as int, y as int, z as int, self.width as int, self.height as int);
        }
        let w = self.width;
        let i = Self::idx_static(x, y, z, w);
        let mut cell = self.grid[i];
        cell.power = 15;
        cell.strongly_powered = true;
        cell.repeater_timer = 0;
        self.grid.set(i, cell);
        let (ox, oz) = facing.horizontal_offset();
        let ox = x as i32 + ox;
        let oz = z as i32 + oz;
        if self.in_bounds(ox, y as i32, oz) {
            proof {
                lemma_cell_index_bounds(ox as int, y as int, oz as int, w as int, self.height as int);
            }
            let oi = Self::idx_static(ox as u32, y, oz as u32, w);
            if self.grid[oi].is_solid() {
                let mut out = self.grid[oi];
                out.strongly_powered = true;
                self.grid.set(oi, out);
            }
        }
    }

    fn switch_repeater_off(&mut self, x: u32, y: u32, z: u32)
        requires
            old(self).wf(),
            in_world(x as int, y as int, z as int, old(self).width as int, old(self).height as int),
        ensures
            final(self).wf(),
            final(self).same_header(old(self)),
            final(self).pending() == old(self).pending(),
            final(self).cells() == repeater_off(old(self).cells(), x, y, z, old(self).width),
    {
        proof {
            lemma_world_size_bounds(self.tier);
            lemma_cell_index_bounds(x as int, y as int, z as int, self.width as int, self.height as int);
        }
        let i = Self::idx_static(x, y, z, self.width);
        let mut cell = self.grid[i];
        cell.power = 0;
        cell.strongly_powered = false;
        cell.repeater_timer = 0;
        self.grid.set(i, cell);
    }

    fn update_repeater_at(&mut self, x: u32, y: u32, z: u32)
        requires
            old(self).wf(),
            in_world(x as int, y as int, z as int, old(self).width as int, old(self).height as int),
        ensures
            final(self).wf(),
            final(self).same_header(old(self)),
            final(self).pending() == old(self).pending(),
            final(self).cells() == repeater_rule(
                old(self).cells(),
                x,
                y,
                z,
                old(self).width,
                old(self).height,
            ),
    {
        proof {
            lemma_world_size_bounds(self.tier);
            lemma_cell_index_bounds(x as int, y as int, z as int, self.width as int, self.height as int);
        }
        let i = Self::idx_static(x, y, z, self.width);
        let (facing, delay) = match self.grid[i].block {
            BlockType::Repeater { facing, delay_ticks, .. } => (facing, delay_ticks),
            _ => {
                return ;
            },
        };
        if !self.repeater_input_at(x, y, z, facing) {
            self.switch_repeater_off(x, y, z);
        } else if self.grid[i].repeater_timer == 0 && self.grid[i].power == 0 {
            if delay == 0 {
                self.switch_repeater_on(x, y, z, facing);
            } else {
                let mut cell = self.grid[i];
                cell.repeater_timer = delay;
                self.grid.set(i, cell);
            }
        }
    }

    fn fire_repeater_at(&mut self, x: u32, y: u32, z: u32)
        requires
            old(self).wf(),
            in_world(x as int, y as int, z as int, old(self).width as int, old(self).height as int),
        ensures
            final(self).wf(),
            final(self).same_header(old(self)),
            final(self).pending() == old(self).pending(),
            final(self).cells() == repeater_fire_rule(
                old(self).cells(),
                x,
                y,
                z,
                old(self).width,
                old(self).height,
            ),
    {
        proof {
            lemma_world_size_bounds(self.tier);
            lemma_cell_index_bounds(x as int, y as int, z as int, self.width as int, self.height as int);
        }
        let i = Self::idx_static(x, y, z, self.width);
        let facing = match self.grid[i].block {
            BlockType::Repeater { facing, .. } => facing,
            _ => {
                return ;
            },
        };
        if self.repeater_input_at(x, y, z, facing) {
            self.switch_repeater_on(x, y, z, facing);
        } else {
            self.switch_repeater_off(x, y, z);
        }
    }

    /// The update a timer running out at (x, y, z) asks for.
    fn process_timer_event(&mut self, x: u32, y: u32, z: u32)
        requires
            old(self).wf(),
            in_world(x as int, y as int, z as int, old(self).width as int, old(self).height as int),
        ensures
            final(self).wf(),
            final(self).same_header(old(self)),
            (final(self).cells(), final(self).pending()) == fire_rule(
                old(self).cells(),
                old(self).pending(),
                (x, y, z),
                old(self).width,
                old(self).height,
            ),
    {
        proof {
            lemma_world_size_bounds(self.tier);
            lemma_cell_index_bounds(x as int, y as int, z as int, self.width as int, self.height as int);
        }
        let i = Self::idx_static(x, y, z, self.width);
        if matches!(self.grid[i].block, BlockType::Repeater { .. }) {
            self.fire_repeater_at(x, y, z);
        } else {
            self.process_update(x, y, z);
        }
    }

    fn process_update(&mut self, x: u32, y: u32, z: u32)
        requires
            old(self).wf(),
            in_world(x as int, y as int, z as int, old(self).width as int, old(self).height as int),
        ensures
            final(self).wf(),
            final(self).same_header(old(self)),
            (final(self).cells(), final(self).pending()) == update_rule(
                old(self).cells(),
                old(self).pending(),
                (x, y, z),
                old(self).width,
                old(self).height,
            ),
    {
        proof {
            lemma_world_size_bounds(self.tier);
            lemma_cell_index_bounds(x as int, y as int, z as int, self.width as int, self.height as int);
        }
        let i = Self::idx_static(x, y, z, self.width);
        let block = self.grid[i].block;
        match block {
            BlockType::RedstoneTorch { .. } | BlockType::RedstoneWallTorch { .. } => {
                self.update_torch_at(x, y, z);
            },
            BlockType::Repeater { .. } => {
                self.update_repeater_at(x, y, z);
            },
            BlockType::Observer { facing, .. } => {
                // Observer pulse: 2 tick output then off
                let mut cell = self.grid[i];
                cell.block = BlockType::Observer { facing, powered: false };
                cell.power = 0;
                self.grid.set(i, cell);
            },
            _ => {},
        }
    }

    fn receives_exec(c: &Cell) -> (r: bool)
        ensures
            r == receives(*c),
    {
        match c.block {
            BlockType::Port(PortMode::Output) => true,
            BlockType::Port(PortMode::Bidirectional) => !c.strongly_powered,
            _ => false,
        }
    }

    /// The level in-plane neighbour `k` of (x, y, z) carries.
    fn nbr_level_exec(&self, x: u32, y: u32, z: u32, k: u32) -> (r: u8)
        requires
            self.wf(),
            in_world(x as int, y as int, z as int, self.width as int, self.height as int),
            k < 4,
        ensures
            r as int == nbr_level(
                self.cells(),
                x as int,
                y as int,
                z as int,
                k as int,
                self.width as int,
                self.height as int,
            ),
    {
        proof {
            lemma_world_size_bounds(self.tier);
        }
        let (nx, nz) = nbr_of(x, z, k);
        if self.in_bounds(nx, y as i32, nz) {
            proof {
                lemma_cell_index_bounds(nx as int, y as int, nz as int, self.width as int, self.height as int);
            }
            let ni = Self::idx_static(nx as u32, y, nz as u32, self.width);
            let c = self.grid[ni];
            if matches!(c.block, BlockType::RedstoneWire) {
                c.power
            } else {
                c.source_power()
            }
        } else {
            0
        }
    }

    /// Give every output port (and every bidirectional port not driven from
    /// outside) the level its circuit brings to it.
    fn feed_ports(&mut self)
        requires
            old(self).wf(),
        ensures
            final(self).wf(),
            final(self).same_header(old(self)),
            final(self).pending() == old(self).pending(),
            final(self).cells() == ports_fed(old(self).cells(), old(self).width as int, old(self).height as int),
    {
        proof {
            lemma_world_size_bounds(self.tier);
            lemma_world_volume(self.width as int);
        }
        let w = self.width;
        let h = self.height;
        let n = self.grid.len();
        let ghost g0 = self.grid@;
        let mut levels: Vec<u8> = Vec::new();
        let mut i: usize = 0;
        let mut x: u32 = 0;
        let mut y: u32 = 0;
        let mut z: u32 = 0;
        while i < n
            invariant
                self.wf(),
                self.grid@ == g0,
                w == self.width,
                h == self.height,
                w <= 256,
                n == g0.len(),
                n == w * w * h,
                scan_at(i as int, x as int, y as int, z as int, w as int, h as int),
                i <= n,
                levels@.len() == i,
                forall|j: int|
                    0 <= j < i ==> levels@[j] as int == #[trigger] fed_level(
                        g0,
                        index_pos(j, w as int).0 as int,
                        index_pos(j, w as int).1 as int,
                        index_pos(j, w as int).2 as int,
                        w as int,
                        h as int,
                    ),
            decreases n - i,
        {
            proof {
                if y == h {
                    assert(i == n) by (nonlinear_arith)
                        requires
                            i == 0 + 0 * w + h * (w * w),
                            n == w * w * h,
                    ;
                }
                lemma_index_pos(x as int, y as int, z as int, w as int, h as int);
            }
            let mut best: u8 = 0;
            let mut k: u32 = 0;
            while k < 4
                invariant
                    self.wf(),
                    self.grid@ == g0,
                    w == self.width,
                    h == self.height,
                    in_world(x as int, y as int, z as int, w as int, h as int),
                    k <= 4,
                    best as int == max_nbr_level(g0, x as int, y as int, z as int, k as int, w as int, h as int),
                decreases 4 - k,
            {
                let l = self.nbr_level_exec(x, y, z, k);
                if l > best {
                    best = l;
                }
                k += 1;
            }
            let fed: u8 = if best > 1 { best - 1 } else { 0 };
            levels.push(fed);
            proof {
                lemma_scan_step(x as int, y as int, z as int, w as int);
                assert(index_pos(i as int, w as int) == (x, y, z));
            }
            i += 1;
            if x + 1 < w {
                x += 1;
            } else {
                x = 0;
                if z + 1 < w {
                    z += 1;
                } else {
                    z = 0;
                    y += 1;
                }
            }
        }
        let mut j: usize = 0;
        while j < n
            invariant
                self.wf(),
                self.same_header(old(self)),
                self.updates@ == old(self).updates@,
                old(self).grid@ == g0,
                w == self.width,
                h == self.height,
                n == g0.len(),
                n == self.grid@.len(),
                levels@.len() == n,
                j <= n,
                forall|jj: int|
                    0 <= jj < n ==> levels@[jj] as int == #[trigger] fed_level(
                        g0,
                        index_pos(jj, w as int).0 as int,
                        index_pos(jj, w as int).1 as int,
                        index_pos(jj, w as int).2 as int,
                        w as int,
                        h as int,
                    ),
                forall|jj: int| 0 <= jj < j ==> self.grid@[jj] == fed_cell(g0, jj, w as int, h as int),
                forall|jj: int| j <= jj < n ==> self.grid@[jj] == g0[jj],
            decreases n - j,
        {
            if Self::receives_exec(&self.grid[j]) {
                let mut cell = self.grid[j];
                cell.power = levels[j];
                self.grid.set(j, cell);
            }
            proof {
                let _ = fed_level(
                    g0,
                    index_pos(j as int, w as int).0 as int,
                    index_pos(j as int, w as int).1 as int,
                    index_pos(j as int, w as int).2 as int,
                    w as int,
                    h as int,
                );
            }
            j += 1;
        }
        proof {
            assert(self.grid@ =~= ports_fed(g0, w as int, h as int));
        }
    }

    fn update_solid_powering(&mut self)
        requires
            old(self).wf(),
        ensures
            final(self).wf(),
            final(self).same_header(old(self)),
            final(self).pending() == old(self).pending(),
            solid_powering_done(
                old(self).cells(),
                final(self).cells(),
                old(self).width as int,
                old(self).height as int,
            ),
    {
        proof {
            lemma_world_size_bounds(self.tier);
            lemma_world_volume(self.width as int);
        }
        let w = self.width;
        let h = self.height;
        let n = self.grid.len();
        let ghost g0 = self.grid@;
        let mut strong: Vec<bool> = Vec::new();
        let mut i: usize = 0;
        let mut x: u32 = 0;
        let mut y: u32 = 0;
        let mut z: u32 = 0;
        while i < n
            invariant
                self.wf(),
                self.grid@ == g0,
                w == self.width,
                h == self.height,
                w <= 256,
                n == g0.len(),
                n == w * w * h,
                scan_at(i as int, x as int, y as int, z as int, w as int, h as int),
                i <= n,
                strong@.len() == i,
                forall|xx: int, yy: int, zz: int|
                    in_world(xx, yy, zz, w as int, h as int) && cell_index(xx, yy, zz, w as int) < i
                        ==> strong@[cell_index(xx, yy, zz, w as int)] == strongly_driven(
                        g0,
                        xx,
                        yy,
                        zz,
                        w as int,
                        h as int,
                    ),
            decreases n - i,
        {
            proof {
                if y == h {
                    assert(i == n) by (nonlinear_arith)
                        requires
                            i == 0 + 0 * w + h * (w * w),
                            n == w * w * h,
                    ;
                }
            }
            let mut s = false;
            let mut k: u32 = 0;
            while k < 4
                invariant
                    self.wf(),
                    self.grid@ == g0,
                    w == self.width,
                    h == self.height,
                    w <= 256,
                    in_world(x as int, y as int, z as int, w as int, h as int),
                    k <= 4,
                    s == exists|kk: int|
                        0 <= kk < k && in_world(
                            nbr(x as int, z as int, kk).0,
                            y as int,
                            nbr(x as int, z as int, kk).1,
                            w as int,
                            h as int,
                        ) && strong_driver(
                            #[trigger] g0[cell_index(
                                nbr(x as int, z as int, kk).0,
                                y as int,
                                nbr(x as int, z as int, kk).1,
                                w as int,
                            )],
                        ),
                decreases 4 - k,
            {
                let (nx, nz) = nbr_of(x, z, k);
                if self.in_bounds(nx, y as i32, nz) {
                    proof {
                        lemma_cell_index_bounds(nx as int, y as int, nz as int, w as int, h as int);
                    }
                    let ni = Self::idx_static(nx as u32, y, nz as u32, w);
                    if is_strong_driver(&self.grid[ni]) {
                        s = true;
                    }
                }
                k += 1;
            }
            strong.push(s);
            proof {
                lemma_scan_step(x as int, y as int, z as int, w as int);
                assert forall|xx: int, yy: int, zz: int|
                    in_world(xx, yy, zz, w as int, h as int) && cell_index(xx, yy, zz, w as int) < i
                        + 1 implies strong@[cell_index(xx, yy, zz, w as int)] == strongly_driven(
                    g0,
                    xx,
                    yy,
                    zz,
                    w as int,
                    h as int,
                ) by {
                    if cell_index(xx, yy, zz, w as int) == i {
                        lemma_cell_index_injective(
                            xx,
                            yy,
                            zz,
                            x as int,
                            y as int,
                            z as int,
                            w as int,
                            h as int,
                        );
                    }
                }
            }
            i += 1;
            if x + 1 < w {
                x += 1;
            } else {
                x = 0;
                if z + 1 < w {
                    z += 1;
                } else {
                    z = 0;
                    y += 1;
                }
            }
        }
        let mut j: usize = 0;
        while j < n
            invariant
                self.wf(),
                self.same_header(old(self)),
                self.updates@ == old(self).updates@,
                old(self).grid@ == g0,
                n == g0.len(),
                n == self.grid@.len(),
                strong@.len() == n,
                j <= n,
                forall|jj: int|
                    0 <= jj < j ==> self.grid@[jj] == (if g0[jj].spec_is_solid() {
                        Cell { strongly_powered: strong@[jj], ..g0[jj] }
                    } else {
                        g0[jj]
                    }),
                forall|jj: int| j <= jj < n ==> self.grid@[jj] == g0[jj],
            decreases n - j,
        {
            if self.grid[j].is_solid() {
                let mut cell = self.grid[j];
                cell.strongly_powered = strong[j];
                self.grid.set(j, cell);
            }
            j += 1;
        }
        proof {
            assert forall|xx: int, yy: int, zz: int|
                in_world(xx, yy, zz, w as int, h as int) implies #[trigger] self.grid@[cell_index(
                xx,
                yy,
                zz,
                w as int,
            )] == (if g0[cell_index(xx, yy, zz, w as int)].spec_is_solid() {
                Cell {
                    strongly_powered: strongly_driven(g0, xx, yy, zz, w as int, h as int),
                    ..g0[cell_index(xx, yy, zz, w as int)]
                }
            } else {
                g0[cell_index(xx, yy, zz, w as int)]
            }) by {
                lemma_cell_index_bounds(xx, yy, zz, w as int, h as int);
            }
        }
    }

    fn update_timers(&mut self)
        requires
            old(self).wf(),
        ensures
            final(self).wf(),
            final(self).same_header(old(self)),
            (final(self).cells(), final(self).pending()) == fire_all(
                timers_applied(old(self).cells()),
                old(self).pending(),
                timer_events_upto(old(self).cells(), old(self).width as int, old(self).cells().len() as int),
                old(self).width,
                old(self).height,
            ),
    {
        proof {
            lemma_world_size_bounds(self.tier);
            lemma_world_volume(self.width as int);
        }
        let w = self.width;
        let h = self.height;
        let n = self.grid.len();
        let ghost g0 = self.grid@;
        let mut reschedule: Vec<Pos> = Vec::new();
        let mut i: usize = 0;
        let mut x: u32 = 0;
        let mut y: u32 = 0;
        let mut z: u32 = 0;
        while i < n
            invariant
                self.wf(),
                self.same_header(old(self)),
                self.updates@ == old(self).updates@,
                old(self).grid@ == g0,
                w == self.width,
                h == self.height,
                w <= 256,
                n == g0.len(),
                n == self.grid@.len(),
                n == w * w * h,
                scan_at(i as int, x as int, y as int, z as int, w as int, h as int),
                i <= n,
                forall|j: int| 0 <= j < i ==> self.grid@[j] == timer_cell(g0[j]),
                forall|j: int| i <= j < n ==> self.grid@[j] == g0[j],
                reschedule@ == timer_events_upto(g0, w as int, i as int),
                forall|j: int|
                    0 <= j < reschedule@.len() ==> pos_in_world(
                        #[trigger] reschedule@[j],
                        w as int,
                        h as int,
                    ),
            decreases n - i,
        {
            proof {
                if y == h {
                    assert(i == n) by (nonlinear_arith)
                        requires
                            i == 0 + 0 * w + h * (w * w),
                            n == w * w * h,
                    ;
                }
                lemma_index_pos(x as int, y as int, z as int, w as int, h as int);
            }
            let mut cell = self.grid[i];
            if matches!(cell.block, BlockType::Repeater { .. }) && cell.repeater_timer > 0 {
                cell.repeater_timer -= 1;
                if cell.repeater_timer == 0 {
                    reschedule.push((x, y, z));
                }
            }
            if cell.torch_burnout > 0 {
                cell.torch_burnout -= 1;
                if cell.torch_burnout == 0 {
                    reschedule.push((x, y, z));
                }
            }
            self.grid.set(i, cell);
            proof {
                lemma_scan_step(x as int, y as int, z as int, w as int);
                assert(timer_events_upto(g0, w as int, i + 1) == timer_events_upto(g0, w as int, i as int)
                    + timer_events(g0[i as int], index_pos(i as int, w as int)));
            }
            i += 1;
            if x + 1 < w {
                x += 1;
            } else {
                x = 0;
                if z + 1 < w {
                    z += 1;
                } else {
                    z = 0;
                    y += 1;
                }
            }
        }
        proof {
            assert(self.grid@ == timers_applied(g0));
        }
        let ghost g1 = self.grid@;
        let ghost q0 = self.updates@;
        let m = reschedule.len();
        let mut j: usize = 0;
        while j < m
            invariant
                self.wf(),
                self.same_header(old(self)),
                w == self.width,
                h == self.height,
                m == reschedule@.len(),
                j <= m,
                forall|jj: int|
                    0 <= jj < reschedule@.len() ==> pos_in_world(
                        #[trigger] reschedule@[jj],
                        w as int,
                        h as int,
                    ),
                (self.grid@, self.updates@) == fire_all(g1, q0, reschedule@.take(j as int), w, h),
            decreases m - j,
        {
            let (px, py, pz) = reschedule[j];
            proof {
                assert(pos_in_world(reschedule@[j as int], w as int, h as int));
                assert(reschedule@.take(j + 1).drop_last() == reschedule@.take(j as int));
            }
            self.process_timer_event(px, py, pz);
            j += 1;
        }
        proof {
            assert(reschedule@.take(m as int) == reschedule@);
        }
    }

    /// Advance the simulation by one tick.
    pub fn step(&mut self)
        requires
            old(self).wf(),
            old(self).tick < u64::MAX,
        ensures
            final(self).wf(),
            final(self).tier == old(self).tier,
            final(self).width == old(self).width,
            final(self).height == old(self).height,
            final(self).tick == old(self).tick + 1,
            step_done(
                old(self).width,
                old(self).height,
                old(self).cells(),
                old(self).pending(),
                final(self).cells(),
                final(self).pending(),
            ),
    {
        self.tick += 1;
        let ghost g0 = self.grid@;
        let ghost q0 = self.updates@;
        self.reset_wire_power();
        proof {
            assert(self.grid@ =~= reset_all(g0));
        }
        let mut updates: VecDeque<Pos> = VecDeque::new();
        std::mem::swap(&mut updates, &mut self.updates);
        let w = self.width;
        let h = self.height;
        let n = updates.len();
        let mut i: usize = 0;
        proof {
            assert(self.updates@ == Seq::<Pos>::empty());
            assert(updates@.take(0) == Seq::<Pos>::empty());
        }
        while i < n
            invariant
                self.wf(),
                w == self.width,
                h == self.height,
                self.tier == old(self).tier,
                self.width == old(self).width,
                self.height == old(self).height,
                self.tick == old(self).tick + 1,
                updates@ == q0,
                n == q0.len(),
                i <= n,
                queue_ok(q0, w as int, h as int),
                (self.grid@, self.updates@) == update_all(
                    reset_all(g0),
                    Seq::empty(),
                    q0.take(i as int),
                    w,
                    h,
                ),
            decreases n - i,
        {
            let (x, y, z) = updates[i];
            proof {
                assert(pos_in_world(q0[i as int], w as int, h as int));
                assert(q0.take(i + 1).drop_last() == q0.take(i as int));
            }
            self.process_update(x, y, z);
            i += 1;
        }
        let ghost ga = self.grid@;
        let ghost qa = self.updates@;
        proof {
            assert(q0.take(n as int) == q0);
            assert(wires_unpowered(reset_all(g0)));
            lemma_update_all_keeps_wires(reset_all(g0), Seq::empty(), q0, w, h);
        }
        self.propagate_power();
        let ghost gb = self.grid@;
        self.feed_ports();
        proof {
            assert(self.grid@ == ports_fed(gb, w as int, h as int));
        }
        self.update_solid_powering();
        let ghost gc = self.grid@;
        self.update_timers();
        proof {
            assert(propagate::propagation_done(ga, gb, w as int, h as int));
            assert(solid_powering_done(ports_fed(gb, w as int, h as int), gc, w as int, h as int));
        }
    }

    /// Every output or bidirectional port of layer y as (x, z, power), row by row.
    pub fn read_outputs(&self, y: u32) -> (result: Vec<(u32, u32, u8)>)
        requires
            self.wf(),
            y < self.height,
        ensures
            result@ == layer_outputs(self.cells(), self.width as int, y as int, self.width as int),
    {
        proof {
            lemma_world_size_bounds(self.tier);
        }
        let w = self.width;
        let mut result: Vec<(u32, u32, u8)> = Vec::new();
        let mut z: u32 = 0;
        while z < w
            invariant
                self.wf(),
                w == self.width,
                w <= 256,
                y < self.height,
                z <= w,
                result@ == layer_outputs(self.cells(), w as int, y as int, z as int),
            decreases w - z,
        {
            let mut x: u32 = 0;
            while x < w
                invariant
                    self.wf(),
                    w == self.width,
                    w <= 256,
                    y < self.height,
                    z < w,
                    x <= w,
                    result@ == layer_outputs(self.cells(), w as int, y as int, z as int) + row_outputs(
                        self.cells(),
                        w as int,
                        y as int,
                        z as int,
                        x as int,
                    ),
                decreases w - x,
            {
                let cell = self.cell(x, y, z);
                if matches!(cell.block, BlockType::Port(PortMode::Output | PortMode::Bidirectional)) {
                    result.push((x, z, cell.power));
                }
                x += 1;
            }
            z += 1;
        }
        result
    }

    /// Drive the ports of layer y listed as (x, z, power), in order.
    pub fn write_inputs(&mut self, y: u32, inputs: &[(u32, u32, u8)])
        requires
            old(self).wf(),
        ensures
            final(self).wf(),
            final(self).same_header(old(self)),
            (final(self).cells(), final(self).pending()) == write_all(
                old(self).cells(),
                old(self).pending(),
                y,
                inputs@,
                old(self).width,
                old(self).height,
            ),
    {
        let n = inputs.len();
        let mut i: usize = 0;
        while i < n
            invariant
                self.wf(),
                self.same_header(old(self)),
                n == inputs@.len(),
                i <= n,
                (self.cells(), self.pending()) == write_all(
                    old(self).cells(),
                    old(self).pending(),
                    y,
                    inputs@.take(i as int),
                    old(self).width,
                    old(self).height,
                ),
            decreases n - i,
        {
            let (x, z, power) = inputs[i];
            proof {
                assert(inputs@.take(i + 1).drop_last() == inputs@.take(i as int));
            }
            self.set_port_input(x, y, z, power);
            i += 1;
        }
        proof {
            assert(inputs@.take(n as int) == inputs@);
        }
    }
}

} // verus!
