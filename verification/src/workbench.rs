//! VLSI workbench: blueprints, which carry a design's circuit as JSON in
//! their NBT, and the tier a circuit's world size stands for.

use vstd::prelude::*;

use crate::chip::{lemma_snbt_roundtrip, snbt_frame, snbt_frame_exec, snbt_stored, snbt_unframe, snbt_unframe_exec};
use crate::vm::Tier;

verus! {

broadcast use vstd::string::group_string_axioms;

/// Block and item id of the workbench.
pub const WORKBENCH_ID: &'static str = "yog-vlsi:vlsi_workbench";

/// Item id of a blueprint.
pub const BLUEPRINT_ID: &'static str = "yog-vlsi:blueprint";

/// The NBT key under which a blueprint carries its circuit.
pub open spec fn blueprint_key() -> Seq<char> {
    "YogVlsiBlueprint"@
}

/// The SNBT of a blueprint carrying the circuit JSON `json`.
pub fn blueprint_nbt(json: &str) -> (r: String)
    ensures
        r@ == snbt_frame(blueprint_key(), json@),
{
    snbt_frame_exec("YogVlsiBlueprint", json, true)
}

/// The circuit JSON a blueprint's SNBT carries, unescaped; `None` when it
/// has no `YogVlsiBlueprint:"` entry.
pub fn extract_blueprint_circuit(nbt: &str) -> (r: Option<String>)
    ensures
        match snbt_unframe(blueprint_key(), nbt@) {
            Some(j) => r is Some && r->0@ == j,
            None => r is None,
        },
{
    snbt_unframe_exec("YogVlsiBlueprint", nbt)
}

/// A blueprint's SNBT, as the game stores it, gives back the circuit JSON
/// written into it.
pub proof fn lemma_blueprint_roundtrip(json: Seq<char>)
    ensures
        snbt_unframe(blueprint_key(), snbt_stored(blueprint_key(), json)) == Some(json),
{
    reveal_strlit("YogVlsiBlueprint");
    lemma_snbt_roundtrip(blueprint_key(), json);
}

/// The tier whose world is `size` wide; iron for any other size.
pub open spec fn spec_tier_from_size(size: usize) -> Tier {
    if size == 16 {
        Tier::Wood
    } else if size == 32 {
        Tier::Stone
    } else if size == 64 {
        Tier::Gold
    } else if size == 128 {
        Tier::Diamond
    } else if size == 256 {
        Tier::Netherite
    } else {
        Tier::Iron
    }
}

/// The tier whose world is `size` wide; iron for any other size.
pub fn tier_from_size(size: usize) -> (t: Tier)
    ensures
        t == spec_tier_from_size(size),
{
    match size {
        16 => Tier::Wood,
        32 => Tier::Stone,
        64 => Tier::Gold,
        128 => Tier::Diamond,
        256 => Tier::Netherite,
        _ => Tier::Iron,
    }
}

/// A tier is found again from its world size, except iron, whose size is gold's.
pub proof fn lemma_tier_from_size(t: Tier)
    requires
        t != Tier::Iron,
    ensures
        spec_tier_from_size(t.spec_world_size() as usize) == t,
{
}

} // verus!
