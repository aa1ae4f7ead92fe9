//! Client to server messages for GUI actions. A payload is the action's
//! parts joined by the unit separator `\u{1f}`; the server splits it again
//! and decides what the action asks for.

use vstd::prelude::*;

use crate::text::{
    first_index, lemma_first_index_bounds, lemma_first_index_unique, parse_i32, parse_int,
    parse_unsigned, pieces_at, split_at_char, str_eq,
};
use crate::vm::Tier;

verus! {

broadcast use vstd::string::group_string_axioms;

/// Channel of workbench GUI actions.
pub const WORKBENCH_CHANNEL: &'static str = "yog-vlsi:wb_action";

/// Channel of ALU GUI actions.
pub const ALU_CHANNEL: &'static str = "yog-vlsi:alu_action";

/// The separator between the parts of a payload.
pub open spec fn sep() -> char {
    '\u{1f}'
}

/// The parts joined by the separator.
pub open spec fn joined(parts: Seq<Seq<char>>) -> Seq<char>
    decreases parts.len(),
{
    if parts.len() == 0 {
        Seq::empty()
    } else if parts.len() == 1 {
        parts[0]
    } else {
        parts[0] + seq![sep()] + joined(parts.skip(1))
    }
}

/// The pieces of a payload text between separators.
pub open spec fn pieces(t: Seq<char>) -> Seq<Seq<char>> {
    pieces_at(t, sep())
}

proof fn lemma_joined_push(parts: Seq<Seq<char>>, x: Seq<char>)
    requires
        parts.len() > 0,
    ensures
        joined(parts.push(x)) == joined(parts) + seq![sep()] + x,
    decreases parts.len(),
{
    if parts.len() == 1 {
        assert(parts.push(x).skip(1) == seq![x]);
        assert(joined(seq![x]) == x);
    } else {
        lemma_joined_push(parts.skip(1), x);
        assert(parts.push(x).skip(1) == parts.skip(1).push(x));
        assert(parts.push(x)[0] == parts[0]);
        let a = parts[0];
        let j = joined(parts.skip(1));
        assert(a + seq![sep()] + (j + seq![sep()] + x) =~= a + seq![sep()] + j + seq![sep()] + x);
    }
}

/// Join payload parts with the separator.
pub fn join_payload(parts: &[&str]) -> (r: String)
    ensures
        r@ == joined(parts@.map_values(|p: &str| p@)),
{
    let ghost pv = parts@.map_values(|p: &str| p@);
    let mut out = String::new();
    if parts.len() == 0 {
        return out;
    }
    out.append(parts[0]);
    assert(pv.take(1) =~= seq![pv[0]]);
    let mut i: usize = 1;
    while i < parts.len()
        invariant
            1 <= i <= parts@.len(),
            pv == parts@.map_values(|p: &str| p@),
            out@ == joined(pv.take(i as int)),
        decreases parts@.len() - i,
    {
        proof {
            lemma_joined_push(pv.take(i as int), pv[i as int]);
            assert(pv.take(i + 1) == pv.take(i as int).push(pv[i as int]));
        }
        out.push('\u{1f}');
        out.append(parts[i]);
        i += 1;
    }
    assert(pv.take(parts@.len() as int) == pv);
    out
}

/// Split a payload text at the separator.
pub fn split_payload(text: &str) -> (r: Vec<String>)
    ensures
        r@.map_values(|s: String| s@) == pieces(text@),
{
    split_at_char(text, '\u{1f}')
}

/// What `String::from_utf8_lossy` makes of bytes: the decoded text, with
/// invalid sequences replaced; it depends on the bytes alone.
pub uninterp spec fn utf8_lossy(bytes: Seq<u8>) -> Seq<char>;

/// Decode bytes as UTF-8, replacing invalid sequences (`String::from_utf8_lossy`).
#[verifier::external_body]
fn decode_lossy(bytes: &[u8]) -> (r: String)
    ensures
        r@ == utf8_lossy(bytes@),
{
    String::from_utf8_lossy(bytes).into_owned()
}

/// The parts of a received payload.
pub fn split(payload: &[u8]) -> (r: Vec<String>)
    ensures
        r@.map_values(|s: String| s@) == pieces(utf8_lossy(payload@)),
{
    let text = decode_lossy(payload);
    split_payload(text.as_str())
}

/// Parts that hold no separator come back out of their joined payload
/// unchanged.
pub proof fn lemma_split_joined(parts: Seq<Seq<char>>)
    requires
        parts.len() > 0,
        forall|i: int, j: int| 0 <= i < parts.len() && 0 <= j < parts[i].len() ==> parts[i][j] != sep(),
    ensures
        pieces(joined(parts)) == parts,
    decreases parts.len(),
{
    let t = joined(parts);
    if parts.len() == 1 {
        assert forall|j: int| 0 <= j < t.len() implies t[j] != sep() by {
            assert(parts[0][j] != sep());
        }
        lemma_first_index_bounds(t, sep());
        if first_index(t, sep()) is Some {
            let i = first_index(t, sep())->0;
            assert(t[i] == sep());
        }
        assert(parts =~= seq![parts[0]]);
    } else {
        let p0 = parts[0];
        let rest = parts.skip(1);
        assert forall|i: int, j: int| 0 <= i < rest.len() && 0 <= j < rest[i].len() implies rest[i][j] != sep() by {
            assert(rest[i] == parts[i + 1]);
        }
        lemma_split_joined(rest);
        assert forall|j: int| 0 <= j < p0.len() implies t[j] != sep() by {
            assert(t[j] == p0[j]);
        }
        assert(t[p0.len() as int] == sep());
        lemma_first_index_unique(t, sep(), p0.len() as int);
        assert(t.take(p0.len() as int) == p0);
        assert(t.skip(p0.len() as int + 1) == joined(rest));
        assert(seq![p0] + rest =~= parts);
    }
}

// ── Actions ───────────────────────────────────────────────────────────────────

/// A workbench GUI action sent to the server.
#[derive(Debug)]
pub enum WorkbenchAction {
    /// Open the editor on the design `name`; the player's position as sent,
    /// to be read as numbers.
    Edit { name: String, x: String, y: String, z: String },
    /// Fabricate the design `name` at the tier named by the action, if any.
    Fabricate { name: String, tier: Option<Tier> },
    /// Export the design `name` to a blueprint.
    ExportBp { name: String },
}

/// An ALU GUI action sent to the server.
#[derive(Debug)]
pub enum AluAction {
    /// Install the chip in inventory slot `slot` into the ALU at (x, y, z).
    Install { slot: u32, x: i32, y: i32, z: i32 },
    /// The link graph was saved.
    SaveLinks,
}

fn copy_string(s: &String) -> (r: String)
    ensures
        r@ == s@,
{
    s.clone()
}

/// What the parts of a workbench payload ask for; `None` when they ask for
/// nothing the server knows.
pub fn parse_workbench_action(parts: &Vec<String>) -> (r: Option<WorkbenchAction>)
    ensures
        match r {
            Some(WorkbenchAction::Edit { name, x, y, z }) => parts@.len() >= 5 && parts@[0]@ == "edit"@
                && name@ == parts@[1]@ && x@ == parts@[2]@ && y@ == parts@[3]@ && z@ == parts@[4]@,
            Some(WorkbenchAction::Fabricate { name, tier }) => parts@.len() >= 3 && parts@[0]@
                == "fabricate"@ && name@ == parts@[1]@ && tier == Tier::spec_from_id(parts@[2]@),
            Some(WorkbenchAction::ExportBp { name }) => parts@.len() >= 2 && parts@[0]@ == "export_bp"@
                && name@ == parts@[1]@,
            None => !(parts@.len() >= 5 && parts@[0]@ == "edit"@) && !(parts@.len() >= 3 && parts@[0]@
                == "fabricate"@) && !(parts@.len() >= 2 && parts@[0]@ == "export_bp"@),
        },
{
    if parts.len() == 0 {
        return None;
    }
    let head = parts[0].as_str();
    if str_eq(head, "edit") && parts.len() >= 5 {
        Some(
            WorkbenchAction::Edit {
                name: copy_string(&parts[1]),
                x: copy_string(&parts[2]),
                y: copy_string(&parts[3]),
                z: copy_string(&parts[4]),
            },
        )
    } else if str_eq(head, "fabricate") && parts.len() >= 3 {
        Some(WorkbenchAction::Fabricate { name: copy_string(&parts[1]), tier: Tier::from_id(parts[2].as_str()) })
    } else if str_eq(head, "export_bp") && parts.len() >= 2 {
        Some(WorkbenchAction::ExportBp { name: copy_string(&parts[1]) })
    } else {
        None
    }
}

/// A number parsed as `str::parse::<i32>`, or `default` when it does not parse.
pub open spec fn i32_or(s: Seq<char>, default: i32) -> i32 {
    match parse_int(s, i32::MIN as int, i32::MAX as int, true) {
        Some(v) => v as i32,
        None => default,
    }
}

/// A number parsed as `str::parse::<u32>`, or `default` when it does not parse.
pub open spec fn u32_or(s: Seq<char>, default: u32) -> u32 {
    match parse_int(s, 0, u32::MAX as int, false) {
        Some(v) => v as u32,
        None => default,
    }
}

/// What the parts of an ALU payload ask for; `None` when they ask for
/// nothing the server knows. Numbers that do not parse count as the
/// largest slot and as coordinate 0.
pub fn parse_alu_action(parts: &Vec<String>) -> (r: Option<AluAction>)
    ensures
        match r {
            Some(AluAction::Install { slot, x, y, z }) => parts@.len() >= 5 && parts@[0]@ == "install"@
                && slot == u32_or(parts@[1]@, u32::MAX) && x == i32_or(parts@[2]@, 0) && y == i32_or(
                parts@[3]@,
                0,
            ) && z == i32_or(parts@[4]@, 0),
            Some(AluAction::SaveLinks) => parts@.len() >= 1 && parts@[0]@ == "save_links"@ && !(
            parts@.len() >= 5 && parts@[0]@ == "install"@),
            None => !(parts@.len() >= 5 && parts@[0]@ == "install"@) && !(parts@.len() >= 1
                && parts@[0]@ == "save_links"@),
        },
{
    if parts.len() == 0 {
        return None;
    }
    let head = parts[0].as_str();
    if str_eq(head, "install") && parts.len() >= 5 {
        let slot: u32 = match parse_unsigned(parts[1].as_str(), 0xffff_ffff) {
            Some(v) => v as u32,
            None => u32::MAX,
        };
        let x: i32 = match parse_i32(parts[2].as_str()) {
            Some(v) => v,
            None => 0,
        };
        let y: i32 = match parse_i32(parts[3].as_str()) {
            Some(v) => v,
            None => 0,
        };
        let z: i32 = match parse_i32(parts[4].as_str()) {
            Some(v) => v,
            None => 0,
        };
        Some(AluAction::Install { slot, x, y, z })
    } else if str_eq(head, "save_links") {
        Some(AluAction::SaveLinks)
    } else {
        None
    }
}

} // verus!
