//! Per-player design library: design metadata, the index that lists a
//! player's designs, and the entries saved for each design. Reading and
//! writing the player's storage is the application's part; this module
//! decides what the index and the entries hold.

use vstd::prelude::*;

use crate::chip::{new_chip_id, uuid_v4_text, CircuitData};
use crate::text::{push_dec, str_eq};
use crate::vm::Tier;

verus! {

broadcast use vstd::string::group_string_axioms;

/// Metadata for a saved design. The full circuit data is stored separately.
#[derive(Debug, Clone)]
pub struct DesignMeta {
    /// Unique design ID.
    pub id: String,
    /// Player-assigned name.
    pub name: String,
    /// Chip tier.
    pub tier: Tier,
    /// Short description (optional).
    pub description: String,
    /// When the design was last saved (Unix timestamp).
    pub saved_at: u64,
    /// Port count summary.
    pub port_count: usize,
}

/// A design as a value: id, name, tier, description, save time, port count.
pub type MetaView = (Seq<char>, Seq<char>, Tier, Seq<char>, u64, usize);

impl View for DesignMeta {
    type V = MetaView;

    open spec fn view(&self) -> MetaView {
        (self.id@, self.name@, self.tier, self.description@, self.saved_at, self.port_count)
    }
}

/// A design entry for listing in the library.
#[derive(Debug, Clone)]
pub struct DesignEntry {
    pub meta: DesignMeta,
    /// Full circuit data.
    pub circuit: CircuitData,
}

/// An index seen as values.
pub open spec fn index_view(v: Seq<DesignMeta>) -> Seq<MetaView> {
    v.map_values(|d: DesignMeta| d@)
}

/// The index without the designs whose id is `id`, in order.
pub open spec fn without_id(s: Seq<MetaView>, id: Seq<char>) -> Seq<MetaView>
    decreases s.len(),
{
    if s.len() == 0 {
        s
    } else if s.last().0 == id {
        without_id(s.drop_last(), id)
    } else {
        without_id(s.drop_last(), id).push(s.last())
    }
}

/// The position of the first design with id `id`.
pub open spec fn position_of_id(s: Seq<MetaView>, id: Seq<char>) -> Option<int>
    decreases s.len(),
{
    if s.len() == 0 {
        None
    } else {
        match position_of_id(s.drop_last(), id) {
            Some(i) => Some(i),
            None => if s.last().0 == id {
                Some(s.len() - 1)
            } else {
                None
            },
        }
    }
}

/// The position of the first design named `name`.
pub open spec fn position_of_name(s: Seq<MetaView>, name: Seq<char>) -> Option<int>
    decreases s.len(),
{
    if s.len() == 0 {
        None
    } else {
        match position_of_name(s.drop_last(), name) {
            Some(i) => Some(i),
            None => if s.last().1 == name {
                Some(s.len() - 1)
            } else {
                None
            },
        }
    }
}

/// No two designs of the index share an id.
pub open spec fn ids_unique(s: Seq<MetaView>) -> bool {
    forall|a: int, b: int| 0 <= a < b < s.len() ==> s[a].0 != s[b].0
}

fn copy_meta(m: &DesignMeta) -> (r: DesignMeta)
    ensures
        r@ == m@,
{
    DesignMeta {
        id: m.id.clone(),
        name: m.name.clone(),
        tier: m.tier,
        description: m.description.clone(),
        saved_at: m.saved_at,
        port_count: m.port_count,
    }
}

fn without_id_exec(index: &Vec<DesignMeta>, id: &str) -> (r: Vec<DesignMeta>)
    ensures
        index_view(r@) == without_id(index_view(index@), id@),
{
    let mut r: Vec<DesignMeta> = Vec::new();
    let mut i: usize = 0;
    while i < index.len()
        invariant
            i <= index@.len(),
            index_view(r@) == without_id(index_view(index@.take(i as int)), id@),
        decreases index@.len() - i,
    {
        proof {
            assert(index_view(index@.take(i + 1)).drop_last() == index_view(index@.take(i as int)));
            assert(index_view(index@.take(i + 1)).last() == index@[i as int]@);
        }
        if !str_eq(index[i].id.as_str(), id) {
            r.push(copy_meta(&index[i]));
            assert(index_view(r@) =~= without_id(index_view(index@.take(i as int)), id@).push(index@[i as int]@));
        }
        i += 1;
    }
    assert(index@.take(index@.len() as int) == index@);
    r
}

/// The index after saving a design whose metadata is `meta`: any earlier
/// design with the same id leaves, and `meta` comes last.
pub fn save_design(index: &Vec<DesignMeta>, meta: &DesignMeta) -> (r: Vec<DesignMeta>)
    ensures
        index_view(r@) == without_id(index_view(index@), meta.id@).push(meta@),
{
    let mut r = without_id_exec(index, meta.id.as_str());
    r.push(copy_meta(meta));
    assert(index_view(r@) =~= without_id(index_view(index@), meta.id@).push(meta@));
    r
}

/// The index after deleting the design with id `design_id`.
pub fn delete_design(index: &Vec<DesignMeta>, design_id: &str) -> (r: Vec<DesignMeta>)
    ensures
        index_view(r@) == without_id(index_view(index@), design_id@),
{
    without_id_exec(index, design_id)
}

/// Where the design with id `design_id` stands in the index.
pub fn find_design_by_id(index: &Vec<DesignMeta>, design_id: &str) -> (r: Option<usize>)
    ensures
        match position_of_id(index_view(index@), design_id@) {
            Some(i) => r is Some && r->0 == i,
            None => r is None,
        },
{
    let ghost sv = index_view(index@);
    let mut i: usize = 0;
    while i < index.len()
        invariant
            i <= index@.len(),
            sv == index_view(index@),
            position_of_id(sv.take(i as int), design_id@) is None,
        decreases index@.len() - i,
    {
        proof {
            assert(sv.take(i + 1).drop_last() == sv.take(i as int));
            assert(sv.take(i + 1).last() == index@[i as int]@);
        }
        if str_eq(index[i].id.as_str(), design_id) {
            proof {
                lemma_position_prefix_id(sv, i + 1, design_id@);
            }
            return Some(i);
        }
        i += 1;
    }
    assert(sv.take(sv.len() as int) == sv);
    None
}

/// Where the first design named `name` stands in the index.
pub fn find_design_by_name(index: &Vec<DesignMeta>, name: &str) -> (r: Option<usize>)
    ensures
        match position_of_name(index_view(index@), name@) {
            Some(i) => r is Some && r->0 == i,
            None => r is None,
        },
{
    let ghost sv = index_view(index@);
    let mut i: usize = 0;
    while i < index.len()
        invariant
            i <= index@.len(),
            sv == index_view(index@),
            position_of_name(sv.take(i as int), name@) is None,
        decreases index@.len() - i,
    {
        proof {
            assert(sv.take(i + 1).drop_last() == sv.take(i as int));
            assert(sv.take(i + 1).last() == index@[i as int]@);
        }
        if str_eq(index[i].name.as_str(), name) {
            proof {
                lemma_position_prefix_name(sv, i + 1, name@);
            }
            return Some(i);
        }
        i += 1;
    }
    assert(sv.take(sv.len() as int) == sv);
    None
}

/// A found name's position lies in the index and holds that name.
pub proof fn lemma_position_of_name_bounds(s: Seq<MetaView>, name: Seq<char>)
    ensures
        match position_of_name(s, name) {
            Some(i) => 0 <= i < s.len() && s[i].1 == name,
            None => true,
        },
    decreases s.len(),
{
    if s.len() > 0 {
        lemma_position_of_name_bounds(s.drop_last(), name);
    }
}

proof fn lemma_position_prefix_id(s: Seq<MetaView>, n: int, id: Seq<char>)
    requires
        0 < n <= s.len(),
        position_of_id(s.take(n), id) is Some,
    ensures
        position_of_id(s, id) == position_of_id(s.take(n), id),
    decreases s.len(),
{
    if n < s.len() {
        assert(s.drop_last().take(n) == s.take(n));
        lemma_position_prefix_id(s.drop_last(), n, id);
    } else {
        assert(s.take(n) == s);
    }
}

proof fn lemma_position_prefix_name(s: Seq<MetaView>, n: int, name: Seq<char>)
    requires
        0 < n <= s.len(),
        position_of_name(s.take(n), name) is Some,
    ensures
        position_of_name(s, name) == position_of_name(s.take(n), name),
    decreases s.len(),
{
    if n < s.len() {
        assert(s.drop_last().take(n) == s.take(n));
        lemma_position_prefix_name(s.drop_last(), n, name);
    } else {
        assert(s.take(n) == s);
    }
}

// ── Laws of the index ─────────────────────────────────────────────────────────

proof fn lemma_without_id_absent(s: Seq<MetaView>, id: Seq<char>)
    ensures
        forall|k: int| 0 <= k < without_id(s, id).len() ==> #[trigger] without_id(s, id)[k].0 != id,
        position_of_id(without_id(s, id), id) is None,
    decreases s.len(),
{
    if s.len() > 0 {
        lemma_without_id_absent(s.drop_last(), id);
        let w = without_id(s.drop_last(), id);
        if s.last().0 != id {
            assert(w.push(s.last()).drop_last() == w);
        }
    }
}

proof fn lemma_without_id_twice(s: Seq<MetaView>, id: Seq<char>)
    ensures
        without_id(without_id(s, id), id) == without_id(s, id),
    decreases s.len(),
{
    if s.len() > 0 {
        lemma_without_id_twice(s.drop_last(), id);
        let w = without_id(s.drop_last(), id);
        if s.last().0 != id {
            assert(w.push(s.last()).drop_last() == w);
        }
    }
}

proof fn lemma_without_id_unique(s: Seq<MetaView>, id: Seq<char>)
    requires
        ids_unique(s),
    ensures
        ids_unique(without_id(s, id)),
        forall|k: int| 0 <= k < without_id(s, id).len() ==> s.contains(#[trigger] without_id(s, id)[k]),
    decreases s.len(),
{
    if s.len() > 0 {
        let d = s.drop_last();
        assert(ids_unique(d)) by {
            assert forall|a: int, b: int| 0 <= a < b < d.len() implies d[a].0 != d[b].0 by {
                assert(d[a] == s[a] && d[b] == s[b]);
            }
        }
        lemma_without_id_unique(d, id);
        let w = without_id(d, id);
        assert forall|k: int| 0 <= k < w.len() implies s.contains(#[trigger] w[k]) by {
            assert(d.contains(w[k]));
            let j = choose|j: int| 0 <= j < d.len() && d[j] == w[k];
            assert(s[j] == w[k]);
        }
        if s.last().0 != id {
            let w2 = w.push(s.last());
            assert forall|a: int, b: int| 0 <= a < b < w2.len() implies w2[a].0 != w2[b].0 by {
                if b == w.len() {
                    assert(d.contains(w[a]));
                    let j = choose|j: int| 0 <= j < d.len() && d[j] == w[a];
                    assert(s[j] == w[a]);
                    assert(s[s.len() - 1] == s.last());
                }
            }
            assert forall|k: int| 0 <= k < w2.len() implies s.contains(#[trigger] w2[k]) by {
                if k == w.len() {
                    assert(s[s.len() - 1] == w2[k]);
                }
            }
        }
    }
}

/// After a save, looking the saved id up finds exactly the saved metadata,
/// and no other design carries that id.
pub proof fn lemma_save_then_find(index: Seq<MetaView>, meta: MetaView)
    ensures
        ({
            let saved = without_id(index, meta.0).push(meta);
            &&& position_of_id(saved, meta.0) == Some(saved.len() - 1)
            &&& saved[saved.len() - 1] == meta
            &&& forall|k: int| 0 <= k < saved.len() - 1 ==> #[trigger] saved[k].0 != meta.0
        }),
{
    lemma_without_id_absent(index, meta.0);
    let saved = without_id(index, meta.0).push(meta);
    assert(saved.drop_last() == without_id(index, meta.0));
}

/// Saving keeps the ids of an index unique.
pub proof fn lemma_save_keeps_ids_unique(index: Seq<MetaView>, meta: MetaView)
    requires
        ids_unique(index),
    ensures
        ids_unique(without_id(index, meta.0).push(meta)),
{
    lemma_without_id_unique(index, meta.0);
    lemma_without_id_absent(index, meta.0);
}

/// Deleting a design undoes saving it: what is left is the index without
/// that id, whatever was saved under it.
pub proof fn lemma_delete_after_save(index: Seq<MetaView>, meta: MetaView)
    ensures
        without_id(without_id(index, meta.0).push(meta), meta.0) == without_id(index, meta.0),
{
    let w = without_id(index, meta.0);
    assert(w.push(meta).drop_last() == w);
    lemma_without_id_twice(index, meta.0);
}

/// After a delete the id is found no more, and deleting it again changes nothing.
pub proof fn lemma_delete_forgets(index: Seq<MetaView>, id: Seq<char>)
    ensures
        position_of_id(without_id(index, id), id) is None,
        without_id(without_id(index, id), id) == without_id(index, id),
{
    lemma_without_id_absent(index, id);
    lemma_without_id_twice(index, id);
}

// ── New designs ───────────────────────────────────────────────────────────────

/// A blank design of `tier` named `name`, saved at `saved_at`, under a new
/// random id: no ports, no blocks, a world of the tier's size.
pub fn create_design(name: &str, tier: Tier, saved_at: u64) -> (e: DesignEntry)
    ensures
        uuid_v4_text(e.meta.id@),
        e.meta.name@ == name@,
        e.meta.tier == tier,
        e.meta.description@ == Seq::<char>::empty(),
        e.meta.saved_at == saved_at,
        e.meta.port_count == 0,
        e.circuit.chip_id@ == e.meta.id@,
        e.circuit.width == tier.spec_world_size(),
        e.circuit.height == tier.spec_world_size(),
        e.circuit.blocks@.len() == 0,
        e.circuit.ports@.len() == 0,
{
    let design_id = new_chip_id();
    let size = tier.world_size();
    let cid = design_id.clone();
    DesignEntry {
        meta: DesignMeta {
            id: design_id,
            name: String::from_str(name),
            tier,
            description: String::new(),
            saved_at,
            port_count: 0,
        },
        circuit: CircuitData::new(cid, size, size, Vec::new()),
    }
}

/// `Imported — <n> ports`.
pub open spec fn imported_description(n: nat) -> Seq<char> {
    "Imported — "@ + crate::text::dec_nat(n) + " ports"@
}

/// A design made from an imported circuit, named `name`, saved at
/// `saved_at` under a new random id.
pub fn import_design(name: &str, tier: Tier, circuit: CircuitData, saved_at: u64) -> (e: DesignEntry)
    ensures
        uuid_v4_text(e.meta.id@),
        e.meta.name@ == name@,
        e.meta.tier == tier,
        e.meta.description@ == imported_description(circuit.ports@.len()),
        e.meta.saved_at == saved_at,
        e.meta.port_count == circuit.ports@.len(),
        e.circuit == circuit,
{
    let design_id = new_chip_id();
    let n = circuit.ports.len();
    let mut description = String::from_str("Imported — ");
    push_dec(&mut description, n as u64);
    description.append(" ports");
    DesignEntry {
        meta: DesignMeta { id: design_id, name: String::from_str(name), tier, description, saved_at, port_count: n },
        circuit,
    }
}

// ── Storage keys ──────────────────────────────────────────────────────────────

/// The storage a player's designs live in: `yog-vlsi/player/<name>`.
pub fn player_storage(player_name: &str) -> (r: String)
    ensures
        r@ == "yog-vlsi/player/"@ + player_name@,
{
    String::from_str("yog-vlsi/player/").concat(player_name)
}

/// The key of a player's design index.
pub fn designs_index_key() -> (r: String)
    ensures
        r@ == "designs_index"@,
{
    String::from_str("designs_index")
}

/// The key of a design's circuit: `design_circuit/<id>`.
pub fn design_circuit_key(design_id: &str) -> (r: String)
    ensures
        r@ == "design_circuit/"@ + design_id@,
{
    String::from_str("design_circuit/").concat(design_id)
}

} // verus!
