//! ALU blocks: each tier is its own block. Installed chips are stepped at
//! their tier's rate; an ALU's external ports are addressed as a
//! pseudo-chip whose id carries the ALU's position.

use vstd::prelude::*;

pub mod tick;

pub use tick::{install_chip, tick_all, AluNetwork, ChipSim};

use crate::commands::ext_id_text;
use crate::text::{
    chars_of, dec_int, first_index, first_index_exec, lemma_dec_int_chars, lemma_first_index_bounds,
    lemma_first_index_unique, lemma_parse_dec_int, parse_i32, parse_int, str_eq, sub_string,
};
use crate::vm::Tier;

verus! {

broadcast use vstd::string::group_string_axioms;

// ── Block ids ─────────────────────────────────────────────────────────────────

/// `yog-vlsi:alu_<tier id>`.
pub open spec fn alu_id_text(t: Tier) -> Seq<char> {
    "yog-vlsi:alu_"@ + t.spec_id()
}

/// Block and item id of the ALU of a tier.
pub fn alu_id(tier: Tier) -> (r: String)
    ensures
        r@ == alu_id_text(tier),
{
    String::from_str("yog-vlsi:alu_").concat(tier.id())
}

/// Whether `block_id` is the ALU of some tier.
pub fn is_alu_block(block_id: &str) -> (r: bool)
    ensures
        r == exists|t: Tier| alu_id_text(t) == block_id@,
{
    let tiers = Tier::all();
    let mut i: usize = 0;
    while i < tiers.len()
        invariant
            i <= tiers@.len(),
            tiers@ == seq![Tier::Wood, Tier::Stone, Tier::Gold, Tier::Iron, Tier::Diamond, Tier::Netherite],
            forall|j: int| 0 <= j < i ==> alu_id_text(#[trigger] tiers@[j]) != block_id@,
        decreases tiers@.len() - i,
    {
        let id = alu_id(tiers[i]);
        if str_eq(id.as_str(), block_id) {
            return true;
        }
        i += 1;
    }
    proof {
        assert forall|t: Tier| alu_id_text(t) != block_id@ by {
            match t {
                Tier::Wood => assert(tiers@[0] == t),
                Tier::Stone => assert(tiers@[1] == t),
                Tier::Gold => assert(tiers@[2] == t),
                Tier::Iron => assert(tiers@[3] == t),
                Tier::Diamond => assert(tiers@[4] == t),
                Tier::Netherite => assert(tiers@[5] == t),
            }
        }
    }
    false
}

/// How many chips an ALU of a tier holds, and its digital channels per side.
pub open spec fn spec_alu_limits(t: Tier) -> (u32, u32) {
    match t {
        Tier::Wood => (2, 8),
        Tier::Stone => (3, 16),
        Tier::Gold => (4, 24),
        Tier::Iron => (5, 32),
        Tier::Diamond => (6, 48),
        Tier::Netherite => (8, 64),
    }
}

/// How many chips an ALU of `tier` holds, and its digital channels per side.
pub fn alu_limits(tier: Tier) -> (r: (u32, u32))
    ensures
        r == spec_alu_limits(tier),
{
    match tier {
        Tier::Wood => (2, 8),
        Tier::Stone => (3, 16),
        Tier::Gold => (4, 24),
        Tier::Iron => (5, 32),
        Tier::Diamond => (6, 48),
        Tier::Netherite => (8, 64),
    }
}

/// The corner and centre items of an ALU's recipe, by tier.
pub open spec fn spec_alu_materials(t: Tier) -> (Seq<char>, Seq<char>) {
    match t {
        Tier::Wood => ("minecraft:oak_planks"@, "minecraft:redstone_block"@),
        Tier::Stone => ("minecraft:cobblestone"@, "minecraft:redstone_block"@),
        Tier::Gold => ("minecraft:gold_ingot"@, "minecraft:diamond"@),
        Tier::Iron => ("minecraft:iron_ingot"@, "minecraft:diamond"@),
        Tier::Diamond => ("minecraft:diamond"@, "minecraft:diamond_block"@),
        Tier::Netherite => ("minecraft:netherite_ingot"@, "minecraft:diamond_block"@),
    }
}

/// The corner and centre items of the recipe of an ALU of `tier`.
pub fn alu_materials(tier: Tier) -> (r: (&'static str, &'static str))
    ensures
        (r.0@, r.1@) == spec_alu_materials(tier),
{
    match tier {
        Tier::Wood => ("minecraft:oak_planks", "minecraft:redstone_block"),
        Tier::Stone => ("minecraft:cobblestone", "minecraft:redstone_block"),
        Tier::Gold => ("minecraft:gold_ingot", "minecraft:diamond"),
        Tier::Iron => ("minecraft:iron_ingot", "minecraft:diamond"),
        Tier::Diamond => ("minecraft:diamond", "minecraft:diamond_block"),
        Tier::Netherite => ("minecraft:netherite_ingot", "minecraft:diamond_block"),
    }
}

/// The labels of an ALU's six external ports.
pub fn ext_sides() -> (v: Vec<&'static str>)
    ensures
        v@.len() == 6,
        v@[0]@ == "N"@ && v@[1]@ == "S"@ && v@[2]@ == "E"@ && v@[3]@ == "W"@ && v@[4]@ == "U"@ && v@[5]@ == "D"@,
{
    vec!["N", "S", "E", "W", "U", "D"]
}

// ── External pseudo-chip ids ──────────────────────────────────────────────────

/// The three pieces `str::splitn(3, '_')` gives of `s`, when there are three.
pub open spec fn three_pieces(s: Seq<char>) -> Option<(Seq<char>, Seq<char>, Seq<char>)> {
    match first_index(s, '_') {
        None => None,
        Some(a) => {
            let r = s.skip(a + 1);
            match first_index(r, '_') {
                None => None,
                Some(b) => Some((s.take(a), r.take(b), r.skip(b + 1))),
            }
        },
    }
}

/// The ALU position named by an external pseudo-chip id: `__ext_`, then
/// three `i32` numbers split at the first two underscores.
pub open spec fn ext_pos_of(id: Seq<char>) -> Option<(i32, i32, i32)> {
    let prefix = "__ext_"@;
    if id.len() < prefix.len() || id.take(prefix.len() as int) != prefix {
        None
    } else {
        match three_pieces(id.skip(prefix.len() as int)) {
            None => None,
            Some(p) => {
                let lo = i32::MIN as int;
                let hi = i32::MAX as int;
                match (parse_int(p.0, lo, hi, true), parse_int(p.1, lo, hi, true), parse_int(p.2, lo, hi, true)) {
                    (Some(x), Some(y), Some(z)) => Some((x as i32, y as i32, z as i32)),
                    _ => None,
                }
            },
        }
    }
}

/// The ALU position an external pseudo-chip id names; `None` for any other id.
pub fn parse_ext_chip_id(id: &str) -> (r: Option<(i32, i32, i32)>)
    ensures
        r == ext_pos_of(id@),
{
    let v = chars_of(id);
    let prefix = chars_of("__ext_");
    let n = v.len();
    let m = prefix.len();
    if n < m {
        return None;
    }
    let mut i: usize = 0;
    while i < m
        invariant
            i <= m,
            m <= n,
            n == v@.len(),
            m == prefix@.len(),
            v@ == id@,
            prefix@ == "__ext_"@,
            v@.take(i as int) == prefix@.take(i as int),
        decreases m - i,
    {
        if v[i] != prefix[i] {
            assert(v@.take(m as int)[i as int] != prefix@[i as int]);
            assert(v@.take(m as int) != prefix@);
            assert(id@.take("__ext_"@.len() as int) != "__ext_"@);
            return None;
        }
        assert(v@.take(i + 1) == v@.take(i as int).push(v@[i as int]));
        assert(prefix@.take(i + 1) == prefix@.take(i as int).push(prefix@[i as int]));
        i += 1;
    }
    assert(prefix@.take(m as int) == prefix@);
    let ghost rest = v@.skip(m as int);
    let a = match first_index_exec(&v, m, '_') {
        Some(a) => a,
        None => return None,
    };
    proof {
        lemma_first_index_bounds(rest, '_');
    }
    let b = match first_index_exec(&v, a + 1, '_') {
        Some(b) => b,
        None => {
            assert(rest.skip((a - m) + 1) == v@.skip(a + 1));
            return None;
        },
    };
    proof {
        assert(rest.skip((a - m) + 1) == v@.skip(a + 1));
        lemma_first_index_bounds(v@.skip(a + 1), '_');
    }
    let sx = sub_string(&v, m, a);
    let sy = sub_string(&v, a + 1, b);
    let sz = sub_string(&v, b + 1, n);
    proof {
        let r = rest.skip((a - m) + 1);
        assert(sx@ == rest.take(a - m));
        assert(sy@ == r.take(b - (a + 1)));
        assert(sz@ == r.skip(b - (a + 1) + 1));
    }
    let x = match parse_i32(sx.as_str()) {
        Some(x) => x,
        None => return None,
    };
    let y = match parse_i32(sy.as_str()) {
        Some(y) => y,
        None => return None,
    };
    let z = match parse_i32(sz.as_str()) {
        Some(z) => z,
        None => return None,
    };
    Some((x, y, z))
}

/// An ALU's pseudo-chip id names that ALU's position again.
pub proof fn lemma_ext_id_roundtrip(x: i32, y: i32, z: i32)
    ensures
        ext_pos_of(ext_id_text(x as int, y as int, z as int)) == Some((x, y, z)),
{
    reveal_strlit("__ext_");
    let dx = dec_int(x as int);
    let dy = dec_int(y as int);
    let dz = dec_int(z as int);
    let id = ext_id_text(x as int, y as int, z as int);
    let prefix = "__ext_"@;
    assert(prefix.len() == 6);
    assert(id.take(6) == prefix);
    let rest = id.skip(6);
    assert(rest == dx + seq!['_'] + dy + seq!['_'] + dz);
    lemma_dec_int_chars(x as int, '_');
    lemma_dec_int_chars(y as int, '_');
    lemma_dec_int_chars(z as int, '_');
    assert forall|j: int| 0 <= j < dx.len() implies rest[j] != '_' by {
        assert(rest[j] == dx[j]);
    }
    lemma_first_index_unique(rest, '_', dx.len() as int);
    let r = rest.skip(dx.len() as int + 1);
    assert(r == dy + seq!['_'] + dz);
    assert forall|j: int| 0 <= j < dy.len() implies r[j] != '_' by {
        assert(r[j] == dy[j]);
    }
    lemma_first_index_unique(r, '_', dy.len() as int);
    assert(rest.take(dx.len() as int) == dx);
    assert(r.take(dy.len() as int) == dy);
    assert(r.skip(dy.len() as int + 1) == dz);
    lemma_parse_dec_int(x as int, i32::MIN as int, i32::MAX as int);
    lemma_parse_dec_int(y as int, i32::MIN as int, i32::MAX as int);
    lemma_parse_dec_int(z as int, i32::MIN as int, i32::MAX as int);
}

// ── Keyed lists ───────────────────────────────────────────────────────────────

/// The position of the first entry with key `k`.
pub open spec fn key_pos<K, V>(s: Seq<(K, V)>, k: K) -> Option<int>
    decreases s.len(),
{
    if s.len() == 0 {
        None
    } else {
        match key_pos(s.drop_last(), k) {
            Some(i) => Some(i),
            None => if s.last().0 == k {
                Some(s.len() - 1)
            } else {
                None
            },
        }
    }
}

/// The value under key `k`.
pub open spec fn map_get<K, V>(s: Seq<(K, V)>, k: K) -> Option<V> {
    match key_pos(s, k) {
        Some(i) => Some(s[i].1),
        None => None,
    }
}

/// `s` with `v` under key `k`: the entry of `k` replaced in place, or a new
/// entry at the end (`HashMap::insert`).
pub open spec fn map_put<K, V>(s: Seq<(K, V)>, k: K, v: V) -> Seq<(K, V)> {
    match key_pos(s, k) {
        Some(i) => s.update(i, (k, v)),
        None => s.push((k, v)),
    }
}

/// No key occurs twice.
pub open spec fn keys_unique<K, V>(s: Seq<(K, V)>) -> bool {
    forall|a: int, b: int| 0 <= a < b < s.len() ==> s[a].0 != s[b].0
}

pub proof fn lemma_key_pos<K, V>(s: Seq<(K, V)>, k: K)
    ensures
        match key_pos(s, k) {
            Some(i) => 0 <= i < s.len() && s[i].0 == k && forall|j: int| 0 <= j < i ==> s[j].0 != k,
            None => forall|j: int| 0 <= j < s.len() ==> s[j].0 != k,
        },
    decreases s.len(),
{
    if s.len() > 0 {
        lemma_key_pos(s.drop_last(), k);
        match key_pos(s.drop_last(), k) {
            Some(i) => {
                assert forall|j: int| 0 <= j < i implies s[j].0 != k by {
                    assert(s[j] == s.drop_last()[j]);
                }
                assert(s[i] == s.drop_last()[i]);
            },
            None => {
                assert forall|j: int| 0 <= j < s.len() - 1 implies s[j].0 != k by {
                    assert(s[j] == s.drop_last()[j]);
                }
            },
        }
    }
}

pub proof fn lemma_key_pos_is<K, V>(s: Seq<(K, V)>, k: K, i: int)
    requires
        0 <= i < s.len(),
        s[i].0 == k,
        forall|j: int| 0 <= j < i ==> s[j].0 != k,
    ensures
        key_pos(s, k) == Some(i),
    decreases s.len(),
{
    lemma_key_pos(s, k);
    match key_pos(s, k) {
        Some(p) => {
            if p < i {
                assert(s[p].0 != k);
            }
            if i < p {
            }
        },
        None => {},
    }
}

/// After a put, the key holds the new value and every other key its old one.
pub proof fn lemma_map_put_get<K, V>(s: Seq<(K, V)>, k: K, v: V, k2: K)
    ensures
        map_get(map_put(s, k, v), k2) == if k2 == k {
            Some(v)
        } else {
            map_get(s, k2)
        },
{
    lemma_key_pos(s, k);
    lemma_key_pos(s, k2);
    let t = map_put(s, k, v);
    lemma_key_pos(t, k2);
    match key_pos(s, k) {
        Some(i) => {
            if k2 == k {
                lemma_key_pos_is(t, k2, i);
            } else {
                match key_pos(s, k2) {
                    Some(j) => {
                        assert forall|m: int| 0 <= m < j implies t[m].0 != k2 by {
                            if m != i {
                                assert(t[m] == s[m]);
                            }
                        }
                        lemma_key_pos_is(t, k2, j);
                    },
                    None => {
                        assert forall|m: int| 0 <= m < t.len() implies t[m].0 != k2 by {
                            if m != i {
                                assert(t[m] == s[m]);
                            }
                        }
                    },
                }
            }
        },
        None => {
            if k2 == k {
                assert forall|m: int| 0 <= m < s.len() implies t[m].0 != k2 by {
                    assert(t[m] == s[m]);
                }
                lemma_key_pos_is(t, k2, s.len() as int);
            } else {
                match key_pos(s, k2) {
                    Some(j) => {
                        assert forall|m: int| 0 <= m < j implies t[m].0 != k2 by {
                            assert(t[m] == s[m]);
                        }
                        assert(t[j] == s[j]);
                        lemma_key_pos_is(t, k2, j);
                    },
                    None => {
                        assert forall|m: int| 0 <= m < t.len() implies t[m].0 != k2 by {
                            if m < s.len() {
                                assert(t[m] == s[m]);
                            }
                        }
                    },
                }
            }
        },
    }
}

/// A put keeps keys unique.
pub proof fn lemma_map_put_unique<K, V>(s: Seq<(K, V)>, k: K, v: V)
    requires
        keys_unique(s),
    ensures
        keys_unique(map_put(s, k, v)),
{
    lemma_key_pos(s, k);
    let t = map_put(s, k, v);
    assert forall|a: int, b: int| 0 <= a < b < t.len() implies t[a].0 != t[b].0 by {
        match key_pos(s, k) {
            Some(i) => {
                if a != i && b != i {
                    assert(t[a] == s[a] && t[b] == s[b]);
                } else if a == i {
                    assert(t[b] == s[b]);
                    assert(s[i].0 == k);
                } else {
                    assert(t[a] == s[a]);
                    assert(s[i].0 == k);
                }
            },
            None => {
                if b < s.len() {
                    assert(t[a] == s[a] && t[b] == s[b]);
                } else {
                    assert(t[a] == s[a]);
                }
            },
        }
    }
}

// ── The link graph ────────────────────────────────────────────────────────────

/// A chip port addressed as (chip id, port label).
pub type PortRef = (String, String);

/// A chip port as texts.
pub type PortKey = (Seq<char>, Seq<char>);

/// Links from source ports to destination ports; each source has one link.
/// An ALU's own external ports take part under its pseudo-chip id.
pub struct LinkGraph {
    pub links: Vec<(PortRef, PortRef)>,
}

/// A port reference as texts.
pub open spec fn ref_key(r: PortRef) -> PortKey {
    (r.0@, r.1@)
}

/// The links as texts.
pub open spec fn links_view(v: Seq<(PortRef, PortRef)>) -> Seq<(PortKey, PortKey)> {
    v.map_values(|e: (PortRef, PortRef)| (ref_key(e.0), ref_key(e.1)))
}

impl View for LinkGraph {
    type V = Seq<(PortKey, PortKey)>;

    open spec fn view(&self) -> Seq<(PortKey, PortKey)> {
        links_view(self.links@)
    }
}

fn copy_ref(r: &PortRef) -> (c: PortRef)
    ensures
        c.0@ == r.0@,
        c.1@ == r.1@,
{
    (r.0.clone(), r.1.clone())
}

impl LinkGraph {
    /// No source is linked twice.
    pub open spec fn wf(&self) -> bool {
        keys_unique(self@)
    }

    /// A graph without links.
    pub fn new() -> (g: LinkGraph)
        ensures
            g@ == Seq::<(PortKey, PortKey)>::empty(),
            g.wf(),
    {
        LinkGraph { links: Vec::new() }
    }

    /// How many links there are.
    pub fn len(&self) -> (n: usize)
        ensures
            n == self@.len(),
    {
        self.links.len()
    }

    /// Where the link from `from` stands.
    fn position(&self, from: &PortRef) -> (r: Option<usize>)
        ensures
            match key_pos(self@, (from.0@, from.1@)) {
                Some(i) => r is Some && r->0 == i,
                None => r is None,
            },
    {
        let ghost k = (from.0@, from.1@);
        let mut i: usize = 0;
        while i < self.links.len()
            invariant
                i <= self.links@.len(),
                k == (from.0@, from.1@),
                forall|j: int| 0 <= j < i ==> self@[j].0 != k,
            decreases self.links@.len() - i,
        {
            let src = &self.links[i].0;
            assert(self@[i as int].0 == ref_key(*src));
            if str_eq(src.0.as_str(), from.0.as_str()) && str_eq(src.1.as_str(), from.1.as_str()) {
                proof {
                    lemma_key_pos_is(self@, k, i as int);
                }
                return Some(i);
            }
            i += 1;
        }
        proof {
            lemma_key_pos(self@, k);
        }
        None
    }

    /// Link `from` to `to`, replacing any link from `from` (`HashMap::insert`).
    pub fn insert(&mut self, from: PortRef, to: PortRef)
        requires
            old(self).wf(),
        ensures
            final(self).wf(),
            final(self)@ == map_put(old(self)@, (from.0@, from.1@), (to.0@, to.1@)),
    {
        let ghost k = (from.0@, from.1@);
        let ghost v = (to.0@, to.1@);
        proof {
            lemma_map_put_unique(self@, k, v);
            lemma_key_pos(self@, k);
        }
        match self.position(&from) {
            Some(i) => {
                self.links.set(i, (from, to));
                assert(self@ =~= old(self)@.update(i as int, (k, v)));
            },
            None => {
                self.links.push((from, to));
                assert(self@ =~= old(self)@.push((k, v)));
            },
        }
    }

    /// Where the link from `from` leads.
    pub fn get(&self, from: &PortRef) -> (r: Option<PortRef>)
        ensures
            match map_get(self@, (from.0@, from.1@)) {
                Some(t) => r matches Some(p) && (p.0@, p.1@) == t,
                None => r is None,
            },
    {
        proof {
            lemma_key_pos(self@, (from.0@, from.1@));
        }
        match self.position(from) {
            Some(i) => {
                assert(key_pos(self@, (from.0@, from.1@)) == Some(i as int));
                assert(self@[i as int].1 == ref_key(self.links@[i as int].1));
                let t = copy_ref(&self.links[i].1);
                assert(map_get(self@, (from.0@, from.1@)) == Some(ref_key(t)));
                Some(t)
            },
            None => None,
        }
    }
}

// ── I/O modes of external ports ───────────────────────────────────────────────

/// The mode text of each external port, by `<pseudo-chip id>:<side>`.
pub struct IoModes {
    pub modes: Vec<(String, String)>,
}

impl View for IoModes {
    type V = Seq<(Seq<char>, Seq<char>)>;

    open spec fn view(&self) -> Seq<(Seq<char>, Seq<char>)> {
        self.modes@.map_values(|e: (String, String)| (e.0@, e.1@))
    }
}

/// The mode of a port with no mode set.
pub open spec fn default_mode() -> Seq<char> {
    "Input"@
}

/// The mode that follows `m` when an external port's mode is clicked:
/// input, output, bidirectional, and back to input from anything else.
pub open spec fn next_mode(m: Seq<char>) -> Seq<char> {
    if m == "Input"@ {
        "Output"@
    } else if m == "Output"@ {
        "Bidirectional"@
    } else {
        "Input"@
    }
}

impl IoModes {
    pub open spec fn wf(&self) -> bool {
        keys_unique(self@)
    }

    /// No modes set.
    pub fn new() -> (m: IoModes)
        ensures
            m@ == Seq::<(Seq<char>, Seq<char>)>::empty(),
            m.wf(),
    {
        IoModes { modes: Vec::new() }
    }

    fn position(&self, key: &str) -> (r: Option<usize>)
        ensures
            match key_pos(self@, key@) {
                Some(i) => r is Some && r->0 == i,
                None => r is None,
            },
    {
        let mut i: usize = 0;
        while i < self.modes.len()
            invariant
                i <= self.modes@.len(),
                forall|j: int| 0 <= j < i ==> self@[j].0 != key@,
            decreases self.modes@.len() - i,
        {
            assert(self@[i as int] == (self.modes@[i as int].0@, self.modes@[i as int].1@));
            if str_eq(self.modes[i].0.as_str(), key) {
                proof {
                    lemma_key_pos_is(self@, key@, i as int);
                }
                return Some(i);
            }
            i += 1;
        }
        proof {
            lemma_key_pos(self@, key@);
        }
        None
    }

    /// The mode under `key`, or input when none is set.
    pub fn mode_of(&self, key: &str) -> (r: String)
        ensures
            r@ == match map_get(self@, key@) {
                Some(m) => m,
                None => default_mode(),
            },
    {
        proof {
            lemma_key_pos(self@, key@);
        }
        match self.position(key) {
            Some(i) => {
                assert(key_pos(self@, key@) == Some(i as int));
                assert(self@[i as int].1 == self.modes@[i as int].1@);
                let m = self.modes[i].1.clone();
                assert(map_get(self@, key@) == Some(m@));
                m
            },
            None => String::from_str("Input"),
        }
    }

    /// Set the mode under `key`.
    pub fn insert(&mut self, key: String, mode: String)
        requires
            old(self).wf(),
        ensures
            final(self).wf(),
            final(self)@ == map_put(old(self)@, key@, mode@),
    {
        proof {
            lemma_map_put_unique(self@, key@, mode@);
            lemma_key_pos(self@, key@);
        }
        match self.position(key.as_str()) {
            Some(i) => {
                let ghost kv = (key@, mode@);
                self.modes.set(i, (key, mode));
                assert(self@ =~= old(self)@.update(i as int, kv));
            },
            None => {
                let ghost kv = (key@, mode@);
                self.modes.push((key, mode));
                assert(self@ =~= old(self)@.push(kv));
            },
        }
    }
}

/// The mode after `m`.
pub fn next_mode_of(m: &str) -> (r: &'static str)
    ensures
        r@ == next_mode(m@),
{
    if str_eq(m, "Input") {
        "Output"
    } else if str_eq(m, "Output") {
        "Bidirectional"
    } else {
        "Input"
    }
}

/// Three clicks bring an external port back to its mode when it is one of
/// the three; any other text becomes input.
pub proof fn lemma_next_mode_cycle(m: Seq<char>)
    ensures
        (m == "Input"@ || m == "Output"@ || m == "Bidirectional"@) ==> next_mode(next_mode(next_mode(m))) == m,
        !(m == "Input"@ || m == "Output"@ || m == "Bidirectional"@) ==> next_mode(m) == "Input"@,
{
    reveal_strlit("Input");
    reveal_strlit("Output");
    reveal_strlit("Bidirectional");
    assert("Input"@ != "Output"@) by {
        assert("Input"@[0] != "Output"@[0]);
    }
    assert("Output"@ != "Bidirectional"@) by {
        assert("Output"@[0] != "Bidirectional"@[0]);
    }
    assert("Input"@ != "Bidirectional"@) by {
        assert("Input"@[0] != "Bidirectional"@[0]);
    }
}

// ── Stepping chips at their tier's rate ───────────────────────────────────────

/// Quarter-steps a chip of tier `t` is owed per server tick (20 ticks a
/// second): its tick rate divided by five.
pub open spec fn quarters_per_tick(t: Tier) -> nat {
    (t.spec_tick_rate() / 5) as nat
}

/// One server tick for a chip owed `owed` quarter-steps: the whole steps
/// now due, and the quarter-steps left over.
pub fn owed_steps(owed: u32, tier: Tier) -> (r: (u32, u32))
    requires
        owed < 4,
    ensures
        r.0 == (owed + quarters_per_tick(tier)) / 4,
        r.1 == (owed + quarters_per_tick(tier)) % 4,
{
    let mut total = owed + tier.tick_rate() / 5;
    let mut steps: u32 = 0;
    while total >= 4
        invariant
            total + 4 * steps == owed + quarters_per_tick(tier),
            total <= 12,
        decreases total,
    {
        steps += 1;
        total -= 4;
    }
    (steps, total)
}

/// Steps taken over `n` server ticks, starting with `owed` quarter-steps.
pub open spec fn steps_over(owed: nat, t: Tier, n: nat) -> (nat, nat)
    decreases n,
{
    if n == 0 {
        (0, owed)
    } else {
        let total = owed + quarters_per_tick(t);
        let rest = steps_over(total % 4, t, (n - 1) as nat);
        (total / 4 + rest.0, rest.1)
    }
}

proof fn lemma_steps_over(owed: nat, t: Tier, n: nat)
    ensures
        steps_over(owed, t, n).0 * 4 + steps_over(owed, t, n).1 == owed + n * quarters_per_tick(t),
        steps_over(owed, t, n).1 < 4 || n == 0,
    decreases n,
{
    if n > 0 {
        let total = owed + quarters_per_tick(t);
        lemma_steps_over(total % 4, t, (n - 1) as nat);
        assert((n - 1) * quarters_per_tick(t) + quarters_per_tick(t) == n * quarters_per_tick(t)) by (nonlinear_arith);
    }
}

/// Over `n` server ticks from nothing owed, a chip takes a quarter of its
/// tier's quarter-steps in whole steps and is owed the rest: a Netherite
/// chip two steps every tick, a Wood chip one step every four ticks.
pub proof fn lemma_steps_over_ticks(t: Tier, n: nat)
    ensures
        steps_over(0, t, n).0 == (n * quarters_per_tick(t)) / 4,
        steps_over(0, t, n).1 == (n * quarters_per_tick(t)) % 4,
        t == Tier::Netherite ==> steps_over(0, t, n).0 == 2 * n && steps_over(0, t, n).1 == 0,
        t == Tier::Wood ==> steps_over(0, t, n).0 == n / 4 && steps_over(0, t, n).1 == n % 4,
{
    lemma_steps_over(0, t, n);
    let s = steps_over(0, t, n);
    let q = quarters_per_tick(t);
    if n == 0 {
        assert(n * q == 0);
    } else {
        vstd::arithmetic::div_mod::lemma_fundamental_div_mod_converse((n * q) as int, 4, s.0 as int, s.1 as int);
    }
    if t == Tier::Netherite {
        assert(q == 8);
        assert(n * q == 8 * n) by (nonlinear_arith)
            requires
                q == 8,
        ;
    }
    if t == Tier::Wood {
        assert(q == 1);
        assert(n * q == n) by (nonlinear_arith)
            requires
                q == 1,
        ;
    }
}

/// Over one second of server ticks a chip takes exactly its tier's tick
/// rate in steps and is owed nothing after.
pub proof fn lemma_steps_per_second(t: Tier)
    ensures
        steps_over(0, t, 20).0 == t.spec_tick_rate(),
        steps_over(0, t, 20).1 == 0,
{
    lemma_steps_over(0, t, 20);
    assert(20 * quarters_per_tick(t) == 4 * t.spec_tick_rate());
}

} // verus!
