//! Virtual circuit editor. Each player edits in a lane of a reserved region
//! of the Overworld, assigned on first use and kept after; an editing
//! session remembers what is being edited and where. Saving scans the
//! lane's platform: air and the glass wall are skipped, port blocks become
//! ports, anything else a circuit block. Reading and writing the world is
//! the application's part; this module decides lanes, sessions and what a
//! scanned platform saves as.

use vstd::prelude::*;

use crate::alu::{key_pos, keys_unique, lemma_key_pos, lemma_key_pos_is, map_get};
use crate::chip::{new_chip_id, uuid_v4_text, CircuitBlock, CircuitData, Port, PortDir, PortSide};
use crate::designs::{DesignEntry, DesignMeta};
use crate::port::{dir_for_block, port_block_of};
use crate::text::{dec_nat, push_dec, str_eq};
use crate::vm::Tier;

verus! {

broadcast use vstd::string::group_string_axioms;

/// Y level of the build platform inside every lane.
pub const EDITOR_Y: i32 = 10;

/// X coordinate of lane 0; further lanes are offset along X.
pub const BASE_X: i32 = 2_000_000;

/// Z coordinate of every lane.
pub const BASE_Z: i32 = 2_000_000;

/// Spacing between lanes, larger than the biggest tier's world.
pub const LANE_SPACING: i32 = 320;

// ── Lanes ─────────────────────────────────────────────────────────────────────

/// Each player's lane: the lane of a player is where the player stands in
/// the list, in the order of first use.
pub struct LaneTable {
    pub players: Vec<String>,
}

/// The players as texts.
pub open spec fn players_view(v: Seq<String>) -> Seq<Seq<char>> {
    v.map_values(|s: String| s@)
}

/// The position of `p` in `s`.
pub open spec fn index_of(s: Seq<Seq<char>>, p: Seq<char>) -> Option<int>
    decreases s.len(),
{
    if s.len() == 0 {
        None
    } else {
        match index_of(s.drop_last(), p) {
            Some(i) => Some(i),
            None => if s.last() == p {
                Some(s.len() - 1)
            } else {
                None
            },
        }
    }
}

proof fn lemma_index_of(s: Seq<Seq<char>>, p: Seq<char>)
    ensures
        match index_of(s, p) {
            Some(i) => 0 <= i < s.len() && s[i] == p && forall|j: int| 0 <= j < i ==> s[j] != p,
            None => forall|j: int| 0 <= j < s.len() ==> s[j] != p,
        },
    decreases s.len(),
{
    if s.len() > 0 {
        lemma_index_of(s.drop_last(), p);
        assert forall|j: int| 0 <= j < s.len() - 1 implies s[j] == s.drop_last()[j] by {}
    }
}

proof fn lemma_index_of_is(s: Seq<Seq<char>>, p: Seq<char>, i: int)
    requires
        0 <= i < s.len(),
        s[i] == p,
        forall|j: int| 0 <= j < i ==> s[j] != p,
    ensures
        index_of(s, p) == Some(i),
{
    lemma_index_of(s, p);
    match index_of(s, p) {
        Some(k) => {
            if k < i {
                assert(s[k] != p);
            } else if i < k {
            }
        },
        None => {},
    }
}

/// The lane table after `p` asks for a lane, and that lane: an earlier
/// player keeps its lane; a new one is added with the next lane.
pub open spec fn lane_step(s: Seq<Seq<char>>, p: Seq<char>) -> (Seq<Seq<char>>, int) {
    match index_of(s, p) {
        Some(i) => (s, i),
        None => (s.push(p), s.len() as int),
    }
}

impl LaneTable {
    /// No lanes assigned.
    pub fn new() -> (t: LaneTable)
        ensures
            players_view(t.players@) == Seq::<Seq<char>>::empty(),
    {
        LaneTable { players: Vec::new() }
    }

    /// The lane of `player_name`, assigned on first use.
    pub fn lane_for(&mut self, player_name: &str) -> (lane: u32)
        requires
            old(self).players@.len() < u32::MAX,
        ensures
            (players_view(final(self).players@), lane as int) == lane_step(
                players_view(old(self).players@),
                player_name@,
            ),
    {
        let ghost pv = players_view(self.players@);
        let mut i: usize = 0;
        while i < self.players.len()
            invariant
                i <= self.players@.len(),
                pv == players_view(self.players@),
                self.players@.len() < u32::MAX,
                forall|j: int| 0 <= j < i ==> pv[j] != player_name@,
            decreases self.players@.len() - i,
        {
            assert(pv[i as int] == self.players@[i as int]@);
            if str_eq(self.players[i].as_str(), player_name) {
                proof {
                    lemma_index_of_is(pv, player_name@, i as int);
                }
                return i as u32;
            }
            i += 1;
        }
        proof {
            lemma_index_of(pv, player_name@);
        }
        let next = self.players.len() as u32;
        self.players.push(String::from_str(player_name));
        assert(players_view(self.players@) =~= pv.push(player_name@));
        next
    }
}

/// A player keeps the lane it was given, and players who asked are in
/// different lanes.
pub proof fn lemma_lanes_stable_and_distinct(s: Seq<Seq<char>>, p: Seq<char>, q: Seq<char>)
    ensures
        lane_step(lane_step(s, p).0, p) == lane_step(s, p),
        p != q ==> lane_step(lane_step(s, p).0, q).1 != lane_step(s, p).1,
{
    lemma_index_of(s, p);
    let t = lane_step(s, p).0;
    let lp = lane_step(s, p).1;
    assert(0 <= lp < t.len() && t[lp] == p);
    lemma_index_of(t, p);
    match index_of(t, p) {
        Some(k) => {
            if k < lp {
                assert(t[k] == s[k]);
            }
            if lp < k {
            }
        },
        None => {},
    }
    lemma_index_of(t, q);
    if p != q {
        match index_of(t, q) {
            Some(k) => assert(t[k] == q),
            None => {},
        }
    }
}

/// The corner of a lane's platform: (x, z).
pub open spec fn spec_lane_origin(lane: u32) -> (int, int) {
    (BASE_X + lane * LANE_SPACING, BASE_Z as int)
}

/// The corner of a lane's platform.
pub fn lane_origin(lane: u32) -> (r: (i32, i32))
    requires
        lane <= 6_704_636,
    ensures
        (r.0 as int, r.1 as int) == spec_lane_origin(lane),
{
    (BASE_X + lane as i32 * LANE_SPACING, BASE_Z)
}

/// The cell a port stands on, by its index: (index mod size, index / size).
pub fn port_cell(index: u32, size: u32) -> (r: (u32, u32))
    requires
        size > 0,
    ensures
        r.0 == index % size,
        r.1 == index / size,
{
    (index % size, index / size)
}

// ── Sessions ──────────────────────────────────────────────────────────────────

/// What a player is editing and where.
pub struct EditorSession {
    /// The design being edited; `None` for a new one.
    pub design_id: Option<String>,
    pub name: String,
    pub tier: Tier,
    pub origin_x: i32,
    pub origin_z: i32,
    pub size: u32,
}

/// The open editing sessions, one per player.
pub struct SessionTable {
    pub sessions: Vec<(String, EditorSession)>,
}

/// The players with an open session, in order.
pub open spec fn session_players(v: Seq<(String, EditorSession)>) -> Seq<Seq<char>> {
    v.map_values(|e: (String, EditorSession)| e.0@)
}

/// A session as values: design id, name, tier, platform corner (x, z), size.
pub type SessionView = (Option<Seq<char>>, Seq<char>, Tier, i32, i32, u32);

/// An editing session as values.
pub open spec fn session_view(s: EditorSession) -> SessionView {
    (
        match s.design_id {
            Some(id) => Some(id@),
            None => None,
        },
        s.name@,
        s.tier,
        s.origin_x,
        s.origin_z,
        s.size,
    )
}

/// The session stored for player `p`, as values; `None` when `p` has none.
pub open spec fn session_of(v: Seq<(String, EditorSession)>, p: Seq<char>) -> Option<SessionView> {
    match index_of(session_players(v), p) {
        Some(i) => Some(session_view(v[i].1)),
        None => None,
    }
}

/// No player holds two sessions.
pub open spec fn players_unique(v: Seq<(String, EditorSession)>) -> bool {
    forall|a: int, b: int| 0 <= a < b < v.len() ==> v[a].0@ != v[b].0@
}

proof fn lemma_session_at(v: Seq<(String, EditorSession)>, p: Seq<char>, i: int)
    requires
        players_unique(v),
        0 <= i < v.len(),
        v[i].0@ == p,
    ensures
        session_of(v, p) == Some(session_view(v[i].1)),
{
    let pv = session_players(v);
    lemma_index_of(pv, p);
    assert(pv[i] == p);
    match index_of(pv, p) {
        Some(k) => {
            assert(pv[k] == v[k].0@);
            if k < i {
                assert(v[k].0@ != v[i].0@);
            } else if i < k {
                assert(v[i].0@ != v[k].0@);
            }
        },
        None => {},
    }
}

proof fn lemma_session_absent(v: Seq<(String, EditorSession)>, p: Seq<char>)
    requires
        forall|i: int| 0 <= i < v.len() ==> v[i].0@ != p,
    ensures
        session_of(v, p) is None,
{
    let pv = session_players(v);
    lemma_index_of(pv, p);
    match index_of(pv, p) {
        Some(k) => {
            assert(pv[k] == v[k].0@);
        },
        None => {},
    }
}

proof fn lemma_session_found(v: Seq<(String, EditorSession)>, p: Seq<char>)
    ensures
        match session_of(v, p) {
            Some(sv) => exists|i: int| 0 <= i < v.len() && v[i].0@ == p && session_view(v[i].1) == sv,
            None => forall|i: int| 0 <= i < v.len() ==> v[i].0@ != p,
        },
{
    let pv = session_players(v);
    lemma_index_of(pv, p);
    match index_of(pv, p) {
        Some(k) => {
            assert(pv[k] == v[k].0@);
        },
        None => {
            assert forall|i: int| 0 <= i < v.len() implies v[i].0@ != p by {
                assert(pv[i] == v[i].0@);
            }
        },
    }
}

impl SessionTable {
    /// One session per player.
    pub open spec fn wf(&self) -> bool {
        forall|a: int, b: int|
            0 <= a < b < self.sessions@.len() ==> self.sessions@[a].0@ != self.sessions@[b].0@
    }

    /// No sessions.
    pub fn new() -> (t: SessionTable)
        ensures
            t.wf(),
            session_players(t.sessions@) == Seq::<Seq<char>>::empty(),
    {
        SessionTable { sessions: Vec::new() }
    }

    fn position(&self, player_name: &str) -> (r: Option<usize>)
        ensures
            match index_of(session_players(self.sessions@), player_name@) {
                Some(i) => r is Some && r->0 == i,
                None => r is None,
            },
    {
        let ghost pv = session_players(self.sessions@);
        let mut i: usize = 0;
        while i < self.sessions.len()
            invariant
                i <= self.sessions@.len(),
                pv == session_players(self.sessions@),
                forall|j: int| 0 <= j < i ==> pv[j] != player_name@,
            decreases self.sessions@.len() - i,
        {
            assert(pv[i as int] == self.sessions@[i as int].0@);
            if str_eq(self.sessions[i].0.as_str(), player_name) {
                proof {
                    lemma_index_of_is(pv, player_name@, i as int);
                }
                return Some(i);
            }
            i += 1;
        }
        proof {
            lemma_index_of(pv, player_name@);
        }
        None
    }

    /// Whether `player_name` has an open session.
    pub fn is_editing(&self, player_name: &str) -> (r: bool)
        ensures
            r == session_players(self.sessions@).contains(player_name@),
    {
        proof {
            lemma_index_of(session_players(self.sessions@), player_name@);
        }
        match self.position(player_name) {
            Some(_) => true,
            None => false,
        }
    }

    /// Open (or replace) `player_name`'s session.
    pub fn begin(&mut self, player_name: &str, session: EditorSession)
        requires
            old(self).wf(),
        ensures
            final(self).wf(),
            session_players(final(self).sessions@).contains(player_name@),
            forall|p: Seq<char>|
                p != player_name@ ==> (#[trigger] session_players(final(self).sessions@).contains(p)
                    == session_players(old(self).sessions@).contains(p)),
            session_of(final(self).sessions@, player_name@) == Some(session_view(session)),
            forall|p: Seq<char>|
                p != player_name@ ==> #[trigger] session_of(final(self).sessions@, p) == session_of(
                    old(self).sessions@,
                    p,
                ),
    {
        let ghost pv = session_players(self.sessions@);
        let ghost sv = session_view(session);
        proof {
            lemma_index_of(pv, player_name@);
        }
        match self.position(player_name) {
            Some(i) => {
                let key = String::from_str(player_name);
                self.sessions.set(i, (key, session));
                assert(session_players(self.sessions@) =~= pv.update(i as int, player_name@));
                assert(session_players(self.sessions@)[i as int] == player_name@);
                assert forall|p: Seq<char>| p != player_name@ implies (#[trigger] session_players(
                    self.sessions@,
                ).contains(p) == pv.contains(p)) by {
                    if pv.contains(p) {
                        let k = choose|k: int| 0 <= k < pv.len() && pv[k] == p;
                        assert(session_players(self.sessions@)[k] == p);
                    }
                    if session_players(self.sessions@).contains(p) {
                        let k = choose|k: int| 0 <= k < pv.len() && session_players(self.sessions@)[k] == p;
                        assert(pv[k] == p);
                    }
                }
            },
            None => {
                self.sessions.push((String::from_str(player_name), session));
                assert(session_players(self.sessions@) =~= pv.push(player_name@));
                assert(session_players(self.sessions@)[pv.len() as int] == player_name@);
                assert forall|p: Seq<char>| p != player_name@ implies (#[trigger] session_players(
                    self.sessions@,
                ).contains(p) == pv.contains(p)) by {
                    if pv.contains(p) {
                        let k = choose|k: int| 0 <= k < pv.len() && pv[k] == p;
                        assert(session_players(self.sessions@)[k] == p);
                    }
                    if session_players(self.sessions@).contains(p) {
                        let k = choose|k: int| 0 <= k <= pv.len() && session_players(self.sessions@)[k] == p;
                        assert(pv[k] == p);
                    }
                }
            },
        }
        assert forall|a: int, b: int| 0 <= a < b < self.sessions@.len() implies self.sessions@[a].0@
            != self.sessions@[b].0@ by {
            assert(session_players(self.sessions@)[a] == self.sessions@[a].0@);
            assert(session_players(self.sessions@)[b] == self.sessions@[b].0@);
            if a < pv.len() && b < pv.len() {
                assert(old(self).sessions@[a].0@ == pv[a]);
            }
        }
        proof {
            let v0 = old(self).sessions@;
            let v1 = self.sessions@;
            assert(players_unique(v1));
            let j = if pv.contains(player_name@) {
                choose|j: int| 0 <= j < pv.len() && pv[j] == player_name@
            } else {
                pv.len() as int
            };
            assert(v1[j].0@ == player_name@ && v1[j].1 == session) by {
                lemma_index_of(pv, player_name@);
            }
            lemma_session_at(v1, player_name@, j);
            assert forall|p: Seq<char>| p != player_name@ implies #[trigger] session_of(v1, p) == session_of(v0, p) by {
                lemma_session_found(v0, p);
                match session_of(v0, p) {
                    Some(x) => {
                        let k = choose|k: int| 0 <= k < v0.len() && v0[k].0@ == p && session_view(v0[k].1) == x;
                        assert(pv[k] == v0[k].0@);
                        assert(k != j);
                        assert(v1[k] == v0[k]);
                        lemma_session_at(v1, p, k);
                    },
                    None => {
                        assert forall|k: int| 0 <= k < v1.len() implies v1[k].0@ != p by {
                            if k != j {
                                assert(v1[k] == v0[k]);
                            }
                        }
                        lemma_session_absent(v1, p);
                    },
                }
            }
        }
    }

    /// Close `player_name`'s session and hand it back; `None` when there is none.
    pub fn end(&mut self, player_name: &str) -> (r: Option<EditorSession>)
        requires
            old(self).wf(),
        ensures
            final(self).wf(),
            r is Some == session_players(old(self).sessions@).contains(player_name@),
            !session_players(final(self).sessions@).contains(player_name@),
            forall|p: Seq<char>|
                p != player_name@ ==> (#[trigger] session_players(final(self).sessions@).contains(p)
                    == session_players(old(self).sessions@).contains(p)),
            match r {
                Some(s) => session_of(old(self).sessions@, player_name@) == Some(session_view(s)),
                None => session_of(old(self).sessions@, player_name@) is None,
            },
            session_of(final(self).sessions@, player_name@) is None,
            forall|p: Seq<char>|
                p != player_name@ ==> #[trigger] session_of(final(self).sessions@, p) == session_of(
                    old(self).sessions@,
                    p,
                ),
    {
        let ghost pv = session_players(self.sessions@);
        proof {
            lemma_index_of(pv, player_name@);
        }
        match self.position(player_name) {
            Some(i) => {
                let (_, s) = self.sessions.remove(i);
                assert(session_players(self.sessions@) =~= pv.remove(i as int));
                assert forall|p: Seq<char>| p != player_name@ implies (#[trigger] session_players(
                    self.sessions@,
                ).contains(p) == pv.contains(p)) by {
                    if pv.contains(p) {
                        let k = choose|k: int| 0 <= k < pv.len() && pv[k] == p;
                        if k < i {
                            assert(session_players(self.sessions@)[k] == p);
                        } else {
                            assert(session_players(self.sessions@)[k - 1] == p);
                        }
                    }
                    if session_players(self.sessions@).contains(p) {
                        let k = choose|k: int|
                            0 <= k < pv.len() - 1 && session_players(self.sessions@)[k] == p;
                        if k < i {
                            assert(pv[k] == p);
                        } else {
                            assert(pv[k + 1] == p);
                        }
                    }
                }
                assert(!session_players(self.sessions@).contains(player_name@)) by {
                    if session_players(self.sessions@).contains(player_name@) {
                        let k = choose|k: int|
                            0 <= k < pv.len() - 1 && session_players(self.sessions@)[k] == player_name@;
                        if k < i {
                            assert(pv[k] == player_name@);
                        } else {
                            assert(pv[k + 1] == player_name@);
                            assert(old(self).sessions@[k + 1].0@ == pv[k + 1]);
                            assert(old(self).sessions@[i as int].0@ == pv[i as int]);
                        }
                    }
                }
                assert forall|a: int, b: int| 0 <= a < b < self.sessions@.len() implies self.sessions@[a].0@
                    != self.sessions@[b].0@ by {
                    let oa = if a < i { a } else { a + 1 };
                    let ob = if b < i { b } else { b + 1 };
                    assert(self.sessions@[a] == old(self).sessions@[oa]);
                    assert(self.sessions@[b] == old(self).sessions@[ob]);
                }
                proof {
                    let v0 = old(self).sessions@;
                    let v1 = self.sessions@;
                    let ii = i as int;
                    assert(v0[ii].0@ == player_name@) by {
                        assert(pv[ii] == v0[ii].0@);
                    }
                    lemma_session_at(v0, player_name@, ii);
                    assert(players_unique(v1));
                    assert forall|k: int| 0 <= k < v1.len() implies v1[k].0@ != player_name@ by {
                        assert(session_players(v1)[k] == v1[k].0@);
                    }
                    lemma_session_absent(v1, player_name@);
                    assert forall|p: Seq<char>| p != player_name@ implies #[trigger] session_of(v1, p) == session_of(v0, p) by {
                        lemma_session_found(v0, p);
                        match session_of(v0, p) {
                            Some(x) => {
                                let k = choose|k: int| 0 <= k < v0.len() && v0[k].0@ == p && session_view(v0[k].1) == x;
                                assert(k != ii);
                                let k1 = if k < ii { k } else { k - 1 };
                                assert(v1[k1] == v0[k]);
                                lemma_session_at(v1, p, k1);
                            },
                            None => {
                                assert forall|k: int| 0 <= k < v1.len() implies v1[k].0@ != p by {
                                    let k0 = if k < ii { k } else { k + 1 };
                                    assert(v1[k] == v0[k0]);
                                }
                                lemma_session_absent(v1, p);
                            },
                        }
                    }
                }
                Some(s)
            },
            None => {
                assert(!pv.contains(player_name@));
                proof {
                    let v0 = old(self).sessions@;
                    assert forall|k: int| 0 <= k < v0.len() implies v0[k].0@ != player_name@ by {
                        assert(pv[k] == v0[k].0@);
                    }
                    lemma_session_absent(v0, player_name@);
                }
                None
            },
        }
    }
}

// ── Saving a platform ─────────────────────────────────────────────────────────

/// A saved block as values: x, y, z, block id, state.
pub type BlockView = (u32, u32, u32, Seq<char>, Seq<char>);

/// A port as values: label, side, index, direction.
pub type PortView = (Seq<char>, PortSide, u32, PortDir);

/// The edge a port at (x, z) sits on in a world `size` wide: west at x = 0,
/// east at the last x, then north at z = 0, south otherwise.
pub open spec fn side_of(x: int, z: int, size: int) -> PortSide {
    if x == 0 {
        PortSide::West
    } else if x == size - 1 {
        PortSide::East
    } else if z == 0 {
        PortSide::North
    } else {
        PortSide::South
    }
}

/// `Port <n>`: the label of an unnamed port.
pub open spec fn default_label(n: nat) -> Seq<char> {
    "Port "@ + dec_nat(n)
}

/// The blocks and ports of the first `k` cells of a platform scanned x by
/// x, each x's cells by z; `cells[x * size + z]` is what was read at (x, z)
/// (`None` when nothing could be read) and `labels` the label read there.
pub open spec fn scanned(size: u32, cells: Seq<Option<Seq<char>>>, labels: Seq<Option<Seq<char>>>, k: int) -> (Seq<BlockView>, Seq<PortView>)
    decreases k,
{
    if k <= 0 {
        (Seq::empty(), Seq::empty())
    } else {
        let prev = scanned(size, cells, labels, k - 1);
        let x = (k - 1) / (size as int);
        let z = (k - 1) % (size as int);
        match cells[k - 1] {
            None => prev,
            Some(id) => if id == "minecraft:air"@ || id == "minecraft:glass"@ {
                prev
            } else if exists|d: PortDir| port_block_of(d) == id {
                let d = choose|d: PortDir| port_block_of(d) == id;
                let label = match labels[k - 1] {
                    Some(l) => l,
                    None => default_label(prev.1.len()),
                };
                (prev.0, prev.1.push((label, side_of(x, z, size as int), (z * size + x) as u32, d)))
            } else {
                (prev.0.push((x as u32, 0u32, z as u32, id, "{}"@)), prev.1)
            },
        }
    }
}

/// Optional texts as values.
pub open spec fn opt_view(v: Seq<Option<String>>) -> Seq<Option<Seq<char>>> {
    v.map_values(|o: Option<String>| match o {
        Some(s) => Some(s@),
        None => None,
    })
}

/// Saved blocks as values.
pub open spec fn blocks_view(v: Seq<CircuitBlock>) -> Seq<BlockView> {
    v.map_values(|b: CircuitBlock| (b.x, b.y, b.z, b.block_id@, b.state_json@))
}

/// Ports as values.
pub open spec fn ports_view(v: Seq<Port>) -> Seq<PortView> {
    v.map_values(|p: Port| (p.label@, p.side, p.index, p.dir))
}

/// What a scanned platform saves as: its blocks and its ports, in scan order.
pub fn scan_platform(size: u32, cells: &Vec<Option<String>>, labels: &Vec<Option<String>>) -> (r: (Vec<CircuitBlock>, Vec<Port>))
    requires
        0 < size <= 256,
        cells@.len() == size * size,
        labels@.len() == size * size,
    ensures
        (blocks_view(r.0@), ports_view(r.1@)) == scanned(size, opt_view(cells@), opt_view(labels@), (size * size) as int),
{
    let ghost cv = opt_view(cells@);
    let ghost lv = opt_view(labels@);
    let mut blocks: Vec<CircuitBlock> = Vec::new();
    let mut ports: Vec<Port> = Vec::new();
    let mut x: u32 = 0;
    assert(size * size <= 65536) by (nonlinear_arith)
        requires
            size <= 256,
    ;
    while x < size
        invariant
            x <= size,
            0 < size <= 256,
            size * size <= 65536,
            cells@.len() == size * size,
            labels@.len() == size * size,
            cv == opt_view(cells@),
            lv == opt_view(labels@),
            (blocks_view(blocks@), ports_view(ports@)) == scanned(size, cv, lv, x * size),
        decreases size - x,
    {
        let mut z: u32 = 0;
        while z < size
            invariant
                x < size,
                z <= size,
                0 < size <= 256,
                size * size <= 65536,
                cells@.len() == size * size,
                labels@.len() == size * size,
                cv == opt_view(cells@),
                lv == opt_view(labels@),
                (blocks_view(blocks@), ports_view(ports@)) == scanned(size, cv, lv, x * size + z),
            decreases size - z,
        {
            let ghost k = x * size + z;
            assert(k < size * size) by (nonlinear_arith)
                requires
                    k == x * size + z,
                    x < size,
                    z < size,
            ;
            assert(k / (size as int) == x && k % (size as int) == z) by (nonlinear_arith)
                requires
                    k == x * size + z,
                    z < size,
                    0 < size,
            ;
            assert(z * size + x < 65536) by (nonlinear_arith)
                requires
                    z < size,
                    x < size,
                    size <= 256,
            ;
            let i = (x * size + z) as usize;
            assert(cv[k] == match cells@[k] {
                Some(s) => Some(s@),
                None => None,
            });
            assert(lv[k] == match labels@[k] {
                Some(s) => Some(s@),
                None => None,
            });
            match &cells[i] {
                None => {},
                Some(id) => {
                    if str_eq(id.as_str(), "minecraft:air") || str_eq(id.as_str(), "minecraft:glass") {
                    } else {
                        match dir_for_block(id.as_str()) {
                            Some(d) => {
                                proof {
                                    crate::port::lemma_dir_for_block_of_dir(d, choose|e: PortDir| port_block_of(e) == id@);
                                }
                                let label = match &labels[i] {
                                    Some(l) => l.clone(),
                                    None => {
                                        let mut s = String::from_str("Port ");
                                        push_dec(&mut s, ports.len() as u64);
                                        s
                                    },
                                };
                                let side = if x == 0 {
                                    PortSide::West
                                } else if x == size - 1 {
                                    PortSide::East
                                } else if z == 0 {
                                    PortSide::North
                                } else {
                                    PortSide::South
                                };
                                let index = z * size + x;
                                let ghost before = ports_view(ports@);
                                ports.push(Port { label, side, index, dir: d });
                                assert(ports_view(ports@) =~= before.push((ports@.last().label@, side, index, d)));
                            },
                            None => {
                                let ghost before = blocks_view(blocks@);
                                blocks.push(CircuitBlock {
                                    x,
                                    y: 0,
                                    z,
                                    block_id: id.clone(),
                                    state_json: String::from_str("{}"),
                                });
                                assert(blocks_view(blocks@) =~= before.push((x, 0u32, z, id@, "{}"@)));
                            },
                        }
                    }
                },
            }
            z += 1;
        }
        assert(x * size + size == (x + 1) * size) by (nonlinear_arith);
        x += 1;
    }
    (blocks, ports)
}

/// `<n> ports, <m> blocks`.
pub open spec fn saved_description(ports: nat, blocks: nat) -> Seq<char> {
    dec_nat(ports) + " ports, "@ + dec_nat(blocks) + " blocks"@
}

/// The design a session saves with the scanned blocks and ports: under the
/// session's design id, or a new random one for a new design.
pub fn save_entry(session: &EditorSession, blocks: Vec<CircuitBlock>, ports: Vec<Port>, saved_at: u64) -> (e: DesignEntry)
    ensures
        match session.design_id {
            Some(id) => e.meta.id@ == id@,
            None => uuid_v4_text(e.meta.id@),
        },
        e.meta.name@ == session.name@,
        e.meta.tier == session.tier,
        e.meta.description@ == saved_description(ports@.len(), blocks@.len()),
        e.meta.saved_at == saved_at,
        e.meta.port_count == ports@.len(),
        e.circuit.chip_id@ == e.meta.id@,
        e.circuit.width == session.size,
        e.circuit.height == session.size,
        e.circuit.blocks@ == blocks@,
        e.circuit.ports@ == ports@,
{
    let design_id = match &session.design_id {
        Some(id) => id.clone(),
        None => new_chip_id(),
    };
    let np = ports.len();
    let nb = blocks.len();
    let mut description = String::new();
    push_dec(&mut description, np as u64);
    description.append(" ports, ");
    push_dec(&mut description, nb as u64);
    description.append(" blocks");
    let cid = design_id.clone();
    DesignEntry {
        meta: DesignMeta {
            id: design_id,
            name: session.name.clone(),
            tier: session.tier,
            description,
            saved_at,
            port_count: np,
        },
        circuit: CircuitData { chip_id: cid, width: session.size, height: session.size, blocks, ports },
    }
}

/// Every port a scan saves sits on the edge its position says: with x its
/// column and z its row (index = z * size + x), a port at x = 0 is on the
/// west edge, one at the last column on the east edge, and one between them
/// on the north edge at z = 0 and on the south edge otherwise.
pub proof fn lemma_scanned_port_sides(size: u32, cells: Seq<Option<Seq<char>>>, labels: Seq<Option<Seq<char>>>, k: int)
    requires
        0 < size <= 256,
        0 <= k <= size * size,
    ensures
        forall|j: int|
            0 <= j < scanned(size, cells, labels, k).1.len() ==> {
                let e = #[trigger] scanned(size, cells, labels, k).1[j];
                let x = e.2 % size;
                let z = e.2 / size;
                &&& e.2 < size * size
                &&& (x == 0 ==> e.1 == PortSide::West)
                &&& (x == size - 1 && x != 0 ==> e.1 == PortSide::East)
                &&& (0 < x < size - 1 && z == 0 ==> e.1 == PortSide::North)
                &&& (0 < x < size - 1 && z != 0 ==> e.1 == PortSide::South)
            },
    decreases k,
{
    if k > 0 {
        lemma_scanned_port_sides(size, cells, labels, k - 1);
        let prev = scanned(size, cells, labels, k - 1);
        let s = size as int;
        let x = (k - 1) / s;
        let z = (k - 1) % s;
        assert(0 <= x < s) by (nonlinear_arith)
            requires
                0 <= k - 1 < s * s,
                x == (k - 1) / s,
                s > 0,
        ;
        assert(0 <= z < s);
        assert(z * s + x < s * s) by (nonlinear_arith)
            requires
                0 <= z < s,
                0 <= x < s,
        ;
        assert(s * s <= 65536) by (nonlinear_arith)
            requires
                0 < s <= 256,
        ;
        let idx = (z * s + x) as u32;
        assert(idx as int == z * s + x);
        vstd::arithmetic::div_mod::lemma_fundamental_div_mod_converse(z * s + x, s, z, x);
        let cur = scanned(size, cells, labels, k);
        assert forall|j: int| 0 <= j < cur.1.len() implies {
            let e = #[trigger] cur.1[j];
            let ex = e.2 % size;
            let ez = e.2 / size;
            &&& e.2 < size * size
            &&& (ex == 0 ==> e.1 == PortSide::West)
            &&& (ex == size - 1 && ex != 0 ==> e.1 == PortSide::East)
            &&& (0 < ex < size - 1 && ez == 0 ==> e.1 == PortSide::North)
            &&& (0 < ex < size - 1 && ez != 0 ==> e.1 == PortSide::South)
        } by {
            if j < prev.1.len() {
                assert(cur.1[j] == prev.1[j]);
            } else {
                assert(cur.1[j].1 == side_of(x, z, s));
                assert(cur.1[j].2 == idx);
            }
        }
    }
}

/// The block id a port of mode `d` is saved from.
pub open spec fn port_id_of(d: PortDir) -> Seq<char> {
    match d {
        PortDir::Input => "yog-vlsi:port_input"@,
        PortDir::Output => "yog-vlsi:port_output"@,
        PortDir::Bidirectional => "yog-vlsi:port_bidi"@,
    }
}

/// What a scan saves comes from the cells read: every saved block stands on
/// the platform layer (y = 0) with an empty state, holds the id read at its
/// (x, z) and that id is neither air nor glass; every saved port was read as
/// the port block of its mode at the cell its index names, and carries the
/// label read there, or `Port <n>` (n ports saved before it) when none was.
pub proof fn lemma_scanned_entries(size: u32, cells: Seq<Option<Seq<char>>>, labels: Seq<Option<Seq<char>>>, k: int)
    requires
        0 < size <= 256,
        0 <= k <= size * size,
        cells.len() == size * size,
        labels.len() == size * size,
    ensures
        forall|j: int|
            0 <= j < scanned(size, cells, labels, k).0.len() ==> {
                let b = #[trigger] scanned(size, cells, labels, k).0[j];
                &&& b.0 < size && b.2 < size
                &&& b.1 == 0
                &&& b.4 == "{}"@
                &&& cells[b.0 * size + b.2] == Some(b.3)
                &&& b.3 != "minecraft:air"@ && b.3 != "minecraft:glass"@
            },
        forall|j: int|
            0 <= j < scanned(size, cells, labels, k).1.len() ==> {
                let e = #[trigger] scanned(size, cells, labels, k).1[j];
                let x = e.2 % size;
                let z = e.2 / size;
                &&& e.2 < size * size
                &&& cells[x * size + z] == Some(port_id_of(e.3))
                &&& match labels[x * size + z] {
                    Some(l) => e.0 == l,
                    None => e.0 == "Port "@ + dec_nat(j as nat),
                }
            },
    decreases k,
{
    if k > 0 {
        lemma_scanned_entries(size, cells, labels, k - 1);
        let prev = scanned(size, cells, labels, k - 1);
        let cur = scanned(size, cells, labels, k);
        let s = size as int;
        let x = (k - 1) / s;
        let z = (k - 1) % s;
        assert(0 <= x < s) by (nonlinear_arith)
            requires
                0 <= k - 1 < s * s,
                x == (k - 1) / s,
                s > 0,
        ;
        assert(x * s + z == k - 1) by (nonlinear_arith)
            requires
                x == (k - 1) / s,
                z == (k - 1) % s,
                s > 0,
        ;
        assert(z * s + x < s * s) by (nonlinear_arith)
            requires
                0 <= z < s,
                0 <= x < s,
        ;
        assert(s * s <= 65536) by (nonlinear_arith)
            requires
                0 < s <= 256,
        ;
        vstd::arithmetic::div_mod::lemma_fundamental_div_mod_converse(z * s + x, s, z, x);
        reveal_strlit("yog-vlsi:port_input");
        reveal_strlit("yog-vlsi:port_output");
        reveal_strlit("yog-vlsi:port_bidi");
        assert forall|j: int| 0 <= j < cur.0.len() implies {
            let b = #[trigger] cur.0[j];
            &&& b.0 < size && b.2 < size
            &&& b.1 == 0
            &&& b.4 == "{}"@
            &&& cells[b.0 * size + b.2] == Some(b.3)
            &&& b.3 != "minecraft:air"@ && b.3 != "minecraft:glass"@
        } by {
            if j < prev.0.len() {
                assert(cur.0[j] == prev.0[j]);
            }
        }
        assert forall|j: int| 0 <= j < cur.1.len() implies {
            let e = #[trigger] cur.1[j];
            let ex = e.2 % size;
            let ez = e.2 / size;
            &&& e.2 < size * size
            &&& cells[ex * size + ez] == Some(port_id_of(e.3))
            &&& match labels[ex * size + ez] {
                Some(l) => e.0 == l,
                None => e.0 == "Port "@ + dec_nat(j as nat),
            }
        } by {
            if j < prev.1.len() {
                assert(cur.1[j] == prev.1[j]);
            } else {
                let id = cells[k - 1]->0;
                let d = choose|d: PortDir| port_block_of(d) == id;
                assert(port_block_of(d) == port_id_of(d));
            }
        }
    }
}

} // verus!
