//! The ALUs' shared state and one server tick over it: every installed
//! chip's simulator is stepped at its tier's rate, then every chip's output
//! ports are read and carried along the link graph into chip inputs or
//! into the values of the ALUs' external ports.

use vstd::prelude::*;

use super::{
    ref_key, ext_pos_of, key_pos, lemma_key_pos, lemma_key_pos_is, map_get, map_put, parse_ext_chip_id,
    quarters_per_tick, steps_over, IoModes, LinkGraph, PortKey, PortRef,
};
use crate::chip::{CircuitData, ChipMeta, Port, PortDir};
use crate::commands::{blocks_in_world, load_circuit_into_vm, placed};
use crate::text::str_eq;
use crate::vm::{
    cell_index, in_world, port_input_applied, port_output_of, schedule, step_done, BlockType, Cell, PortMode, Pos,
    RedstoneVM, Tier,
};

verus! {

broadcast use vstd::string::group_string_axioms;

/// A chip's simulator, by the chip's id, with the quarter-steps it is owed.
pub struct ChipSim {
    pub id: String,
    pub vm: RedstoneVM,
    pub owed: u32,
}

/// A simulator as values: id, tier, width, height, cells, pending updates,
/// tick, owed quarter-steps.
pub type SimView = (Seq<char>, Tier, u32, u32, Seq<Cell>, Seq<Pos>, u64, u32);

pub open spec fn sim_view(s: ChipSim) -> SimView {
    (s.id@, s.vm.tier, s.vm.width, s.vm.height, s.vm.cells(), s.vm.pending(), s.vm.tick, s.owed)
}

pub open spec fn sims_view(v: Seq<ChipSim>) -> Seq<SimView> {
    v.map_values(|s: ChipSim| sim_view(s))
}

/// The ids of the simulators, as keys.
pub open spec fn sim_keys(v: Seq<SimView>) -> Seq<(Seq<char>, ())> {
    v.map_values(|s: SimView| (s.0, ()))
}

/// Each state of `trace` is what one simulation step makes of the one before.
pub open spec fn step_trace(w: u32, h: u32, trace: Seq<(Seq<Cell>, Seq<Pos>)>) -> bool {
    forall|i: int|
        0 <= i < trace.len() - 1 ==> step_done(w, h, #[trigger] trace[i].0, trace[i].1, trace[i + 1].0, trace[i + 1].1)
}

/// `g1, q1` is what `n` simulation steps make of `g0, q0`.
pub open spec fn stepped(w: u32, h: u32, g0: Seq<Cell>, q0: Seq<Pos>, g1: Seq<Cell>, q1: Seq<Pos>, n: nat) -> bool {
    exists|trace: Seq<(Seq<Cell>, Seq<Pos>)>|
        #[trigger] step_trace(w, h, trace) && trace.len() == n + 1 && trace[0] == (g0, q0) && trace[n as int] == (g1, q1)
}

/// `b` is `a` after one server tick's worth of steps for one listing of the chip.
pub open spec fn sim_advanced(a: SimView, b: SimView) -> bool {
    let total = a.7 + quarters_per_tick(a.1);
    &&& b.0 == a.0 && b.1 == a.1 && b.2 == a.2 && b.3 == a.3
    &&& b.7 == total % 4
    &&& b.6 == a.6 + total / 4
    &&& stepped(a.2, a.3, a.4, a.5, b.4, b.5, (total / 4) as nat)
}

/// `b` is `a` after one listing of the chip `id`: its simulator, when there
/// is one, advanced; the others unchanged.
pub open spec fn listing_done(a: Seq<SimView>, b: Seq<SimView>, id: Seq<char>) -> bool {
    match key_pos(sim_keys(a), id) {
        None => b == a,
        Some(k) => b.len() == a.len() && sim_advanced(a[k], b[k]) && forall|j: int|
            0 <= j < a.len() && j != k ==> b[j] == a[j],
    }
}

/// Each state of `trace` is what the listing `ids[i]` makes of the one before.
pub open spec fn listing_trace(trace: Seq<Seq<SimView>>, ids: Seq<Seq<char>>) -> bool {
    &&& trace.len() == ids.len() + 1
    &&& forall|i: int| 0 <= i < ids.len() ==> listing_done(#[trigger] trace[i], trace[i + 1], ids[i])
}

/// `b` is `a` after the listings `ids`, in order.
pub open spec fn listings_done(a: Seq<SimView>, b: Seq<SimView>, ids: Seq<Seq<char>>) -> bool {
    exists|trace: Seq<Seq<SimView>>|
        #[trigger] listing_trace(trace, ids) && trace[0] == a && trace[ids.len() as int] == b
}

/// The installed chips of the ALUs, ALU by ALU, as chip ids.
pub open spec fn listing_ids(alus: Seq<((i32, i32, i32), Vec<(String, Tier)>)>) -> Seq<Seq<char>>
    decreases alus.len(),
{
    if alus.len() == 0 {
        Seq::empty()
    } else {
        listing_ids(alus.drop_last()) + alus.last().1@.map_values(|c: (String, Tier)| c.0@)
    }
}

/// Run `n` simulation steps.
pub fn run_steps(vm: &mut RedstoneVM, n: u32)
    requires
        old(vm).wf(),
        old(vm).tick + n <= u64::MAX,
    ensures
        final(vm).wf(),
        final(vm).tier == old(vm).tier,
        final(vm).width == old(vm).width,
        final(vm).height == old(vm).height,
        final(vm).tick == old(vm).tick + n,
        stepped(old(vm).width, old(vm).height, old(vm).cells(), old(vm).pending(), final(vm).cells(), final(vm).pending(), n as nat),
{
    let ghost g0 = vm.cells();
    let ghost q0 = vm.pending();
    let ghost t0 = vm.tick;
    let ghost vm0 = *vm;
    let ghost mut trace: Seq<(Seq<Cell>, Seq<Pos>)> = seq![(g0, q0)];
    let mut i: u32 = 0;
    while i < n
        invariant
            i <= n,
            vm.wf(),
            vm.tier == vm0.tier,
            vm.width == vm0.width,
            vm.height == vm0.height,
            vm.tick == t0 + i,
            t0 + n <= u64::MAX,
            step_trace(vm0.width, vm0.height, trace),
            trace.len() == i + 1,
            trace[0] == (g0, q0),
            trace[i as int] == (vm.cells(), vm.pending()),
        decreases n - i,
    {
        let ghost gm = vm.cells();
        let ghost qm = vm.pending();
        vm.step();
        proof {
            let t2 = trace.push((vm.cells(), vm.pending()));
            assert forall|j: int| 0 <= j < t2.len() - 1 implies step_done(
                vm0.width,
                vm0.height,
                #[trigger] t2[j].0,
                t2[j].1,
                t2[j + 1].0,
                t2[j + 1].1,
            ) by {
                if j < trace.len() - 1 {
                    assert(t2[j] == trace[j] && t2[j + 1] == trace[j + 1]);
                } else {
                    assert(t2[j] == (gm, qm));
                }
            }
            trace = t2;
        }
        i += 1;
    }
    assert(step_trace(vm0.width, vm0.height, trace) && trace.len() == n + 1 && trace[0] == (g0, q0)
        && trace[n as int] == (vm.cells(), vm.pending()));
}

/// The ALUs' shared state: which chips each ALU holds, the chips'
/// simulators, port lists and names, the link graph, the external ports'
/// modes and the values last carried to the external ports.
pub struct AluNetwork {
    /// Chips installed per ALU position, as (chip id, tier).
    pub alus: Vec<((i32, i32, i32), Vec<(String, Tier)>)>,
    /// The simulator of each chip with a loaded circuit.
    pub sims: Vec<ChipSim>,
    /// The ports of each chip with a loaded circuit.
    pub ports: Vec<(String, Vec<Port>)>,
    /// The display name of each installed chip.
    pub names: Vec<(String, String)>,
    /// Links between chip ports and external ports.
    pub links: LinkGraph,
    /// The mode of each external port.
    pub modes: IoModes,
    /// The latest value carried to each external port, per ALU.
    pub ext_values: Vec<((i32, i32, i32), Vec<(String, u8)>)>,
}

impl AluNetwork {
    /// Every simulator well formed and owed less than a step; the link
    /// graph and the modes keyed once.
    pub open spec fn wf(&self) -> bool {
        &&& forall|k: int| 0 <= k < self.sims@.len() ==> (#[trigger] self.sims@[k]).vm.wf() && self.sims@[k].owed < 4
        &&& self.links.wf()
        &&& self.modes.wf()
    }

    /// Nothing installed.
    pub fn new() -> (n: AluNetwork)
        ensures
            n.wf(),
            n.alus@.len() == 0,
            n.sims@.len() == 0,
            n.ports@.len() == 0,
            n.names@.len() == 0,
            n.links@.len() == 0,
            n.modes@.len() == 0,
            n.ext_values@.len() == 0,
    {
        AluNetwork {
            alus: Vec::new(),
            sims: Vec::new(),
            ports: Vec::new(),
            names: Vec::new(),
            links: LinkGraph::new(),
            modes: IoModes::new(),
            ext_values: Vec::new(),
        }
    }
}

fn find_sim(sims: &Vec<ChipSim>, id: &String) -> (r: Option<usize>)
    ensures
        match key_pos(sim_keys(sims_view(sims@)), id@) {
            Some(k) => r is Some && r->0 == k,
            None => r is None,
        },
{
    let ghost keys = sim_keys(sims_view(sims@));
    let mut i: usize = 0;
    while i < sims.len()
        invariant
            i <= sims@.len(),
            keys == sim_keys(sims_view(sims@)),
            forall|j: int| 0 <= j < i ==> keys[j].0 != id@,
        decreases sims@.len() - i,
    {
        assert(keys[i as int].0 == sims@[i as int].id@);
        if str_eq(sims[i].id.as_str(), id.as_str()) {
            proof {
                lemma_key_pos_is(keys, id@, i as int);
            }
            return Some(i);
        }
        i += 1;
    }
    proof {
        lemma_key_pos(keys, id@);
    }
    None
}

/// Step every installed chip's simulator at its tier's rate: for each
/// listing of a chip in an ALU, its tier's quarter-steps are added to what
/// it is owed and the whole steps now due are taken.
pub fn step_chips(net: &mut AluNetwork)
    requires
        old(net).wf(),
        forall|k: int|
            0 <= k < old(net).sims@.len() ==> (#[trigger] old(net).sims@[k]).vm.tick + 2 * listing_ids(
                old(net).alus@,
            ).len() <= u64::MAX,
    ensures
        final(net).wf(),
        final(net).alus@ == old(net).alus@,
        final(net).ports@ == old(net).ports@,
        final(net).names@ == old(net).names@,
        final(net).links@ == old(net).links@,
        final(net).modes@ == old(net).modes@,
        final(net).ext_values@ == old(net).ext_values@,
        listings_done(sims_view(old(net).sims@), sims_view(final(net).sims@), listing_ids(old(net).alus@)),
{
    let ghost s0 = sims_view(net.sims@);
    let ghost total = listing_ids(net.alus@).len();
    let ghost mut trace: Seq<Seq<SimView>> = seq![s0];
    let na = net.alus.len();
    let mut a: usize = 0;
    assert(listing_ids(net.alus@.take(0)) == Seq::<Seq<char>>::empty());
    while a < na
        invariant
            a <= na,
            na == net.alus@.len(),
            net.wf(),
            net.alus@ == old(net).alus@,
            net.ports@ == old(net).ports@,
            net.names@ == old(net).names@,
            net.links@ == old(net).links@,
            net.modes@ == old(net).modes@,
            net.ext_values@ == old(net).ext_values@,
            total == listing_ids(net.alus@).len(),
            listing_trace(trace, listing_ids(net.alus@.take(a as int))),
            trace[0] == s0,
            trace[trace.len() - 1] == sims_view(net.sims@),
            forall|k: int|
                0 <= k < net.sims@.len() ==> (#[trigger] net.sims@[k]).vm.tick + 2 * (total - listing_ids(
                    net.alus@.take(a as int),
                ).len()) <= u64::MAX,
        decreases na - a,
    {
        let ghost done_a = listing_ids(net.alus@.take(a as int));
        let ghost chips = net.alus@[a as int].1@.map_values(|c: (String, Tier)| c.0@);
        proof {
            assert(net.alus@.take(a + 1).drop_last() == net.alus@.take(a as int));
            assert(listing_ids(net.alus@.take(a + 1)) == done_a + chips);
            lemma_listing_prefix_len(net.alus@, a as int);
        }
        let nc = net.alus[a].1.len();
        let mut c: usize = 0;
        assert(done_a + chips.take(0) == done_a);
        while c < nc
            invariant
                a < na,
                c <= nc,
                na == net.alus@.len(),
                nc == net.alus@[a as int].1@.len(),
                chips == net.alus@[a as int].1@.map_values(|c: (String, Tier)| c.0@),
                net.wf(),
                net.alus@ == old(net).alus@,
                net.ports@ == old(net).ports@,
                net.names@ == old(net).names@,
                net.links@ == old(net).links@,
                net.modes@ == old(net).modes@,
                net.ext_values@ == old(net).ext_values@,
                total == listing_ids(net.alus@).len(),
                done_a.len() + chips.len() <= total,
                listing_trace(trace, done_a + chips.take(c as int)),
                trace[0] == s0,
                trace[trace.len() - 1] == sims_view(net.sims@),
                forall|k: int|
                    0 <= k < net.sims@.len() ==> (#[trigger] net.sims@[k]).vm.tick + 2 * (total - done_a.len()
                        - c) <= u64::MAX,
            decreases nc - c,
        {
            let ghost before = sims_view(net.sims@);
            let ghost id = chips[c as int];
            let found = {
                let list = &net.alus[a].1;
                assert(list@[c as int].0@ == id);
                find_sim(&net.sims, &list[c].0)
            };
            proof {
                lemma_key_pos(sim_keys(before), id);
            }
            match found {
                None => {},
                Some(k) => {
                    let mut s = net.sims.remove(k);
                    proof {
                        assert(before[k as int] == sim_view(s));
                        assert(s.vm.wf() && s.owed < 4);
                    }
                    let (steps, left) = owed_steps_of(s.owed, s.vm.tier);
                    run_steps(&mut s.vm, steps);
                    s.owed = left;
                    net.sims.insert(k, s);
                    proof {
                        assert(sims_view(net.sims@) =~= before.update(k as int, sim_view(s)));
                    }
                },
            }
            proof {
                let after = sims_view(net.sims@);
                assert(listing_done(before, after, id));
                let ids0 = done_a + chips.take(c as int);
                let ids = done_a + chips.take(c + 1);
                assert(ids =~= ids0.push(id));
                let t2 = trace.push(after);
                assert forall|i: int| 0 <= i < ids.len() implies listing_done(#[trigger] t2[i], t2[i + 1], ids[i]) by {
                    if i < ids0.len() {
                        assert(t2[i] == trace[i] && t2[i + 1] == trace[i + 1] && ids[i] == ids0[i]);
                    } else {
                        assert(t2[i] == before && t2[i + 1] == after && ids[i] == id);
                    }
                }
                trace = t2;
            }
            c += 1;
        }
        proof {
            assert(chips.take(nc as int) == chips);
        }
        a += 1;
    }
    proof {
        assert(net.alus@.take(na as int) == net.alus@);
        let ids = listing_ids(net.alus@);
        assert(listing_trace(trace, ids) && trace[0] == s0 && trace[ids.len() as int] == sims_view(net.sims@));
    }
}

fn owed_steps_of(owed: u32, tier: Tier) -> (r: (u32, u32))
    requires
        owed < 4,
    ensures
        r.0 == (owed + quarters_per_tick(tier)) / 4,
        r.1 == (owed + quarters_per_tick(tier)) % 4,
        r.0 <= 2,
        r.1 < 4,
{
    super::owed_steps(owed, tier)
}

proof fn lemma_listing_prefix_len(alus: Seq<((i32, i32, i32), Vec<(String, Tier)>)>, a: int)
    requires
        0 <= a < alus.len(),
    ensures
        listing_ids(alus.take(a + 1)).len() <= listing_ids(alus).len(),
    decreases alus.len(),
{
    if a + 1 < alus.len() {
        lemma_listing_prefix_len(alus.drop_last(), a);
        assert(alus.drop_last().take(a + 1) == alus.take(a + 1));
        let p = listing_ids(alus.drop_last());
        let q = alus.last().1@.map_values(|c: (String, Tier)| c.0@);
        assert(listing_ids(alus) == p + q);
    } else {
        assert(alus.take(a + 1) == alus);
    }
}


// ── Reading outputs ───────────────────────────────────────────────────────────

/// A port as (label, direction, index).
pub type PortInfo = (Seq<char>, PortDir, u32);

/// Each chip's ports, as values.
pub open spec fn chip_ports_view(v: Seq<(String, Vec<Port>)>) -> Seq<(Seq<char>, Seq<PortInfo>)> {
    v.map_values(|e: (String, Vec<Port>)| (e.0@, port_infos(e.1@)))
}

/// Ports as (label, direction, index).
pub open spec fn port_infos(v: Seq<Port>) -> Seq<PortInfo> {
    v.map_values(|p: Port| (p.label@, p.dir, p.index))
}

/// A port value by (chip id, label).
pub type Outputs = Seq<(PortKey, u8)>;

/// What the port at `index` of the simulator `s` shows: the power of an
/// output or bidirectional port there, 0 for anything else or off the world.
pub open spec fn port_value(s: SimView, index: u32) -> u8 {
    let w = s.2;
    let x = index % w;
    let z = index / w;
    if in_world(x as int, 0, z as int, w as int, s.3 as int) {
        port_output_of(s.4[cell_index(x as int, 0, z as int, w as int)])
    } else {
        0
    }
}

/// `outs` with the values of the non-input ports `ps` of chip `id` put in, in order.
pub open spec fn port_outputs(outs: Outputs, id: Seq<char>, s: SimView, ps: Seq<PortInfo>) -> Outputs
    decreases ps.len(),
{
    if ps.len() == 0 {
        outs
    } else {
        let prev = port_outputs(outs, id, s, ps.drop_last());
        let p = ps.last();
        if p.1 == PortDir::Input {
            prev
        } else {
            map_put(prev, (id, p.0), port_value(s, p.2))
        }
    }
}

/// The port values read from the listed chips, in order of listing; a
/// chip without simulator or port list shows nothing.
pub open spec fn outputs_after(outs: Outputs, sims: Seq<SimView>, ports: Seq<(Seq<char>, Seq<PortInfo>)>, ids: Seq<Seq<char>>) -> Outputs
    decreases ids.len(),
{
    if ids.len() == 0 {
        outs
    } else {
        let prev = outputs_after(outs, sims, ports, ids.drop_last());
        let id = ids.last();
        match (key_pos(sim_keys(sims), id), map_get(ports, id)) {
            (Some(k), Some(ps)) => port_outputs(prev, id, sims[k], ps),
            _ => prev,
        }
    }
}

/// Port values as values.
pub open spec fn outputs_view(v: Seq<(PortRef, u8)>) -> Outputs {
    v.map_values(|e: (PortRef, u8)| (ref_key(e.0), e.1))
}

fn put_output(outs: &mut Vec<(PortRef, u8)>, key: PortRef, v: u8)
    ensures
        outputs_view(final(outs)@) == map_put(outputs_view(old(outs)@), (key.0@, key.1@), v),
{
    let ghost ov = outputs_view(outs@);
    let ghost k = (key.0@, key.1@);
    let mut i: usize = 0;
    while i < outs.len()
        invariant
            i <= outs@.len(),
            ov == outputs_view(outs@),
            outs@ == old(outs)@,
            k == (key.0@, key.1@),
            forall|j: int| 0 <= j < i ==> ov[j].0 != k,
        decreases outs@.len() - i,
    {
        let e = &outs[i].0;
        assert(ov[i as int].0 == (e.0@, e.1@));
        if str_eq(e.0.as_str(), key.0.as_str()) && str_eq(e.1.as_str(), key.1.as_str()) {
            proof {
                lemma_key_pos_is(ov, k, i as int);
            }
            outs.set(i, (key, v));
            assert(outputs_view(outs@) =~= ov.update(i as int, (k, v)));
            return;
        }
        i += 1;
    }
    proof {
        lemma_key_pos(ov, k);
    }
    outs.push((key, v));
    assert(outputs_view(outs@) =~= ov.push((k, v)));
}

fn find_ports(ports: &Vec<(String, Vec<Port>)>, id: &String) -> (r: Option<usize>)
    ensures
        match key_pos(chip_ports_view(ports@), id@) {
            Some(k) => r is Some && r->0 == k,
            None => r is None,
        },
{
    let ghost pv = chip_ports_view(ports@);
    let mut i: usize = 0;
    while i < ports.len()
        invariant
            i <= ports@.len(),
            pv == chip_ports_view(ports@),
            forall|j: int| 0 <= j < i ==> pv[j].0 != id@,
        decreases ports@.len() - i,
    {
        assert(pv[i as int].0 == ports@[i as int].0@);
        if str_eq(ports[i].0.as_str(), id.as_str()) {
            proof {
                lemma_key_pos_is(pv, id@, i as int);
            }
            return Some(i);
        }
        i += 1;
    }
    proof {
        lemma_key_pos(pv, id@);
    }
    None
}

fn read_port(s: &ChipSim, index: u32) -> (r: u8)
    requires
        s.vm.wf(),
    ensures
        r == port_value(sim_view(*s), index),
{
    proof {
        crate::vm::lemma_world_size_bounds(s.vm.tier);
    }
    let w = s.vm.width;
    s.vm.get_port_output(index % w, 0, index / w)
}

/// The values of every listed chip's output and bidirectional ports.
pub fn collect_outputs(net: &AluNetwork) -> (r: Vec<(PortRef, u8)>)
    requires
        net.wf(),
    ensures
        outputs_view(r@) == outputs_after(
            Seq::empty(),
            sims_view(net.sims@),
            chip_ports_view(net.ports@),
            listing_ids(net.alus@),
        ),
{
    let ghost sv = sims_view(net.sims@);
    let ghost pv = chip_ports_view(net.ports@);
    let mut outs: Vec<(PortRef, u8)> = Vec::new();
    let na = net.alus.len();
    let mut a: usize = 0;
    assert(listing_ids(net.alus@.take(0)) == Seq::<Seq<char>>::empty());
    assert(outputs_view(outs@) =~= Seq::<(PortKey, u8)>::empty());
    while a < na
        invariant
            a <= na,
            na == net.alus@.len(),
            net.wf(),
            sv == sims_view(net.sims@),
            pv == chip_ports_view(net.ports@),
            outputs_view(outs@) == outputs_after(Seq::empty(), sv, pv, listing_ids(net.alus@.take(a as int))),
        decreases na - a,
    {
        let ghost done_a = listing_ids(net.alus@.take(a as int));
        let ghost chips = net.alus@[a as int].1@.map_values(|c: (String, Tier)| c.0@);
        proof {
            assert(net.alus@.take(a + 1).drop_last() == net.alus@.take(a as int));
            assert(listing_ids(net.alus@.take(a + 1)) == done_a + chips);
        }
        let list = &net.alus[a].1;
        let nc = list.len();
        let mut c: usize = 0;
        assert(done_a + chips.take(0) == done_a);
        while c < nc
            invariant
                c <= nc,
                nc == list@.len(),
                list@ == net.alus@[a as int].1@,
                chips == list@.map_values(|c: (String, Tier)| c.0@),
                net.wf(),
                sv == sims_view(net.sims@),
                pv == chip_ports_view(net.ports@),
                outputs_view(outs@) == outputs_after(Seq::empty(), sv, pv, done_a + chips.take(c as int)),
            decreases nc - c,
        {
            let id = &list[c].0;
            let ghost ids = done_a + chips.take(c + 1);
            proof {
                assert(ids.drop_last() == done_a + chips.take(c as int));
                assert(ids.last() == id@);
                lemma_key_pos(sim_keys(sv), id@);
                lemma_key_pos(pv, id@);
            }
            let ghost prev = outputs_view(outs@);
            match (find_sim(&net.sims, id), find_ports(&net.ports, id)) {
                (Some(k), Some(pk)) => {
                    let sim = &net.sims[k];
                    let plist = &net.ports[pk].1;
                    let ghost ps = pv[pk as int].1;
                    proof {
                        assert(sv[k as int] == sim_view(*sim));
                        assert(sim.vm.wf());
                        assert(ps == port_infos(plist@));
                        assert(map_get(pv, id@) == Some(ps));
                    }
                    let mut q: usize = 0;
                    assert(ps.take(0) == Seq::<PortInfo>::empty());
                    while q < plist.len()
                        invariant
                            q <= plist@.len(),
                            ps == port_infos(plist@),
                            sim.vm.wf(),
                            outputs_view(outs@) == port_outputs(prev, id@, sim_view(*sim), ps.take(q as int)),
                        decreases plist@.len() - q,
                    {
                        let port = &plist[q];
                        proof {
                            assert(ps.take(q + 1).drop_last() == ps.take(q as int));
                            assert(ps.take(q + 1).last() == (port.label@, port.dir, port.index));
                        }
                        let is_input = match port.dir {
                            PortDir::Input => true,
                            _ => false,
                        };
                        if !is_input {
                            let v = read_port(sim, port.index);
                            put_output(&mut outs, (id.clone(), port.label.clone()), v);
                        }
                        q += 1;
                    }
                    assert(ps.take(plist@.len() as int) == ps);
                    assert(sv[k as int] == sim_view(*sim));
                },
                _ => {},
            }
            c += 1;
        }
        assert(chips.take(nc as int) == chips);
        a += 1;
    }
    assert(net.alus@.take(na as int) == net.alus@);
    outs
}

// ── Routing along the link graph ──────────────────────────────────────────────

/// The value carried to each external port, per ALU.
pub type ExtView = Seq<((i32, i32, i32), Seq<(Seq<char>, u8)>)>;

pub open spec fn ext_view(v: Seq<((i32, i32, i32), Vec<(String, u8)>)>) -> ExtView {
    v.map_values(|e: ((i32, i32, i32), Vec<(String, u8)>)| (e.0, values_view(e.1@)))
}

/// Values by label, as values.
pub open spec fn values_view(v: Seq<(String, u8)>) -> Seq<(Seq<char>, u8)> {
    v.map_values(|l: (String, u8)| (l.0@, l.1))
}

/// `e` with `v` carried to the external port `label` of the ALU at `pos`.
pub open spec fn ext_put(e: ExtView, pos: (i32, i32, i32), label: Seq<char>, v: u8) -> ExtView {
    let inner = match map_get(e, pos) {
        Some(i) => i,
        None => Seq::empty(),
    };
    map_put(e, pos, map_put(inner, label, v))
}

/// The index of the first port of `ps` labelled `label`.
pub open spec fn first_labelled(ps: Seq<PortInfo>, label: Seq<char>) -> Option<u32>
    decreases ps.len(),
{
    if ps.len() == 0 {
        None
    } else {
        match first_labelled(ps.drop_last(), label) {
            Some(i) => Some(i),
            None => if ps.last().0 == label {
                Some(ps.last().2)
            } else {
                None
            },
        }
    }
}

/// The simulator `s` with the value `v` driven into the port at `index`, as
/// `RedstoneVM::set_port_input` drives it on the bottom layer.
pub open spec fn sim_input(s: SimView, index: u32, v: u8) -> SimView {
    let w = s.2;
    let x = index % w;
    let z = index / w;
    if in_world(x as int, 0, z as int, w as int, s.3 as int) {
        let i = cell_index(x as int, 0, z as int, w as int);
        (s.0, s.1, s.2, s.3, s.4.update(i, port_input_applied(s.4[i], v)), schedule(s.5, (x, 0u32, z)), s.6, s.7)
    } else {
        s
    }
}

/// One link carried: the source's value, when it has one, goes into the
/// destination chip's port of that label when the chip has a port list
/// holding it (and a simulator), else to the ALU external port the
/// destination names.
pub open spec fn route_one(
    state: (Seq<SimView>, ExtView),
    link: (PortKey, PortKey),
    outs: Outputs,
    ports: Seq<(Seq<char>, Seq<PortInfo>)>,
) -> (Seq<SimView>, ExtView) {
    match map_get(outs, link.0) {
        None => state,
        Some(v) => {
            let dst = link.1;
            let found = match map_get(ports, dst.0) {
                Some(ps) => first_labelled(ps, dst.1),
                None => None,
            };
            match found {
                Some(index) => match key_pos(sim_keys(state.0), dst.0) {
                    Some(k) => (state.0.update(k, sim_input(state.0[k], index, v)), state.1),
                    None => state,
                },
                None => match ext_pos_of(dst.0) {
                    Some(pos) => (state.0, ext_put(state.1, pos, dst.1, v)),
                    None => state,
                },
            }
        },
    }
}

/// Every link carried, in order.
pub open spec fn route_all(
    state: (Seq<SimView>, ExtView),
    links: Seq<(PortKey, PortKey)>,
    outs: Outputs,
    ports: Seq<(Seq<char>, Seq<PortInfo>)>,
) -> (Seq<SimView>, ExtView)
    decreases links.len(),
{
    if links.len() == 0 {
        state
    } else {
        route_one(route_all(state, links.drop_last(), outs, ports), links.last(), outs, ports)
    }
}

fn get_output(outs: &Vec<(PortRef, u8)>, key: &PortRef) -> (r: Option<u8>)
    ensures
        r == map_get(outputs_view(outs@), (key.0@, key.1@)),
{
    let ghost ov = outputs_view(outs@);
    let ghost k = (key.0@, key.1@);
    let mut i: usize = 0;
    while i < outs.len()
        invariant
            i <= outs@.len(),
            ov == outputs_view(outs@),
            k == (key.0@, key.1@),
            forall|j: int| 0 <= j < i ==> ov[j].0 != k,
        decreases outs@.len() - i,
    {
        let e = &outs[i].0;
        assert(ov[i as int] == ((e.0@, e.1@), outs@[i as int].1));
        if str_eq(e.0.as_str(), key.0.as_str()) && str_eq(e.1.as_str(), key.1.as_str()) {
            proof {
                lemma_key_pos_is(ov, k, i as int);
            }
            return Some(outs[i].1);
        }
        i += 1;
    }
    proof {
        lemma_key_pos(ov, k);
    }
    None
}

fn find_labelled(ps: &Vec<Port>, label: &String) -> (r: Option<u32>)
    ensures
        r == first_labelled(port_infos(ps@), label@),
{
    let ghost pv = port_infos(ps@);
    let mut i: usize = 0;
    assert(pv.take(0) == Seq::<PortInfo>::empty());
    while i < ps.len()
        invariant
            i <= ps@.len(),
            pv == port_infos(ps@),
            first_labelled(pv.take(i as int), label@) is None,
        decreases ps@.len() - i,
    {
        assert(pv.take(i + 1).drop_last() == pv.take(i as int));
        assert(pv.take(i + 1).last() == (ps@[i as int].label@, ps@[i as int].dir, ps@[i as int].index));
        if str_eq(ps[i].label.as_str(), label.as_str()) {
            proof {
                lemma_first_labelled_prefix(pv, i + 1, label@);
            }
            return Some(ps[i].index);
        }
        i += 1;
    }
    assert(pv.take(ps@.len() as int) == pv);
    None
}

proof fn lemma_first_labelled_prefix(s: Seq<PortInfo>, n: int, label: Seq<char>)
    requires
        0 < n <= s.len(),
        first_labelled(s.take(n), label) is Some,
    ensures
        first_labelled(s, label) == first_labelled(s.take(n), label),
    decreases s.len(),
{
    if n < s.len() {
        assert(s.drop_last().take(n) == s.take(n));
        lemma_first_labelled_prefix(s.drop_last(), n, label);
    } else {
        assert(s.take(n) == s);
    }
}

fn put_ext(ext: &mut Vec<((i32, i32, i32), Vec<(String, u8)>)>, pos: (i32, i32, i32), label: &String, v: u8)
    ensures
        ext_view(final(ext)@) == ext_put(ext_view(old(ext)@), pos, label@, v),
{
    let ghost ev = ext_view(ext@);
    let mut i: usize = 0;
    while i < ext.len()
        invariant
            i <= ext@.len(),
            ev == ext_view(ext@),
            ext@ == old(ext)@,
            forall|j: int| 0 <= j < i ==> ev[j].0 != pos,
        decreases ext@.len() - i,
    {
        let here = ext[i].0;
        if here.0 == pos.0 && here.1 == pos.1 && here.2 == pos.2 {
            proof {
                lemma_key_pos_is(ev, pos, i as int);
            }
            let mut entry = ext.remove(i);
            let ghost inner = values_view(entry.1@);
            assert(ev[i as int].1 == inner);
            put_label(&mut entry.1, label, v);
            ext.insert(i, entry);
            assert(ext_view(ext@) =~= ev.update(i as int, (pos, map_put(inner, label@, v))));
            return;
        }
        i += 1;
    }
    proof {
        lemma_key_pos(ev, pos);
    }
    let mut inner: Vec<(String, u8)> = Vec::new();
    assert(values_view(inner@) =~= Seq::<(Seq<char>, u8)>::empty());
    put_label(&mut inner, label, v);
    ext.push((pos, inner));
    assert(ext_view(ext@) =~= ev.push((pos, map_put(Seq::<(Seq<char>, u8)>::empty(), label@, v))));
}

fn put_label(list: &mut Vec<(String, u8)>, label: &String, v: u8)
    ensures
        values_view(final(list)@) == map_put(values_view(old(list)@), label@, v),
{
    let ghost lv = values_view(list@);
    let mut i: usize = 0;
    while i < list.len()
        invariant
            i <= list@.len(),
            lv == values_view(list@),
            list@ == old(list)@,
            forall|j: int| 0 <= j < i ==> lv[j].0 != label@,
        decreases list@.len() - i,
    {
        assert(lv[i as int].0 == list@[i as int].0@);
        if str_eq(list[i].0.as_str(), label.as_str()) {
            proof {
                lemma_key_pos_is(lv, label@, i as int);
            }
            list.set(i, (label.clone(), v));
            assert(values_view(list@) =~= lv.update(i as int, (label@, v)));
            return;
        }
        i += 1;
    }
    proof {
        lemma_key_pos(lv, label@);
    }
    list.push((label.clone(), v));
    assert(values_view(list@) =~= lv.push((label@, v)));
}

/// Carry every link's value: see `route_all`.
pub fn route_links(net: &mut AluNetwork, outs: &Vec<(PortRef, u8)>)
    requires
        old(net).wf(),
    ensures
        final(net).wf(),
        final(net).alus@ == old(net).alus@,
        final(net).ports@ == old(net).ports@,
        final(net).names@ == old(net).names@,
        final(net).links@ == old(net).links@,
        final(net).modes@ == old(net).modes@,
        (sims_view(final(net).sims@), ext_view(final(net).ext_values@)) == route_all(
            (sims_view(old(net).sims@), ext_view(old(net).ext_values@)),
            old(net).links@,
            outputs_view(outs@),
            chip_ports_view(old(net).ports@),
        ),
{
    let ghost lv = net.links@;
    let ghost ov = outputs_view(outs@);
    let ghost pv = chip_ports_view(net.ports@);
    let ghost st0 = (sims_view(net.sims@), ext_view(net.ext_values@));
    let n = net.links.links.len();
    let mut i: usize = 0;
    assert(lv.take(0) == Seq::<(PortKey, PortKey)>::empty());
    while i < n
        invariant
            i <= n,
            n == lv.len(),
            net.wf(),
            lv == net.links@,
            net.alus@ == old(net).alus@,
            net.ports@ == old(net).ports@,
            net.names@ == old(net).names@,
            net.links@ == old(net).links@,
            net.modes@ == old(net).modes@,
            ov == outputs_view(outs@),
            pv == chip_ports_view(net.ports@),
            (sims_view(net.sims@), ext_view(net.ext_values@)) == route_all(st0, lv.take(i as int), ov, pv),
        decreases n - i,
    {
        let ghost before = (sims_view(net.sims@), ext_view(net.ext_values@));
        proof {
            assert(lv.take(i + 1).drop_last() == lv.take(i as int));
            assert(lv.take(i + 1).last() == lv[i as int]);
            assert(lv[i as int] == crate::alu::links_view(net.links.links@)[i as int]);
        }
        let src = &net.links.links[i].0;
        let dst_chip = net.links.links[i].1.0.clone();
        let dst_label = net.links.links[i].1.1.clone();
        proof {
            assert(lv[i as int].0 == (src.0@, src.1@));
            assert(lv[i as int].1 == (dst_chip@, dst_label@));
        }
        match get_output(outs, src) {
            None => {},
            Some(v) => {
                proof {
                    lemma_key_pos(pv, dst_chip@);
                }
                let found = match find_ports(&net.ports, &dst_chip) {
                    Some(pk) => {
                        assert(map_get(pv, dst_chip@) == Some(pv[pk as int].1));
                        assert(pv[pk as int].1 == port_infos(net.ports@[pk as int].1@));
                        find_labelled(&net.ports[pk].1, &dst_label)
                    },
                    None => None,
                };
                match found {
                    Some(index) => {
                        proof {
                            lemma_key_pos(sim_keys(before.0), dst_chip@);
                        }
                        match find_sim(&net.sims, &dst_chip) {
                            Some(k) => {
                                let mut s = net.sims.remove(k);
                                proof {
                                    assert(before.0[k as int] == sim_view(s));
                                    assert(s.vm.wf());
                                    crate::vm::lemma_world_size_bounds(s.vm.tier);
                                }
                                let w = s.vm.width;
                                s.vm.set_port_input(index % w, 0, index / w, v);
                                net.sims.insert(k, s);
                                proof {
                                    assert(sim_view(s) == sim_input(before.0[k as int], index, v));
                                    assert(sims_view(net.sims@) =~= before.0.update(k as int, sim_view(s)));
                                }
                            },
                            None => {},
                        }
                    },
                    None => {
                        match parse_ext_chip_id(dst_chip.as_str()) {
                            Some(pos) => {
                                put_ext(&mut net.ext_values, pos, &dst_label, v);
                            },
                            None => {},
                        }
                    },
                }
            },
        }
        i += 1;
    }
    assert(lv.take(n as int) == lv);
}

/// One server tick over every ALU: step every chip, read every chip's
/// outputs, then carry them along the link graph.
pub fn tick_all(net: &mut AluNetwork)
    requires
        old(net).wf(),
        forall|k: int|
            0 <= k < old(net).sims@.len() ==> (#[trigger] old(net).sims@[k]).vm.tick + 2 * listing_ids(
                old(net).alus@,
            ).len() <= u64::MAX,
    ensures
        final(net).wf(),
        final(net).alus@ == old(net).alus@,
        final(net).ports@ == old(net).ports@,
        final(net).names@ == old(net).names@,
        final(net).links@ == old(net).links@,
        final(net).modes@ == old(net).modes@,
        exists|mid: Seq<SimView>|
            #[trigger] listings_done(sims_view(old(net).sims@), mid, listing_ids(old(net).alus@)) && (
            sims_view(final(net).sims@),
            ext_view(final(net).ext_values@),
        ) == route_all(
            (mid, ext_view(old(net).ext_values@)),
            old(net).links@,
            outputs_after(Seq::empty(), mid, chip_ports_view(old(net).ports@), listing_ids(old(net).alus@)),
            chip_ports_view(old(net).ports@),
        ),
{
    step_chips(net);
    let ghost mid = sims_view(net.sims@);
    let outs = collect_outputs(net);
    route_links(net, &outs);
    assert(listings_done(sims_view(old(net).sims@), mid, listing_ids(old(net).alus@)));
}

// ── What a link carries ───────────────────────────────────────────────────────

/// Carrying one link whose source port was read with the value `v`, zero
/// included: a destination chip that lists the port (and has a simulator)
/// has that port driven with exactly `v`, so an input or bidirectional port
/// then holds `v` (at most 15) and is strongly powered exactly when `v > 0`;
/// a destination that is an ALU's external port records exactly `v`.
pub proof fn lemma_link_carries_value(
    state: (Seq<SimView>, ExtView),
    link: (PortKey, PortKey),
    outs: Outputs,
    ports: Seq<(Seq<char>, Seq<PortInfo>)>,
    v: u8,
)
    requires
        map_get(outs, link.0) == Some(v),
    ensures
        ({
            let r = route_one(state, link, outs, ports);
            let dst = link.1;
            let found = match map_get(ports, dst.0) {
                Some(ps) => first_labelled(ps, dst.1),
                None => None,
            };
            &&& match (found, key_pos(sim_keys(state.0), dst.0)) {
                (Some(index), Some(k)) => {
                    let s = state.0[k];
                    let x = index % s.2;
                    let z = index / s.2;
                    let i = cell_index(x as int, 0, z as int, s.2 as int);
                    &&& 0 <= k < state.0.len()
                    &&& r.0.len() == state.0.len()
                    &&& (in_world(x as int, 0, z as int, s.2 as int, s.3 as int) && s.4.len() == s.2 * s.2 * s.3)
                        ==> {
                        &&& r.0[k].4[i] == port_input_applied(s.4[i], v)
                        &&& (s.4[i].block matches BlockType::Port(m) && m != PortMode::Output) ==> r.0[k].4[i].power == (
                        if v <= 15 {
                            v
                        } else {
                            15u8
                        }) && r.0[k].4[i].strongly_powered == (v > 0)
                    }
                },
                _ => true,
            }
            &&& (found is None && ext_pos_of(dst.0) is Some) ==> match map_get(r.1, ext_pos_of(dst.0)->0) {
                Some(inner) => map_get(inner, dst.1) == Some(v),
                None => false,
            }
        }),
{
    let dst = link.1;
    lemma_key_pos(sim_keys(state.0), dst.0);
    let found = match map_get(ports, dst.0) {
        Some(ps) => first_labelled(ps, dst.1),
        None => None,
    };
    match (found, key_pos(sim_keys(state.0), dst.0)) {
        (Some(index), Some(k)) => {
            let s = state.0[k];
            let x = index % s.2;
            let z = index / s.2;
            if in_world(x as int, 0, z as int, s.2 as int, s.3 as int) {
                crate::vm::lemma_cell_index_bounds(x as int, 0, z as int, s.2 as int, s.3 as int);
            }
        },
        _ => {},
    }
    match ext_pos_of(dst.0) {
        Some(pos) => {
            let inner = match map_get(state.1, pos) {
                Some(i) => i,
                None => Seq::empty(),
            };
            crate::alu::lemma_map_put_get(state.1, pos, map_put(inner, dst.1, v), pos);
            crate::alu::lemma_map_put_get(inner, dst.1, v, dst.1);
        },
        None => {},
    }
}

// ── Steps over many ticks ─────────────────────────────────────────────────────

/// `b` is the simulator `a` after one server tick of its chip's steps: same
/// chip and tier, its tick counter advanced by the whole steps due, the
/// remaining quarter-steps owed.
pub open spec fn chip_ticked(a: SimView, b: SimView) -> bool {
    let total = a.7 + quarters_per_tick(a.1);
    &&& b.0 == a.0
    &&& b.1 == a.1
    &&& b.6 == a.6 + total / 4
    &&& b.7 == total % 4
}

/// `id` stands in `ids` exactly once.
pub open spec fn listed_once(ids: Seq<Seq<char>>, id: Seq<char>) -> bool {
    exists|p: int| 0 <= p < ids.len() && ids[p] == id && forall|j: int| 0 <= j < ids.len() && j != p ==> ids[j] != id
}

proof fn lemma_listing_step(a: Seq<SimView>, b: Seq<SimView>, lid: Seq<char>, k: int)
    requires
        listing_done(a, b, lid),
        0 <= k < a.len(),
    ensures
        b.len() == a.len(),
        forall|j: int| 0 <= j < a.len() ==> #[trigger] b[j].0 == a[j].0 && b[j].1 == a[j].1 && b[j].6 >= 0,
        sim_keys(b) == sim_keys(a),
        a[k].0 != lid ==> b[k] == a[k],
        key_pos(sim_keys(a), lid) == Some(k) ==> sim_advanced(a[k], b[k]),
{
    lemma_key_pos(sim_keys(a), lid);
    match key_pos(sim_keys(a), lid) {
        Some(k2) => {
            assert(sim_keys(a)[k2].0 == a[k2].0);
        },
        None => {},
    }
    assert(sim_keys(b) =~= sim_keys(a));
}

proof fn lemma_trace_chip(trace: Seq<Seq<SimView>>, ids: Seq<Seq<char>>, id: Seq<char>, k: int, p: int, i: int)
    requires
        listing_trace(trace, ids),
        0 <= p < ids.len(),
        ids[p] == id,
        forall|j: int| 0 <= j < ids.len() && j != p ==> ids[j] != id,
        0 <= k < trace[0].len(),
        key_pos(sim_keys(trace[0]), id) == Some(k),
        0 <= i <= ids.len(),
    ensures
        trace[i].len() == trace[0].len(),
        sim_keys(trace[i]) == sim_keys(trace[0]),
        trace[i][k].0 == trace[0][k].0,
        trace[i][k].1 == trace[0][k].1,
        i <= p ==> trace[i][k] == trace[0][k],
        i > p ==> chip_ticked(trace[0][k], trace[i][k]),
    decreases i,
{
    if i > 0 {
        lemma_trace_chip(trace, ids, id, k, p, i - 1);
        assert(listing_done(trace[i - 1], trace[i], ids[i - 1]));
        lemma_listing_step(trace[i - 1], trace[i], ids[i - 1], k);
        lemma_key_pos(sim_keys(trace[0]), id);
        assert(sim_keys(trace[0])[k].0 == trace[0][k].0);
        if i - 1 == p {
            assert(key_pos(sim_keys(trace[i - 1]), ids[i - 1]) == Some(k));
        } else {
            assert(ids[i - 1] != id);
        }
    }
}

/// Routing the links after a tick's steps leaves every simulator's chip,
/// tier, tick counter and owed quarter-steps alone.
proof fn lemma_route_keeps_counters(
    state: (Seq<SimView>, ExtView),
    links: Seq<(PortKey, PortKey)>,
    outs: Outputs,
    ports: Seq<(Seq<char>, Seq<PortInfo>)>,
)
    ensures
        route_all(state, links, outs, ports).0.len() == state.0.len(),
        forall|j: int|
            0 <= j < state.0.len() ==> {
                let a = state.0[j];
                let b = #[trigger] route_all(state, links, outs, ports).0[j];
                b.0 == a.0 && b.1 == a.1 && b.6 == a.6 && b.7 == a.7
            },
    decreases links.len(),
{
    if links.len() > 0 {
        lemma_route_keeps_counters(state, links.drop_last(), outs, ports);
        let r = route_all(state, links.drop_last(), outs, ports);
        lemma_route_one_keeps_counters(r, links.last(), outs, ports);
    }
}

proof fn lemma_route_one_keeps_counters(
    state: (Seq<SimView>, ExtView),
    link: (PortKey, PortKey),
    outs: Outputs,
    ports: Seq<(Seq<char>, Seq<PortInfo>)>,
)
    ensures
        route_one(state, link, outs, ports).0.len() == state.0.len(),
        forall|j: int|
            0 <= j < state.0.len() ==> {
                let a = state.0[j];
                let b = #[trigger] route_one(state, link, outs, ports).0[j];
                b.0 == a.0 && b.1 == a.1 && b.6 == a.6 && b.7 == a.7
            },
{
    lemma_key_pos(sim_keys(state.0), link.1.0);
    match key_pos(sim_keys(state.0), link.1.0) {
        Some(k) => {
            assert(0 <= k < state.0.len());
        },
        None => {},
    }
}

/// One call of `tick_all`, as its contract states it, for a chip listed in
/// exactly one ALU slot and holding the first simulator of its id: the
/// simulator takes the whole steps due this tick and keeps the rest owed.
pub proof fn lemma_tick_steps_chip(
    s0: Seq<SimView>,
    mid: Seq<SimView>,
    ext0: ExtView,
    links: Seq<(PortKey, PortKey)>,
    outs: Outputs,
    ports: Seq<(Seq<char>, Seq<PortInfo>)>,
    ids: Seq<Seq<char>>,
    id: Seq<char>,
    k: int,
)
    requires
        listings_done(s0, mid, ids),
        listed_once(ids, id),
        0 <= k < s0.len(),
        key_pos(sim_keys(s0), id) == Some(k),
    ensures
        ({
            let s1 = route_all((mid, ext0), links, outs, ports).0;
            &&& s1.len() == s0.len()
            &&& key_pos(sim_keys(s1), id) == Some(k)
            &&& chip_ticked(s0[k], s1[k])
        }),
{
    let trace = choose|trace: Seq<Seq<SimView>>|
        #[trigger] listing_trace(trace, ids) && trace[0] == s0 && trace[ids.len() as int] == mid;
    let p = choose|p: int|
        0 <= p < ids.len() && ids[p] == id && forall|j: int| 0 <= j < ids.len() && j != p ==> ids[j] != id;
    lemma_trace_chip(trace, ids, id, k, p, ids.len() as int);
    lemma_route_keeps_counters((mid, ext0), links, outs, ports);
    let s1 = route_all((mid, ext0), links, outs, ports).0;
    assert(sim_keys(s1) =~= sim_keys(mid)) by {
        assert forall|j: int| 0 <= j < mid.len() implies sim_keys(s1)[j] == sim_keys(mid)[j] by {
            assert(s1[j].0 == mid[j].0);
        }
    }
}

/// Over `n` calls of `tick_all` (each a step of `states` for the chip), a
/// simulator owed nothing at first has taken `n` times its quarter-steps
/// per tick, divided by four, in steps: its tick rate times n over 20 —
/// twice a call for Netherite, once every fourth call for Wood.
pub proof fn lemma_ticks_add_up(states: Seq<SimView>, n: nat)
    requires
        states.len() == n + 1,
        forall|i: int| 0 <= i < n ==> chip_ticked(#[trigger] states[i], states[i + 1]),
    ensures
        states[n as int].6 == states[0].6 + steps_over(states[0].7 as nat, states[0].1, n).0,
        states[n as int].7 == steps_over(states[0].7 as nat, states[0].1, n).1,
        states[n as int].1 == states[0].1,
        states[0].7 == 0 ==> states[n as int].6 == states[0].6 + n * states[0].1.spec_tick_rate() / 20,
    decreases n,
{
    if n > 0 {
        let rest = states.skip(1);
        assert forall|i: int| 0 <= i < n - 1 implies chip_ticked(#[trigger] rest[i], rest[i + 1]) by {
            assert(rest[i] == states[i + 1]);
            assert(rest[i + 1] == states[i + 2]);
            assert(chip_ticked(states[i + 1], states[i + 2]));
        }
        assert(chip_ticked(states[0], states[1]));
        lemma_ticks_add_up(rest, (n - 1) as nat);
        assert(rest[(n - 1) as int] == states[n as int]);
        assert(rest[0] == states[1]);
    }
    if states[0].7 == 0 {
        let t = states[0].1;
        crate::alu::lemma_steps_over_ticks(t, n);
        let q = quarters_per_tick(t);
        assert(t.spec_tick_rate() == 5 * q);
        assert(n * t.spec_tick_rate() == 5 * (n * q)) by (nonlinear_arith)
            requires
                t.spec_tick_rate() == 5 * q,
        ;
        assert((5 * (n * q)) / 20 == (n * q) / 4) by (nonlinear_arith);
    }
}

// ── Installing chips ──────────────────────────────────────────────────────────

/// The ALUs' chip lists as values.
pub open spec fn alus_view(v: Seq<((i32, i32, i32), Vec<(String, Tier)>)>) -> Seq<((i32, i32, i32), Seq<(Seq<char>, Tier)>)> {
    v.map_values(|e: ((i32, i32, i32), Vec<(String, Tier)>)| (e.0, listing_view(e.1@)))
}

/// One ALU's chips as values.
pub open spec fn listing_view(v: Seq<(String, Tier)>) -> Seq<(Seq<char>, Tier)> {
    v.map_values(|c: (String, Tier)| (c.0@, c.1))
}

/// `alus` with the chip `entry` added at the end of the ALU at `pos`'s list.
pub open spec fn alu_add(alus: Seq<((i32, i32, i32), Seq<(Seq<char>, Tier)>)>, pos: (i32, i32, i32), entry: (Seq<char>, Tier)) -> Seq<((i32, i32, i32), Seq<(Seq<char>, Tier)>)> {
    match key_pos(alus, pos) {
        Some(i) => alus.update(i, (pos, alus[i].1.push(entry))),
        None => alus.push((pos, seq![entry])),
    }
}

/// Names by chip id, as values.
pub open spec fn names_view(v: Seq<(String, String)>) -> Seq<(Seq<char>, Seq<char>)> {
    v.map_values(|e: (String, String)| (e.0@, e.1@))
}

/// The cells of a fresh all-air world `size` wide.
pub open spec fn fresh_cells(size: u32) -> Seq<Cell> {
    Seq::new((size * size * size) as nat, |i: int| Cell::spec_new(crate::vm::BlockType::Air))
}

/// Install the chip `meta` into the ALU at `alu_pos`: the chip joins the
/// ALU's list and its name is recorded; with its circuit, a fresh simulator
/// of the chip's tier holding the circuit replaces any earlier one for the
/// chip (which keeps what it was owed), and the circuit's ports become the
/// chip's port list.
pub fn install_chip(net: &mut AluNetwork, meta: &ChipMeta, alu_pos: (i32, i32, i32), circuit: Option<CircuitData>)
    requires
        old(net).wf(),
        match circuit {
            Some(c) => blocks_in_world(c.blocks@, meta.tier.spec_world_size(), meta.tier.spec_world_size()),
            None => true,
        },
    ensures
        final(net).wf(),
        alus_view(final(net).alus@) == alu_add(alus_view(old(net).alus@), alu_pos, (meta.id@, meta.tier)),
        names_view(final(net).names@) == map_put(names_view(old(net).names@), meta.id@, meta.name@),
        final(net).links@ == old(net).links@,
        final(net).modes@ == old(net).modes@,
        final(net).ext_values@ == old(net).ext_values@,
        match circuit {
            None => sims_view(final(net).sims@) == sims_view(old(net).sims@) && final(net).ports@ == old(net).ports@,
            Some(c) => {
                let size = meta.tier.spec_world_size();
                let loaded = placed(fresh_cells(size), Seq::empty(), c.blocks@, size, size);
                let owed = match key_pos(sim_keys(sims_view(old(net).sims@)), meta.id@) {
                    Some(k) => sims_view(old(net).sims@)[k].7,
                    None => 0u32,
                };
                let sim = (meta.id@, meta.tier, size, size, loaded.0, loaded.1, 0u64, owed);
                &&& sims_view(final(net).sims@) == match key_pos(sim_keys(sims_view(old(net).sims@)), meta.id@) {
                    Some(k) => sims_view(old(net).sims@).update(k, sim),
                    None => sims_view(old(net).sims@).push(sim),
                }
                &&& chip_ports_view(final(net).ports@) == map_put(chip_ports_view(old(net).ports@), meta.id@, port_infos(c.ports@))
            },
        },
{
    // The ALU's chip list.
    let ghost av = alus_view(net.alus@);
    proof {
        lemma_key_pos(av, alu_pos);
    }
    match alu_index(&net.alus, alu_pos) {
        Some(i) => {
            let mut entry = net.alus.remove(i);
            let ghost lv = listing_view(entry.1@);
            assert(av[i as int].1 == lv);
            entry.1.push((meta.id.clone(), meta.tier));
            assert(listing_view(entry.1@) =~= lv.push((meta.id@, meta.tier)));
            net.alus.insert(i, entry);
            assert(alus_view(net.alus@) =~= av.update(i as int, (alu_pos, lv.push((meta.id@, meta.tier)))));
        },
        None => {
            let mut list: Vec<(String, Tier)> = Vec::new();
            list.push((meta.id.clone(), meta.tier));
            assert(listing_view(list@) =~= seq![(meta.id@, meta.tier)]);
            net.alus.push((alu_pos, list));
            assert(alus_view(net.alus@) =~= av.push((alu_pos, seq![(meta.id@, meta.tier)])));
        },
    }
    // The chip's name.
    let ghost nv = names_view(net.names@);
    proof {
        lemma_key_pos(nv, meta.id@);
    }
    match name_index(&net.names, &meta.id) {
        Some(j) => {
            net.names.set(j, (meta.id.clone(), meta.name.clone()));
            assert(names_view(net.names@) =~= nv.update(j as int, (meta.id@, meta.name@)));
        },
        None => {
            net.names.push((meta.id.clone(), meta.name.clone()));
            assert(names_view(net.names@) =~= nv.push((meta.id@, meta.name@)));
        },
    }
    // The simulator and the port list.
    match circuit {
        None => {},
        Some(c) => {
            let mut vm = RedstoneVM::new(meta.tier);
            assert(vm.cells() =~= fresh_cells(meta.tier.spec_world_size()));
            load_circuit_into_vm(&mut vm, &c);
            let ghost sv = sims_view(net.sims@);
            proof {
                lemma_key_pos(sim_keys(sv), meta.id@);
            }
            match find_sim(&net.sims, &meta.id) {
                Some(k) => {
                    let old_sim = net.sims.remove(k);
                    assert(sv[k as int] == sim_view(old_sim));
                    let sim = ChipSim { id: meta.id.clone(), vm, owed: old_sim.owed };
                    net.sims.insert(k, sim);
                    assert(sims_view(net.sims@) =~= sv.update(k as int, sim_view(sim)));
                },
                None => {
                    let sim = ChipSim { id: meta.id.clone(), vm, owed: 0 };
                    net.sims.push(sim);
                    assert(sims_view(net.sims@) =~= sv.push(sim_view(sim)));
                },
            }
            let ghost pv = chip_ports_view(net.ports@);
            proof {
                lemma_key_pos(pv, meta.id@);
            }
            let ghost new_ports = port_infos(c.ports@);
            match find_ports(&net.ports, &meta.id) {
                Some(k) => {
                    net.ports.set(k, (meta.id.clone(), c.ports));
                    assert(chip_ports_view(net.ports@) =~= pv.update(k as int, (meta.id@, new_ports)));
                },
                None => {
                    net.ports.push((meta.id.clone(), c.ports));
                    assert(chip_ports_view(net.ports@) =~= pv.push((meta.id@, new_ports)));
                },
            }
        },
    }
}

fn alu_index(alus: &Vec<((i32, i32, i32), Vec<(String, Tier)>)>, pos: (i32, i32, i32)) -> (r: Option<usize>)
    ensures
        match key_pos(alus_view(alus@), pos) {
            Some(k) => r is Some && r->0 == k,
            None => r is None,
        },
{
    let ghost av = alus_view(alus@);
    let mut i: usize = 0;
    while i < alus.len()
        invariant
            i <= alus@.len(),
            av == alus_view(alus@),
            forall|j: int| 0 <= j < i ==> av[j].0 != pos,
        decreases alus@.len() - i,
    {
        let here = alus[i].0;
        if here.0 == pos.0 && here.1 == pos.1 && here.2 == pos.2 {
            proof {
                lemma_key_pos_is(av, pos, i as int);
            }
            return Some(i);
        }
        i += 1;
    }
    proof {
        lemma_key_pos(av, pos);
    }
    None
}

fn name_index(names: &Vec<(String, String)>, id: &String) -> (r: Option<usize>)
    ensures
        match key_pos(names_view(names@), id@) {
            Some(k) => r is Some && r->0 == k,
            None => r is None,
        },
{
    let ghost nv = names_view(names@);
    let mut i: usize = 0;
    while i < names.len()
        invariant
            i <= names@.len(),
            nv == names_view(names@),
            forall|j: int| 0 <= j < i ==> nv[j].0 != id@,
        decreases names@.len() - i,
    {
        assert(nv[i as int].0 == names@[i as int].0@);
        if str_eq(names[i].0.as_str(), id.as_str()) {
            proof {
                lemma_key_pos_is(nv, id@, i as int);
            }
            return Some(i);
        }
        i += 1;
    }
    proof {
        lemma_key_pos(nv, id@);
    }
    None
}

/// The chips installed in the ALU at `pos`, in order of installing.
pub fn chips_at(net: &AluNetwork, pos: (i32, i32, i32)) -> (r: Vec<(String, Tier)>)
    ensures
        listing_view(r@) == match map_get(alus_view(net.alus@), pos) {
            Some(l) => l,
            None => Seq::empty(),
        },
{
    let ghost av = alus_view(net.alus@);
    proof {
        lemma_key_pos(av, pos);
    }
    match alu_index(&net.alus, pos) {
        Some(i) => {
            let list = &net.alus[i].1;
            let mut out: Vec<(String, Tier)> = Vec::new();
            let mut k: usize = 0;
            while k < list.len()
                invariant
                    k <= list@.len(),
                    listing_view(out@) == listing_view(list@).take(k as int),
                decreases list@.len() - k,
            {
                let ghost before = listing_view(out@);
                let id = list[k].0.clone();
                out.push((id, list[k].1));
                assert(listing_view(out@) =~= before.push((list@[k as int].0@, list@[k as int].1)));
                assert(listing_view(list@).take(k + 1) =~= listing_view(list@).take(k as int).push(
                    (list@[k as int].0@, list@[k as int].1),
                ));
                k += 1;
            }
            assert(listing_view(list@).take(list@.len() as int) == listing_view(list@));
            assert(av[i as int].1 == listing_view(list@));
            out
        },
        None => {
            let out: Vec<(String, Tier)> = Vec::new();
            assert(listing_view(out@) =~= Seq::<(Seq<char>, Tier)>::empty());
            out
        },
    }
}
} // verus!
