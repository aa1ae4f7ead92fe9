//! Power propagation: a breadth-first flood from every power source along
//! redstone wire, losing one level per block, that also weakly powers the
//! solid blocks next to (and below) everything that carries power.

use std::collections::VecDeque;
use vstd::prelude::*;

use super::{
    cell_index, in_world, lemma_cell_index_bounds, lemma_cell_index_injective, lemma_scan_step,
    lemma_world_size_bounds, lemma_world_volume, nbr, nbr_of, scan_at, BlockType, Cell, RedstoneVM,
};

verus! {

/// A queued propagation step: position and the power it carries.
pub type Wave = (u32, u32, u32, u8);

pub open spec fn is_wire(c: Cell) -> bool {
    c.block is RedstoneWire
}

/// The power a position pushes into the wires around it: a wire's own
/// power, any other block's source power. Blocks come from `g0`, wire
/// power from `g`.
pub open spec fn level_at(g0: Seq<Cell>, g: Seq<Cell>, i: int) -> int {
    if is_wire(g0[i]) {
        g[i].power as int
    } else {
        g0[i].spec_source_power() as int
    }
}

/// The position reached from (x, y, z) through its neighbour `k`
/// (`k` < 4: the in-plane neighbours; `k` == 4: the block below).
pub open spec fn anchor(x: int, y: int, z: int, k: int) -> (int, int, int) {
    if k < 4 {
        (nbr(x, z, k).0, y, nbr(x, z, k).1)
    } else {
        (x, y - 1, z)
    }
}

/// `t` is `n` itself or an in-plane neighbour of `n`.
pub open spec fn cluster(nx: int, ny: int, nz: int, tx: int, ty: int, tz: int) -> bool {
    ty == ny && ((tx == nx && tz == nz) || (tx == nx + 1 && tz == nz) || (tx == nx - 1 && tz
        == nz) || (tx == nx && tz == nz + 1) || (tx == nx && tz == nz - 1))
}

/// The solid anchor `k` of m is in the world and `t` lies in its cluster.
pub open spec fn anchor_reaches(g: Seq<Cell>, mx: int, my: int, mz: int, k: int, tx: int, ty: int, tz: int, w: int, h: int) -> bool {
    let a = anchor(mx, my, mz, k);
    in_world(a.0, a.1, a.2, w, h) && g[cell_index(a.0, a.1, a.2, w)].spec_is_solid() && cluster(
        a.0,
        a.1,
        a.2,
        tx,
        ty,
        tz,
    )
}

/// Power carried at m weakly powers t (when t is solid): t is a solid
/// neighbour of m or of the block below m, or one of their solid
/// in-plane neighbours.
pub open spec fn weak_via(g: Seq<Cell>, mx: int, my: int, mz: int, tx: int, ty: int, tz: int, w: int, h: int) -> bool {
    ||| anchor_reaches(g, mx, my, mz, 0, tx, ty, tz, w, h)
    ||| anchor_reaches(g, mx, my, mz, 1, tx, ty, tz, w, h)
    ||| anchor_reaches(g, mx, my, mz, 2, tx, ty, tz, w, h)
    ||| anchor_reaches(g, mx, my, mz, 3, tx, ty, tz, w, h)
    ||| anchor_reaches(g, mx, my, mz, 4, tx, ty, tz, w, h)
}

/// Neighbour k of the wire at (x, y, z) accounts for its power p: a wire
/// there carries p + 1, or another block there sources p + 1.
pub open spec fn supports(g0: Seq<Cell>, g: Seq<Cell>, x: int, y: int, z: int, k: int, w: int, h: int) -> bool {
    let n = nbr(x, z, k);
    in_world(n.0, y, n.1, w, h) && level_at(g0, g, cell_index(n.0, y, n.1, w)) == g[cell_index(
        x,
        y,
        z,
        w,
    )].power + 1
}

/// The wire (if any) at neighbour k of (x, y, z) carries at least v - 1.
pub open spec fn relaxed(g0: Seq<Cell>, g: Seq<Cell>, x: int, y: int, z: int, k: int, v: int, w: int, h: int) -> bool {
    let n = nbr(x, z, k);
    in_world(n.0, y, n.1, w, h) && is_wire(g0[cell_index(n.0, y, n.1, w)]) ==> g[cell_index(
        n.0,
        y,
        n.1,
        w,
    )].power >= v - 1
}

/// Propagation outcome: blocks, strong power and timers are untouched and
/// only wires change power; every wire carries one less than its strongest
/// neighbour (sources included), and exactly that; a solid block is weakly
/// powered when it was, or when something carrying more than 1 reaches it
/// through `weak_via`.
pub open spec fn propagation_done(g0: Seq<Cell>, g1: Seq<Cell>, w: int, h: int) -> bool {
    &&& g1.len() == g0.len()
    &&& forall|i: int|
        0 <= i < g0.len() ==> {
            &&& (#[trigger] g1[i]).block == g0[i].block
            &&& g1[i].strongly_powered == g0[i].strongly_powered
            &&& g1[i].repeater_timer == g0[i].repeater_timer
            &&& g1[i].torch_burnout == g0[i].torch_burnout
            &&& (!is_wire(g0[i]) ==> g1[i].power == g0[i].power)
        }
    &&& forall|x: int, y: int, z: int, k: int|
        in_world(x, y, z, w, h) && 0 <= k < 4 && level_at(g0, g1, #[trigger] cell_index(x, y, z, w))
            > 1 ==> #[trigger] relaxed(g0, g1, x, y, z, k, level_at(g0, g1, cell_index(x, y, z, w)), w, h)
    &&& forall|x: int, y: int, z: int|
        in_world(x, y, z, w, h) && is_wire(g0[#[trigger] cell_index(x, y, z, w)]) && g1[cell_index(
            x,
            y,
            z,
            w,
        )].power > 0 ==> {
            ||| supports(g0, g1, x, y, z, 0, w, h)
            ||| supports(g0, g1, x, y, z, 1, w, h)
            ||| supports(g0, g1, x, y, z, 2, w, h)
            ||| supports(g0, g1, x, y, z, 3, w, h)
        }
    &&& forall|x: int, y: int, z: int|
        in_world(x, y, z, w, h) ==> (#[trigger] g1[cell_index(x, y, z, w)]).weakly_powered == (
        g0[cell_index(x, y, z, w)].weakly_powered || (g0[cell_index(x, y, z, w)].spec_is_solid()
            && exists|mx: int, my: int, mz: int|
            in_world(mx, my, mz, w, h) && level_at(g0, g1, cell_index(mx, my, mz, w)) > 1
                && #[trigger] weak_via(g0, mx, my, mz, x, y, z, w, h)))
}


// ── Flood invariants ──────────────────────────────────────────────────────────

/// The neighbour index pointing back.
pub open spec fn rev(k: int) -> int {
    if k == 0 {
        1
    } else if k == 1 {
        0
    } else if k == 2 {
        3
    } else {
        2
    }
}

pub proof fn lemma_nbr_rev(x: int, z: int, k: int)
    requires
        0 <= k < 4,
    ensures
        nbr(nbr(x, z, k).0, nbr(x, z, k).1, rev(k)) == (x, z),
        0 <= rev(k) < 4,
{
}

/// The queue holds a wave of power v at (x, y, z).
pub open spec fn qhas(q: Seq<Wave>, x: int, y: int, z: int, v: int) -> bool {
    exists|j: int|
        0 <= j < q.len() && (#[trigger] q[j]).0 == x && q[j].1 == y && q[j].2 == z && q[j].3 == v
}

/// Every wire around (x, y, z) already carries at least its level minus one.
pub open spec fn settled(g0: Seq<Cell>, g: Seq<Cell>, x: int, y: int, z: int, w: int, h: int) -> bool {
    let v = level_at(g0, g, cell_index(x, y, z, w));
    &&& relaxed(g0, g, x, y, z, 0, v, w, h)
    &&& relaxed(g0, g, x, y, z, 1, v, w, h)
    &&& relaxed(g0, g, x, y, z, 2, v, w, h)
    &&& relaxed(g0, g, x, y, z, 3, v, w, h)
}

/// Only wire power and weak power differ from `g0`.
pub open spec fn frame_ok(g0: Seq<Cell>, g: Seq<Cell>) -> bool {
    &&& g.len() == g0.len()
    &&& forall|i: int|
        0 <= i < g0.len() ==> {
            &&& (#[trigger] g[i]).block == g0[i].block
            &&& g[i].strongly_powered == g0[i].strongly_powered
            &&& g[i].repeater_timer == g0[i].repeater_timer
            &&& g[i].torch_burnout == g0[i].torch_burnout
            &&& (!is_wire(g0[i]) ==> g[i].power == g0[i].power)
        }
}

/// Queued waves lie in the world and carry no more than their position's
/// level, exactly it for a non-wire source.
pub open spec fn waves_ok(g0: Seq<Cell>, g: Seq<Cell>, q: Seq<Wave>, w: int, h: int) -> bool {
    forall|j: int|
        0 <= j < q.len() ==> {
            &&& in_world((#[trigger] q[j]).0 as int, q[j].1 as int, q[j].2 as int, w, h)
            &&& q[j].3 <= level_at(g0, g, cell_index(q[j].0 as int, q[j].1 as int, q[j].2 as int, w))
            &&& (!is_wire(g0[cell_index(q[j].0 as int, q[j].1 as int, q[j].2 as int, w)]) ==> q[j].3
                == level_at(g0, g, cell_index(q[j].0 as int, q[j].1 as int, q[j].2 as int, w)))
        }
}

/// Positions already flooded from.
pub open spec fn done_ok(g0: Seq<Cell>, g: Seq<Cell>, done: Set<(int, int, int)>, w: int, h: int) -> bool {
    forall|m: (int, int, int)|
        #[trigger] done.contains(m) ==> in_world(m.0, m.1, m.2, w, h) && level_at(
            g0,
            g,
            cell_index(m.0, m.1, m.2, w),
        ) > 1
}

/// Everything carrying more than 1 has flooded its neighbours or waits in the queue.
pub open spec fn flood_ok(g0: Seq<Cell>, g: Seq<Cell>, q: Seq<Wave>, done: Set<(int, int, int)>, w: int, h: int) -> bool {
    forall|x: int, y: int, z: int|
        in_world(x, y, z, w, h) && level_at(g0, g, #[trigger] cell_index(x, y, z, w)) > 1 ==> (
        settled(g0, g, x, y, z, w, h) && done.contains((x, y, z))) || qhas(
            q,
            x,
            y,
            z,
            level_at(g0, g, cell_index(x, y, z, w)),
        )
}

/// Neighbour k backs the power of the wire at (x, y, z) (weak form: a wire
/// neighbour may carry more).
pub open spec fn backs(g0: Seq<Cell>, g: Seq<Cell>, x: int, y: int, z: int, k: int, w: int, h: int) -> bool {
    let n = nbr(x, z, k);
    let ni = cell_index(n.0, y, n.1, w);
    in_world(n.0, y, n.1, w, h) && (if is_wire(g0[ni]) {
        g[ni].power >= g[cell_index(x, y, z, w)].power + 1
    } else {
        g0[ni].spec_source_power() == g[cell_index(x, y, z, w)].power + 1
    })
}

pub open spec fn backed_ok(g0: Seq<Cell>, g: Seq<Cell>, w: int, h: int) -> bool {
    forall|x: int, y: int, z: int|
        in_world(x, y, z, w, h) && is_wire(g0[#[trigger] cell_index(x, y, z, w)]) && g[cell_index(
            x,
            y,
            z,
            w,
        )].power > 0 ==> {
            ||| backs(g0, g, x, y, z, 0, w, h)
            ||| backs(g0, g, x, y, z, 1, w, h)
            ||| backs(g0, g, x, y, z, 2, w, h)
            ||| backs(g0, g, x, y, z, 3, w, h)
        }
}

pub open spec fn weak_ok(g0: Seq<Cell>, g: Seq<Cell>, done: Set<(int, int, int)>, w: int, h: int) -> bool {
    forall|x: int, y: int, z: int|
        in_world(x, y, z, w, h) ==> (#[trigger] g[cell_index(x, y, z, w)]).weakly_powered == (
        g0[cell_index(x, y, z, w)].weakly_powered || (g0[cell_index(x, y, z, w)].spec_is_solid()
            && exists|m: (int, int, int)|
            done.contains(m) && #[trigger] weak_via(g0, m.0, m.1, m.2, x, y, z, w, h)))
}

/// How much wire power is still missing, summed over the grid: it only
/// shrinks as wires gain power, which bounds the flood.
pub open spec fn deficit(c: Cell) -> nat {
    if is_wire(c) {
        (255 - c.power) as nat
    } else {
        0
    }
}

pub open spec fn deficit_sum(s: Seq<Cell>) -> nat
    decreases s.len(),
{
    if s.len() == 0 {
        0
    } else {
        deficit_sum(s.drop_last()) + deficit(s.last())
    }
}

pub proof fn lemma_deficit_update(s: Seq<Cell>, i: int, c: Cell)
    requires
        0 <= i < s.len(),
    ensures
        deficit_sum(s.update(i, c)) + deficit(s[i]) == deficit_sum(s) + deficit(c),
    decreases s.len(),
{
    let t = s.update(i, c);
    if i == s.len() - 1 {
        assert(t.drop_last() == s.drop_last());
    } else {
        assert(t.drop_last() == s.drop_last().update(i, c));
        lemma_deficit_update(s.drop_last(), i, c);
    }
}

pub proof fn lemma_deficit_same(s1: Seq<Cell>, s2: Seq<Cell>)
    requires
        s1.len() == s2.len(),
        forall|i: int| 0 <= i < s1.len() ==> deficit(#[trigger] s1[i]) == deficit(s2[i]),
    ensures
        deficit_sum(s1) == deficit_sum(s2),
    decreases s1.len(),
{
    if s1.len() > 0 {
        lemma_deficit_same(s1.drop_last(), s2.drop_last());
    }
}


// ── Flood steps ───────────────────────────────────────────────────────────────

/// `t` is n or one of n's first `k` in-plane neighbours.
pub open spec fn cluster_upto(nx: int, ny: int, nz: int, tx: int, ty: int, tz: int, k: int) -> bool {
    ty == ny && ((tx == nx && tz == nz) || (k > 0 && tx == nx + 1 && tz == nz) || (k > 1 && tx
        == nx - 1 && tz == nz) || (k > 2 && tx == nx && tz == nz + 1) || (k > 3 && tx == nx && tz
        == nz - 1))
}

pub open spec fn weak_via_upto(g: Seq<Cell>, mx: int, my: int, mz: int, tx: int, ty: int, tz: int, k: int, w: int, h: int) -> bool {
    ||| (k > 0 && anchor_reaches(g, mx, my, mz, 0, tx, ty, tz, w, h))
    ||| (k > 1 && anchor_reaches(g, mx, my, mz, 1, tx, ty, tz, w, h))
    ||| (k > 2 && anchor_reaches(g, mx, my, mz, 2, tx, ty, tz, w, h))
    ||| (k > 3 && anchor_reaches(g, mx, my, mz, 3, tx, ty, tz, w, h))
    ||| (k > 4 && anchor_reaches(g, mx, my, mz, 4, tx, ty, tz, w, h))
}

/// `g1` is `g0` with only weak power changed.
pub open spec fn only_weak_changed(g0: Seq<Cell>, g1: Seq<Cell>) -> bool {
    &&& g1.len() == g0.len()
    &&& forall|i: int|
        0 <= i < g0.len() ==> #[trigger] g1[i] == Cell {
            weakly_powered: g1[i].weakly_powered,
            ..g0[i]
        }
}

/// One relaxation towards neighbour k: a wire there carrying less than
/// `next` is raised to `next` and queued.
pub open spec fn relax_result(g: Seq<Cell>, q: Seq<Wave>, g1: Seq<Cell>, q1: Seq<Wave>, x: int, y: int, z: int, k: int, next: u8, w: int, h: int) -> bool {
    let n = nbr(x, z, k);
    let ni = cell_index(n.0, y, n.1, w);
    if in_world(n.0, y, n.1, w, h) && is_wire(g[ni]) && g[ni].power < next {
        &&& g1 == g.update(ni, Cell { power: next, ..g[ni] })
        &&& q1 == q.push((n.0 as u32, y as u32, n.1 as u32, next))
    } else {
        g1 == g && q1 == q
    }
}

impl RedstoneVM {
    fn set_weak(&mut self, i: usize)
        requires
            old(self).wf(),
            i < old(self).cells().len(),
        ensures
            final(self).wf(),
            final(self).same_header(old(self)),
            final(self).pending() == old(self).pending(),
            final(self).cells() == old(self).cells().update(
                i as int,
                Cell { weakly_powered: true, ..old(self).cells()[i as int] },
            ),
    {
        let mut c = self.grid[i];
        c.weakly_powered = true;
        self.grid.set(i, c);
    }

    /// Weakly power the solid block n and its solid in-plane neighbours.
    fn mark_cluster(&mut self, nx: u32, ny: u32, nz: u32)
        requires
            old(self).wf(),
            in_world(nx as int, ny as int, nz as int, old(self).width as int, old(self).height as int),
            old(self).at(nx as int, ny as int, nz as int).spec_is_solid(),
        ensures
            final(self).wf(),
            final(self).same_header(old(self)),
            final(self).pending() == old(self).pending(),
            only_weak_changed(old(self).cells(), final(self).cells()),
            forall|tx: int, ty: int, tz: int|
                in_world(tx, ty, tz, old(self).width as int, old(self).height as int)
                    ==> (#[trigger] final(self).cells()[cell_index(tx, ty, tz, old(self).width as int)]).weakly_powered
                    == (old(self).cells()[cell_index(tx, ty, tz, old(self).width as int)].weakly_powered
                    || (old(self).cells()[cell_index(
                    tx,
                    ty,
                    tz,
                    old(self).width as int,
                )].spec_is_solid() && cluster(nx as int, ny as int, nz as int, tx, ty, tz))),
    {
        proof {
            lemma_world_size_bounds(self.tier);
            lemma_cell_index_bounds(nx as int, ny as int, nz as int, self.width as int, self.height as int);
        }
        let w = self.width;
        let h = self.height;
        let ghost g0 = self.grid@;
        let ni = Self::idx_static(nx, ny, nz, w);
        self.set_weak(ni);
        proof {
            assert forall|tx: int, ty: int, tz: int|
                in_world(tx, ty, tz, w as int, h as int) implies (#[trigger] self.cells()[cell_index(
                tx,
                ty,
                tz,
                w as int,
            )]).weakly_powered == (g0[cell_index(tx, ty, tz, w as int)].weakly_powered || (
            g0[cell_index(tx, ty, tz, w as int)].spec_is_solid() && cluster_upto(
                nx as int,
                ny as int,
                nz as int,
                tx,
                ty,
                tz,
                0,
            ))) by {
                lemma_cell_index_bounds(tx, ty, tz, w as int, h as int);
                if cell_index(tx, ty, tz, w as int) == ni as int {
                    lemma_cell_index_injective(tx, ty, tz, nx as int, ny as int, nz as int, w as int, h as int);
                }
            }
        }
        let mut k: u32 = 0;
        while k < 4
            invariant
                self.wf(),
                self.same_header(old(self)),
                self.pending() == old(self).pending(),
                g0 == old(self).cells(),
                w == self.width,
                h == self.height,
                w <= 256,
                k <= 4,
                in_world(nx as int, ny as int, nz as int, w as int, h as int),
                g0[cell_index(nx as int, ny as int, nz as int, w as int)].spec_is_solid(),
                only_weak_changed(g0, self.cells()),
                forall|tx: int, ty: int, tz: int|
                    in_world(tx, ty, tz, w as int, h as int) ==> (#[trigger] self.cells()[cell_index(
                        tx,
                        ty,
                        tz,
                        w as int,
                    )]).weakly_powered == (g0[cell_index(tx, ty, tz, w as int)].weakly_powered || (
                    g0[cell_index(tx, ty, tz, w as int)].spec_is_solid() && cluster_upto(
                        nx as int,
                        ny as int,
                        nz as int,
                        tx,
                        ty,
                        tz,
                        k as int,
                    ))),
            decreases 4 - k,
        {
            let (px, pz) = nbr_of(nx, nz, k);
            if self.in_bounds(px, ny as i32, pz) {
                proof {
                    lemma_cell_index_bounds(px as int, ny as int, pz as int, w as int, h as int);
                }
                let pi = Self::idx_static(px as u32, ny, pz as u32, w);
                if self.grid[pi].is_solid() {
                    let ghost before = self.grid@;
                    self.set_weak(pi);
                    proof {
                        assert forall|tx: int, ty: int, tz: int|
                            in_world(tx, ty, tz, w as int, h as int) implies (
                        #[trigger] self.cells()[cell_index(tx, ty, tz, w as int)]).weakly_powered
                            == (g0[cell_index(tx, ty, tz, w as int)].weakly_powered || (g0[cell_index(
                            tx,
                            ty,
                            tz,
                            w as int,
                        )].spec_is_solid() && cluster_upto(
                            nx as int,
                            ny as int,
                            nz as int,
                            tx,
                            ty,
                            tz,
                            k + 1,
                        ))) by {
                            lemma_cell_index_bounds(tx, ty, tz, w as int, h as int);
                            if cell_index(tx, ty, tz, w as int) == pi as int {
                                lemma_cell_index_injective(
                                    tx,
                                    ty,
                                    tz,
                                    px as int,
                                    ny as int,
                                    pz as int,
                                    w as int,
                                    h as int,
                                );
                                assert(before[pi as int] == Cell {
                                    weakly_powered: before[pi as int].weakly_powered,
                                    ..g0[pi as int]
                                });
                            } else {
                                assert(self.cells()[cell_index(tx, ty, tz, w as int)] == before[cell_index(
                                    tx,
                                    ty,
                                    tz,
                                    w as int,
                                )]);
                                if cluster_upto(nx as int, ny as int, nz as int, tx, ty, tz, k + 1)
                                    && !cluster_upto(nx as int, ny as int, nz as int, tx, ty, tz, k as int) {
                                    assert((tx, tz) == nbr(nx as int, nz as int, k as int));
                                    assert(ty == ny);
                                }
                            }
                        }
                        assert forall|i: int| 0 <= i < g0.len() implies #[trigger] self.cells()[i]
                            == Cell { weakly_powered: self.cells()[i].weakly_powered, ..g0[i] } by {
                            if i != pi as int {
                                assert(self.cells()[i] == before[i]);
                            } else {
                                assert(before[i] == Cell { weakly_powered: before[i].weakly_powered, ..g0[i] });
                            }
                        }
                    }
                }
            }
            proof {
                assert forall|tx: int, ty: int, tz: int|
                    in_world(tx, ty, tz, w as int, h as int) && g0[cell_index(tx, ty, tz, w as int)].spec_is_solid()
                        && cluster_upto(nx as int, ny as int, nz as int, tx, ty, tz, k + 1)
                        && !cluster_upto(nx as int, ny as int, nz as int, tx, ty, tz, k as int) implies
                    self.cells()[cell_index(tx, ty, tz, w as int)].weakly_powered by {
                    assert((tx, tz) == nbr(nx as int, nz as int, k as int));
                }
            }
            k += 1;
        }
    }

    /// Weakly power every solid block reached from m through `weak_via`.
    fn mark_anchors(&mut self, x: u32, y: u32, z: u32)
        requires
            old(self).wf(),
            in_world(x as int, y as int, z as int, old(self).width as int, old(self).height as int),
        ensures
            final(self).wf(),
            final(self).same_header(old(self)),
            final(self).pending() == old(self).pending(),
            only_weak_changed(old(self).cells(), final(self).cells()),
            forall|tx: int, ty: int, tz: int|
                in_world(tx, ty, tz, old(self).width as int, old(self).height as int)
                    ==> (#[trigger] final(self).cells()[cell_index(tx, ty, tz, old(self).width as int)]).weakly_powered
                    == (old(self).cells()[cell_index(tx, ty, tz, old(self).width as int)].weakly_powered
                    || (old(self).cells()[cell_index(
                    tx,
                    ty,
                    tz,
                    old(self).width as int,
                )].spec_is_solid() && weak_via(
                    old(self).cells(),
                    x as int,
                    y as int,
                    z as int,
                    tx,
                    ty,
                    tz,
                    old(self).width as int,
                    old(self).height as int,
                ))),
    {
        proof {
            lemma_world_size_bounds(self.tier);
        }
        let w = self.width;
        let h = self.height;
        let ghost g0 = self.grid@;
        let mut k: u32 = 0;
        while k < 5
            invariant
                self.wf(),
                self.same_header(old(self)),
                self.pending() == old(self).pending(),
                g0 == old(self).cells(),
                w == self.width,
                h == self.height,
                w <= 256,
                k <= 5,
                in_world(x as int, y as int, z as int, w as int, h as int),
                only_weak_changed(g0, self.cells()),
                forall|tx: int, ty: int, tz: int|
                    in_world(tx, ty, tz, w as int, h as int) ==> (#[trigger] self.cells()[cell_index(
                        tx,
                        ty,
                        tz,
                        w as int,
                    )]).weakly_powered == (g0[cell_index(tx, ty, tz, w as int)].weakly_powered || (
                    g0[cell_index(tx, ty, tz, w as int)].spec_is_solid() && weak_via_upto(
                        g0,
                        x as int,
                        y as int,
                        z as int,
                        tx,
                        ty,
                        tz,
                        k as int,
                        w as int,
                        h as int,
                    ))),
            decreases 5 - k,
        {
            let (ax, ay, az): (i32, i32, i32) = if k < 4 {
                let (px, pz) = nbr_of(x, z, k);
                (px, y as i32, pz)
            } else {
                (x as i32, y as i32 - 1, z as i32)
            };
            let ghost a = anchor(x as int, y as int, z as int, k as int);
            assert((ax as int, ay as int, az as int) == a);
            let ghost before = self.grid@;
            if self.in_bounds(ax, ay, az) {
                proof {
                    lemma_cell_index_bounds(ax as int, ay as int, az as int, w as int, h as int);
                }
                let ai = Self::idx_static(ax as u32, ay as u32, az as u32, w);
                if self.grid[ai].is_solid() {
                    proof {
                        assert(self.cells()[ai as int] == Cell {
                            weakly_powered: self.cells()[ai as int].weakly_powered,
                            ..g0[ai as int]
                        });
                    }
                    self.mark_cluster(ax as u32, ay as u32, az as u32);
                    proof {
                        assert forall|i: int| 0 <= i < g0.len() implies #[trigger] self.cells()[i]
                            == Cell { weakly_powered: self.cells()[i].weakly_powered, ..g0[i] } by {
                            assert(self.cells()[i] == Cell {
                                weakly_powered: self.cells()[i].weakly_powered,
                                ..before[i]
                            });
                            assert(before[i] == Cell { weakly_powered: before[i].weakly_powered, ..g0[i] });
                        }
                        assert forall|tx: int, ty: int, tz: int|
                            in_world(tx, ty, tz, w as int, h as int) implies (
                        #[trigger] self.cells()[cell_index(tx, ty, tz, w as int)]).weakly_powered
                            == (g0[cell_index(tx, ty, tz, w as int)].weakly_powered || (g0[cell_index(
                            tx,
                            ty,
                            tz,
                            w as int,
                        )].spec_is_solid() && weak_via_upto(
                            g0,
                            x as int,
                            y as int,
                            z as int,
                            tx,
                            ty,
                            tz,
                            k + 1,
                            w as int,
                            h as int,
                        ))) by {
                            lemma_cell_index_bounds(tx, ty, tz, w as int, h as int);
                            let ti = cell_index(tx, ty, tz, w as int);
                            assert(before[ti] == Cell { weakly_powered: before[ti].weakly_powered, ..g0[ti] });
                        }
                    }
                }
            }
            proof {
                assert forall|tx: int, ty: int, tz: int|
                    in_world(tx, ty, tz, w as int, h as int) implies (
                #[trigger] self.cells()[cell_index(tx, ty, tz, w as int)]).weakly_powered
                    == (g0[cell_index(tx, ty, tz, w as int)].weakly_powered || (g0[cell_index(
                    tx,
                    ty,
                    tz,
                    w as int,
                )].spec_is_solid() && weak_via_upto(
                    g0,
                    x as int,
                    y as int,
                    z as int,
                    tx,
                    ty,
                    tz,
                    k + 1,
                    w as int,
                    h as int,
                ))) by {
                    let ti = cell_index(tx, ty, tz, w as int);
                    if !anchor_reaches(g0, x as int, y as int, z as int, k as int, tx, ty, tz, w as int, h as int) {
                        assert(weak_via_upto(g0, x as int, y as int, z as int, tx, ty, tz, k + 1, w as int, h as int)
                            == weak_via_upto(g0, x as int, y as int, z as int, tx, ty, tz, k as int, w as int, h as int));
                    } else {
                        lemma_cell_index_bounds(a.0, a.1, a.2, w as int, h as int);
                        let ai = cell_index(a.0, a.1, a.2, w as int);
                        assert(before[ai] == Cell { weakly_powered: before[ai].weakly_powered, ..g0[ai] });
                    }
                }
            }
            k += 1;
        }
        proof {
            assert forall|tx: int, ty: int, tz: int|
                in_world(tx, ty, tz, w as int, h as int) implies weak_via_upto(
                g0,
                x as int,
                y as int,
                z as int,
                tx,
                ty,
                tz,
                5,
                w as int,
                h as int,
            ) == weak_via(g0, x as int, y as int, z as int, tx, ty, tz, w as int, h as int) by {}
        }
    }
}


/// The wires around m towards its first `k` neighbours carry at least v - 1.
pub open spec fn relaxed_upto(g0: Seq<Cell>, g: Seq<Cell>, x: int, y: int, z: int, v: int, k: int, w: int, h: int) -> bool {
    &&& (k > 0 ==> relaxed(g0, g, x, y, z, 0, v, w, h))
    &&& (k > 1 ==> relaxed(g0, g, x, y, z, 1, v, w, h))
    &&& (k > 2 ==> relaxed(g0, g, x, y, z, 2, v, w, h))
    &&& (k > 3 ==> relaxed(g0, g, x, y, z, 3, v, w, h))
}

/// `flood_ok` while the wave of power `pw` popped at m is being spread: m
/// may instead be relaxed towards its first `k` neighbours.
pub open spec fn flood_partial(g0: Seq<Cell>, g: Seq<Cell>, q: Seq<Wave>, done: Set<(int, int, int)>, mx: int, my: int, mz: int, pw: int, k: int, w: int, h: int) -> bool {
    forall|x: int, y: int, z: int|
        in_world(x, y, z, w, h) && level_at(g0, g, #[trigger] cell_index(x, y, z, w)) > 1 ==> {
            ||| (settled(g0, g, x, y, z, w, h) && done.contains((x, y, z)))
            ||| qhas(q, x, y, z, level_at(g0, g, cell_index(x, y, z, w)))
            ||| (x == mx && y == my && z == mz && pw == level_at(g0, g, cell_index(x, y, z, w))
                && relaxed_upto(g0, g, x, y, z, pw, k, w, h))
        }
}

/// The dimensions of a well-formed world.
pub open spec fn dims_ok(g0: Seq<Cell>, w: int, h: int) -> bool {
    0 < w <= 256 && h == w && g0.len() == w * w * h
}

proof fn lemma_relax_step(
    g0: Seq<Cell>,
    g: Seq<Cell>,
    q: Seq<Wave>,
    g1: Seq<Cell>,
    q1: Seq<Wave>,
    done: Set<(int, int, int)>,
    mx: int,
    my: int,
    mz: int,
    pw: u8,
    k: int,
    w: int,
    h: int,
)
    requires
        dims_ok(g0, w, h),
        in_world(mx, my, mz, w, h),
        0 <= k < 4,
        pw > 1,
        frame_ok(g0, g),
        waves_ok(g0, g, q, w, h),
        done_ok(g0, g, done, w, h),
        backed_ok(g0, g, w, h),
        level_at(g0, g, cell_index(mx, my, mz, w)) >= pw,
        !is_wire(g0[cell_index(mx, my, mz, w)]) ==> level_at(g0, g, cell_index(mx, my, mz, w)) == pw,
        flood_partial(g0, g, q, done, mx, my, mz, pw as int, k, w, h),
        relax_result(g, q, g1, q1, mx, my, mz, k, (pw - 1) as u8, w, h),
    ensures
        frame_ok(g0, g1),
        waves_ok(g0, g1, q1, w, h),
        done_ok(g0, g1, done, w, h),
        backed_ok(g0, g1, w, h),
        level_at(g0, g1, cell_index(mx, my, mz, w)) == level_at(g0, g, cell_index(mx, my, mz, w)),
        flood_partial(g0, g1, q1, done, mx, my, mz, pw as int, k + 1, w, h),
        forall|i: int| 0 <= i < g.len() ==> (#[trigger] g1[i]).weakly_powered == g[i].weakly_powered,
        5 * deficit_sum(g1) + q1.len() <= 5 * deficit_sum(g) + q.len(),
{
    let next = (pw - 1) as u8;
    let n = nbr(mx, mz, k);
    let ni = cell_index(n.0, my, n.1, w);
    lemma_cell_index_bounds(mx, my, mz, w, h);
    let mi = cell_index(mx, my, mz, w);
    if in_world(n.0, my, n.1, w, h) && is_wire(g[ni]) && g[ni].power < next {
        lemma_cell_index_bounds(n.0, my, n.1, w, h);
        assert(ni != mi) by {
            if ni == mi {
                lemma_cell_index_injective(n.0, my, n.1, mx, my, mz, w, h);
            }
        }
        assert(g[ni].block == g0[ni].block);
        assert(is_wire(g0[ni]));
        // the frame and the levels
        assert forall|i: int| 0 <= i < g0.len() implies {
            &&& (#[trigger] g1[i]).block == g0[i].block
            &&& g1[i].strongly_powered == g0[i].strongly_powered
            &&& g1[i].repeater_timer == g0[i].repeater_timer
            &&& g1[i].torch_burnout == g0[i].torch_burnout
            &&& (!is_wire(g0[i]) ==> g1[i].power == g0[i].power)
        } by {
            assert(g[i].block == g0[i].block);
        }
        assert forall|i: int| 0 <= i < g0.len() implies level_at(g0, g1, i) >= level_at(g0, g, i)
            && (i != ni ==> level_at(g0, g1, i) == level_at(g0, g, i)) by {}
        assert(level_at(g0, g1, ni) == next);
        // queued waves
        assert forall|j: int| 0 <= j < q1.len() implies {
            &&& in_world((#[trigger] q1[j]).0 as int, q1[j].1 as int, q1[j].2 as int, w, h)
            &&& q1[j].3 <= level_at(g0, g1, cell_index(q1[j].0 as int, q1[j].1 as int, q1[j].2 as int, w))
            &&& (!is_wire(g0[cell_index(q1[j].0 as int, q1[j].1 as int, q1[j].2 as int, w)]) ==> q1[j].3
                == level_at(g0, g1, cell_index(q1[j].0 as int, q1[j].1 as int, q1[j].2 as int, w)))
        } by {
            if j < q.len() {
                assert(q1[j] == q[j]);
                lemma_cell_index_bounds(q[j].0 as int, q[j].1 as int, q[j].2 as int, w, h);
            }
        }
        // flooded positions
        assert forall|m: (int, int, int)| #[trigger] done.contains(m) implies in_world(m.0, m.1, m.2, w, h)
            && level_at(g0, g1, cell_index(m.0, m.1, m.2, w)) > 1 by {
            lemma_cell_index_bounds(m.0, m.1, m.2, w, h);
        }
        // backing of wire power
        lemma_nbr_rev(mx, mz, k);
        assert forall|x: int, y: int, z: int|
            in_world(x, y, z, w, h) && is_wire(g0[#[trigger] cell_index(x, y, z, w)]) && g1[cell_index(
                x,
                y,
                z,
                w,
            )].power > 0 implies {
            ||| backs(g0, g1, x, y, z, 0, w, h)
            ||| backs(g0, g1, x, y, z, 1, w, h)
            ||| backs(g0, g1, x, y, z, 2, w, h)
            ||| backs(g0, g1, x, y, z, 3, w, h)
        } by {
            lemma_cell_index_bounds(x, y, z, w, h);
            let i = cell_index(x, y, z, w);
            if i == ni {
                lemma_cell_index_injective(x, y, z, n.0, my, n.1, w, h);
                assert(backs(g0, g1, x, y, z, rev(k), w, h));
            } else {
                assert(g1[i] == g[i]);
                assert forall|kk: int| 0 <= kk < 4 && #[trigger] backs(g0, g, x, y, z, kk, w, h) implies backs(
                    g0,
                    g1,
                    x,
                    y,
                    z,
                    kk,
                    w,
                    h,
                ) by {
                    let nn = nbr(x, z, kk);
                    lemma_cell_index_bounds(nn.0, y, nn.1, w, h);
                }
                assert(backs(g0, g, x, y, z, 0, w, h) || backs(g0, g, x, y, z, 1, w, h) || backs(
                    g0,
                    g,
                    x,
                    y,
                    z,
                    2,
                    w,
                    h,
                ) || backs(g0, g, x, y, z, 3, w, h));
            }
        }
        // the flood invariant
        assert forall|x: int, y: int, z: int|
            in_world(x, y, z, w, h) && level_at(g0, g1, #[trigger] cell_index(x, y, z, w)) > 1 implies {
            ||| (settled(g0, g1, x, y, z, w, h) && done.contains((x, y, z)))
            ||| qhas(q1, x, y, z, level_at(g0, g1, cell_index(x, y, z, w)))
            ||| (x == mx && y == my && z == mz && pw == level_at(g0, g1, cell_index(x, y, z, w))
                && relaxed_upto(g0, g1, x, y, z, pw as int, k + 1, w, h))
        } by {
            lemma_cell_index_bounds(x, y, z, w, h);
            let i = cell_index(x, y, z, w);
            if i == ni {
                lemma_cell_index_injective(x, y, z, n.0, my, n.1, w, h);
                assert(q1[q.len() as int] == (n.0 as u32, my as u32, n.1 as u32, next));
                assert(qhas(q1, x, y, z, level_at(g0, g1, i)));
            } else {
                assert(level_at(g0, g1, i) == level_at(g0, g, i));
                assert forall|kk: int, v: int| 0 <= kk < 4 && #[trigger] relaxed(g0, g, x, y, z, kk, v, w, h) implies relaxed(
                    g0,
                    g1,
                    x,
                    y,
                    z,
                    kk,
                    v,
                    w,
                    h,
                ) by {
                    let nn = nbr(x, z, kk);
                    if in_world(nn.0, y, nn.1, w, h) {
                        lemma_cell_index_bounds(nn.0, y, nn.1, w, h);
                    }
                }
                if qhas(q, x, y, z, level_at(g0, g, i)) {
                    let j = choose|j: int|
                        0 <= j < q.len() && (#[trigger] q[j]).0 == x && q[j].1 == y && q[j].2 == z
                            && q[j].3 == level_at(g0, g, i);
                    assert(q1[j] == q[j]);
                } else if x == mx && y == my && z == mz && pw == level_at(g0, g, i) && relaxed_upto(
                    g0,
                    g,
                    x,
                    y,
                    z,
                    pw as int,
                    k,
                    w,
                    h,
                ) {
                    assert(relaxed(g0, g1, x, y, z, k, pw as int, w, h));
                }
            }
        }
        lemma_deficit_update(g, ni, Cell { power: next, ..g[ni] });
    } else {
        assert(g1 == g && q1 == q);
        assert(relaxed(g0, g, mx, my, mz, k, pw as int, w, h)) by {
            if in_world(n.0, my, n.1, w, h) {
                lemma_cell_index_bounds(n.0, my, n.1, w, h);
                assert(g[ni].block == g0[ni].block);
            }
        }
        assert forall|x: int, y: int, z: int|
            in_world(x, y, z, w, h) && level_at(g0, g1, #[trigger] cell_index(x, y, z, w)) > 1 implies {
            ||| (settled(g0, g1, x, y, z, w, h) && done.contains((x, y, z)))
            ||| qhas(q1, x, y, z, level_at(g0, g1, cell_index(x, y, z, w)))
            ||| (x == mx && y == my && z == mz && pw == level_at(g0, g1, cell_index(x, y, z, w))
                && relaxed_upto(g0, g1, x, y, z, pw as int, k + 1, w, h))
        } by {}
    }
}


/// Popping the front wave (m, pw) keeps the flood invariant, with m
/// possibly waiting to be relaxed from (when pw > 1).
proof fn lemma_pop(g0: Seq<Cell>, g: Seq<Cell>, q: Seq<Wave>, done: Set<(int, int, int)>, w: int, h: int)
    requires
        dims_ok(g0, w, h),
        q.len() > 0,
        waves_ok(g0, g, q, w, h),
        flood_ok(g0, g, q, done, w, h),
    ensures
        waves_ok(g0, g, q.drop_first(), w, h),
        q[0].3 <= 1 ==> flood_ok(g0, g, q.drop_first(), done, w, h),
        flood_partial(g0, g, q.drop_first(), done, q[0].0 as int, q[0].1 as int, q[0].2 as int, q[0].3 as int, 0, w, h),
        in_world(q[0].0 as int, q[0].1 as int, q[0].2 as int, w, h),
        q[0].3 <= level_at(g0, g, cell_index(q[0].0 as int, q[0].1 as int, q[0].2 as int, w)),
        !is_wire(g0[cell_index(q[0].0 as int, q[0].1 as int, q[0].2 as int, w)]) ==> q[0].3
            == level_at(g0, g, cell_index(q[0].0 as int, q[0].1 as int, q[0].2 as int, w)),
{
    let r = q.drop_first();
    assert forall|j: int| 0 <= j < r.len() implies #[trigger] r[j] == q[j + 1] by {}
    assert(waves_ok(g0, g, r, w, h)) by {
        assert forall|j: int| 0 <= j < r.len() implies {
            &&& in_world((#[trigger] r[j]).0 as int, r[j].1 as int, r[j].2 as int, w, h)
            &&& r[j].3 <= level_at(g0, g, cell_index(r[j].0 as int, r[j].1 as int, r[j].2 as int, w))
            &&& (!is_wire(g0[cell_index(r[j].0 as int, r[j].1 as int, r[j].2 as int, w)]) ==> r[j].3
                == level_at(g0, g, cell_index(r[j].0 as int, r[j].1 as int, r[j].2 as int, w)))
        } by {
            assert(r[j] == q[j + 1]);
        }
    }
    assert(q[0] == q[0]);
    assert forall|x: int, y: int, z: int|
        in_world(x, y, z, w, h) && level_at(g0, g, #[trigger] cell_index(x, y, z, w)) > 1 implies {
        ||| (settled(g0, g, x, y, z, w, h) && done.contains((x, y, z)))
        ||| qhas(r, x, y, z, level_at(g0, g, cell_index(x, y, z, w)))
        ||| (x == q[0].0 && y == q[0].1 && z == q[0].2 && q[0].3 == level_at(g0, g, cell_index(x, y, z, w))
            && relaxed_upto(g0, g, x, y, z, q[0].3 as int, 0, w, h))
    } by {
        let v = level_at(g0, g, cell_index(x, y, z, w));
        if !(settled(g0, g, x, y, z, w, h) && done.contains((x, y, z))) {
            assert(qhas(q, x, y, z, v));
            let j = choose|j: int|
                0 <= j < q.len() && (#[trigger] q[j]).0 == x && q[j].1 == y && q[j].2 == z && q[j].3 == v;
            if j > 0 {
                assert(r[j - 1] == q[j]);
            }
        }
    }
    if q[0].3 <= 1 {
        assert forall|x: int, y: int, z: int|
            in_world(x, y, z, w, h) && level_at(g0, g, #[trigger] cell_index(x, y, z, w)) > 1 implies (
            settled(g0, g, x, y, z, w, h) && done.contains((x, y, z))) || qhas(
            r,
            x,
            y,
            z,
            level_at(g0, g, cell_index(x, y, z, w)),
        ) by {
            let v = level_at(g0, g, cell_index(x, y, z, w));
            if !(settled(g0, g, x, y, z, w, h) && done.contains((x, y, z))) {
                assert(qhas(q, x, y, z, v));
                let j = choose|j: int|
                    0 <= j < q.len() && (#[trigger] q[j]).0 == x && q[j].1 == y && q[j].2 == z && q[j].3
                        == v;
                assert(j > 0);
                assert(r[j - 1] == q[j]);
            }
        }
    }
}

/// After the wave at m has relaxed all four neighbours and marked weak
/// power, m joins the flooded positions.
proof fn lemma_finish(
    g0: Seq<Cell>,
    g: Seq<Cell>,
    g2: Seq<Cell>,
    q: Seq<Wave>,
    done: Set<(int, int, int)>,
    mx: int,
    my: int,
    mz: int,
    pw: int,
    w: int,
    h: int,
)
    requires
        dims_ok(g0, w, h),
        in_world(mx, my, mz, w, h),
        pw > 1,
        level_at(g0, g, cell_index(mx, my, mz, w)) >= pw,
        frame_ok(g0, g),
        waves_ok(g0, g, q, w, h),
        done_ok(g0, g, done, w, h),
        backed_ok(g0, g, w, h),
        weak_ok(g0, g, done, w, h),
        flood_partial(g0, g, q, done, mx, my, mz, pw, 4, w, h),
        only_weak_changed(g, g2),
        forall|tx: int, ty: int, tz: int|
            in_world(tx, ty, tz, w, h) ==> (#[trigger] g2[cell_index(tx, ty, tz, w)]).weakly_powered
                == (g[cell_index(tx, ty, tz, w)].weakly_powered || (g[cell_index(
                tx,
                ty,
                tz,
                w,
            )].spec_is_solid() && weak_via(g, mx, my, mz, tx, ty, tz, w, h))),
    ensures
        frame_ok(g0, g2),
        waves_ok(g0, g2, q, w, h),
        done_ok(g0, g2, done.insert((mx, my, mz)), w, h),
        backed_ok(g0, g2, w, h),
        weak_ok(g0, g2, done.insert((mx, my, mz)), w, h),
        flood_ok(g0, g2, q, done.insert((mx, my, mz)), w, h),
        deficit_sum(g2) == deficit_sum(g),
{
    let d2 = done.insert((mx, my, mz));
    assert forall|i: int| 0 <= i < g.len() implies level_at(g0, g2, i) == level_at(g0, g, i) && (
    #[trigger] g2[i]).block == g[i].block && g2[i].power == g[i].power by {
        assert(g2[i] == Cell { weakly_powered: g2[i].weakly_powered, ..g[i] });
    }
    assert forall|i: int| 0 <= i < g.len() implies deficit(#[trigger] g2[i]) == deficit(g[i]) by {
        assert(g2[i] == Cell { weakly_powered: g2[i].weakly_powered, ..g[i] });
    }
    lemma_deficit_same(g2, g);
    assert forall|i: int| 0 <= i < g0.len() implies {
        &&& (#[trigger] g2[i]).block == g0[i].block
        &&& g2[i].strongly_powered == g0[i].strongly_powered
        &&& g2[i].repeater_timer == g0[i].repeater_timer
        &&& g2[i].torch_burnout == g0[i].torch_burnout
        &&& (!is_wire(g0[i]) ==> g2[i].power == g0[i].power)
    } by {
        assert(g2[i] == Cell { weakly_powered: g2[i].weakly_powered, ..g[i] });
        assert(g[i].block == g0[i].block);
    }
    assert forall|j: int| 0 <= j < q.len() implies {
        &&& in_world((#[trigger] q[j]).0 as int, q[j].1 as int, q[j].2 as int, w, h)
        &&& q[j].3 <= level_at(g0, g2, cell_index(q[j].0 as int, q[j].1 as int, q[j].2 as int, w))
        &&& (!is_wire(g0[cell_index(q[j].0 as int, q[j].1 as int, q[j].2 as int, w)]) ==> q[j].3
            == level_at(g0, g2, cell_index(q[j].0 as int, q[j].1 as int, q[j].2 as int, w)))
    } by {
        lemma_cell_index_bounds(q[j].0 as int, q[j].1 as int, q[j].2 as int, w, h);
    }
    lemma_cell_index_bounds(mx, my, mz, w, h);
    assert forall|m: (int, int, int)| #[trigger] d2.contains(m) implies in_world(m.0, m.1, m.2, w, h)
        && level_at(g0, g2, cell_index(m.0, m.1, m.2, w)) > 1 by {
        if m != (mx, my, mz) {
            assert(done.contains(m));
        }
        lemma_cell_index_bounds(m.0, m.1, m.2, w, h);
    }
    assert forall|x: int, y: int, z: int|
        in_world(x, y, z, w, h) && is_wire(g0[#[trigger] cell_index(x, y, z, w)]) && g2[cell_index(
            x,
            y,
            z,
            w,
        )].power > 0 implies {
        ||| backs(g0, g2, x, y, z, 0, w, h)
        ||| backs(g0, g2, x, y, z, 1, w, h)
        ||| backs(g0, g2, x, y, z, 2, w, h)
        ||| backs(g0, g2, x, y, z, 3, w, h)
    } by {
        lemma_cell_index_bounds(x, y, z, w, h);
        assert forall|kk: int| 0 <= kk < 4 && #[trigger] backs(g0, g, x, y, z, kk, w, h) implies backs(
            g0,
            g2,
            x,
            y,
            z,
            kk,
            w,
            h,
        ) by {
            let nn = nbr(x, z, kk);
            lemma_cell_index_bounds(nn.0, y, nn.1, w, h);
        }
        assert(backs(g0, g, x, y, z, 0, w, h) || backs(g0, g, x, y, z, 1, w, h) || backs(
            g0,
            g,
            x,
            y,
            z,
            2,
            w,
            h,
        ) || backs(g0, g, x, y, z, 3, w, h));
    }
    assert forall|tx: int, ty: int, tz: int|
        in_world(tx, ty, tz, w, h) implies weak_via(g, mx, my, mz, tx, ty, tz, w, h) == weak_via(
        g0,
        mx,
        my,
        mz,
        tx,
        ty,
        tz,
        w,
        h,
    ) by {
        assert forall|k: int| 0 <= k < 5 implies #[trigger] anchor_reaches(g, mx, my, mz, k, tx, ty, tz, w, h)
            == anchor_reaches(g0, mx, my, mz, k, tx, ty, tz, w, h) by {
            let a = anchor(mx, my, mz, k);
            if in_world(a.0, a.1, a.2, w, h) {
                lemma_cell_index_bounds(a.0, a.1, a.2, w, h);
                assert(g[cell_index(a.0, a.1, a.2, w)].block == g0[cell_index(a.0, a.1, a.2, w)].block);
            }
        }
        assert(anchor_reaches(g, mx, my, mz, 0, tx, ty, tz, w, h) == anchor_reaches(g0, mx, my, mz, 0, tx, ty, tz, w, h));
        assert(anchor_reaches(g, mx, my, mz, 1, tx, ty, tz, w, h) == anchor_reaches(g0, mx, my, mz, 1, tx, ty, tz, w, h));
        assert(anchor_reaches(g, mx, my, mz, 2, tx, ty, tz, w, h) == anchor_reaches(g0, mx, my, mz, 2, tx, ty, tz, w, h));
        assert(anchor_reaches(g, mx, my, mz, 3, tx, ty, tz, w, h) == anchor_reaches(g0, mx, my, mz, 3, tx, ty, tz, w, h));
        assert(anchor_reaches(g, mx, my, mz, 4, tx, ty, tz, w, h) == anchor_reaches(g0, mx, my, mz, 4, tx, ty, tz, w, h));
    }
    assert forall|x: int, y: int, z: int|
        in_world(x, y, z, w, h) implies (#[trigger] g2[cell_index(x, y, z, w)]).weakly_powered == (
        g0[cell_index(x, y, z, w)].weakly_powered || (g0[cell_index(x, y, z, w)].spec_is_solid()
            && exists|m: (int, int, int)|
            d2.contains(m) && #[trigger] weak_via(g0, m.0, m.1, m.2, x, y, z, w, h))) by {
        lemma_cell_index_bounds(x, y, z, w, h);
        let i = cell_index(x, y, z, w);
        assert(g[i].block == g0[i].block);
        if weak_via(g0, mx, my, mz, x, y, z, w, h) {
            assert(d2.contains((mx, my, mz)));
            assert(weak_via(g0, (mx, my, mz).0, (mx, my, mz).1, (mx, my, mz).2, x, y, z, w, h));
        }
        if exists|m: (int, int, int)| done.contains(m) && #[trigger] weak_via(g0, m.0, m.1, m.2, x, y, z, w, h) {
            let m = choose|m: (int, int, int)| done.contains(m) && #[trigger] weak_via(g0, m.0, m.1, m.2, x, y, z, w, h);
            assert(d2.contains(m));
        }
        if exists|m: (int, int, int)| d2.contains(m) && #[trigger] weak_via(g0, m.0, m.1, m.2, x, y, z, w, h) {
            let m = choose|m: (int, int, int)| d2.contains(m) && #[trigger] weak_via(g0, m.0, m.1, m.2, x, y, z, w, h);
            if m != (mx, my, mz) {
                assert(done.contains(m));
            }
        }
    }
    assert forall|x: int, y: int, z: int|
        in_world(x, y, z, w, h) && level_at(g0, g2, #[trigger] cell_index(x, y, z, w)) > 1 implies (
        settled(g0, g2, x, y, z, w, h) && d2.contains((x, y, z))) || qhas(
        q,
        x,
        y,
        z,
        level_at(g0, g2, cell_index(x, y, z, w)),
    ) by {
        lemma_cell_index_bounds(x, y, z, w, h);
        assert forall|kk: int, v: int| 0 <= kk < 4 && #[trigger] relaxed(g0, g, x, y, z, kk, v, w, h) implies relaxed(
            g0,
            g2,
            x,
            y,
            z,
            kk,
            v,
            w,
            h,
        ) by {
            let nn = nbr(x, z, kk);
            if in_world(nn.0, y, nn.1, w, h) {
                lemma_cell_index_bounds(nn.0, y, nn.1, w, h);
            }
        }
    }
}

/// With the queue drained the flood invariants give the propagation outcome.
proof fn lemma_flood_complete(g0: Seq<Cell>, g: Seq<Cell>, done: Set<(int, int, int)>, w: int, h: int)
    requires
        dims_ok(g0, w, h),
        frame_ok(g0, g),
        done_ok(g0, g, done, w, h),
        backed_ok(g0, g, w, h),
        weak_ok(g0, g, done, w, h),
        flood_ok(g0, g, Seq::empty(), done, w, h),
    ensures
        propagation_done(g0, g, w, h),
{
    let q = Seq::<Wave>::empty();
    assert forall|x: int, y: int, z: int| in_world(x, y, z, w, h) && level_at(g0, g, #[trigger] cell_index(x, y, z, w)) > 1
        implies settled(g0, g, x, y, z, w, h) && done.contains((x, y, z)) by {
        assert(!qhas(q, x, y, z, level_at(g0, g, cell_index(x, y, z, w))));
    }
    assert forall|x: int, y: int, z: int, k: int|
        in_world(x, y, z, w, h) && 0 <= k < 4 && level_at(g0, g, #[trigger] cell_index(x, y, z, w))
            > 1 implies #[trigger] relaxed(g0, g, x, y, z, k, level_at(g0, g, cell_index(x, y, z, w)), w, h) by {
        assert(settled(g0, g, x, y, z, w, h));
    }
    assert forall|x: int, y: int, z: int|
        in_world(x, y, z, w, h) && is_wire(g0[#[trigger] cell_index(x, y, z, w)]) && g[cell_index(
            x,
            y,
            z,
            w,
        )].power > 0 implies {
        ||| supports(g0, g, x, y, z, 0, w, h)
        ||| supports(g0, g, x, y, z, 1, w, h)
        ||| supports(g0, g, x, y, z, 2, w, h)
        ||| supports(g0, g, x, y, z, 3, w, h)
    } by {
        let i = cell_index(x, y, z, w);
        lemma_cell_index_bounds(x, y, z, w, h);
        assert forall|kk: int| 0 <= kk < 4 && #[trigger] backs(g0, g, x, y, z, kk, w, h) implies supports(
            g0,
            g,
            x,
            y,
            z,
            kk,
            w,
            h,
        ) by {
            let nn = nbr(x, z, kk);
            let ni = cell_index(nn.0, y, nn.1, w);
            lemma_cell_index_bounds(nn.0, y, nn.1, w, h);
            if is_wire(g0[ni]) {
                lemma_nbr_rev(x, z, kk);
                assert(level_at(g0, g, cell_index(nn.0, y, nn.1, w)) > 1);
                assert(settled(g0, g, nn.0, y, nn.1, w, h));
                let rk = rev(kk);
                assert(relaxed(g0, g, nn.0, y, nn.1, rk, level_at(g0, g, ni), w, h));
            }
        }
        assert(backs(g0, g, x, y, z, 0, w, h) || backs(g0, g, x, y, z, 1, w, h) || backs(
            g0,
            g,
            x,
            y,
            z,
            2,
            w,
            h,
        ) || backs(g0, g, x, y, z, 3, w, h));
    }
    assert forall|x: int, y: int, z: int|
        in_world(x, y, z, w, h) implies (#[trigger] g[cell_index(x, y, z, w)]).weakly_powered == (
        g0[cell_index(x, y, z, w)].weakly_powered || (g0[cell_index(x, y, z, w)].spec_is_solid()
            && exists|mx: int, my: int, mz: int|
            in_world(mx, my, mz, w, h) && level_at(g0, g, cell_index(mx, my, mz, w)) > 1
                && #[trigger] weak_via(g0, mx, my, mz, x, y, z, w, h))) by {
        if exists|m: (int, int, int)| done.contains(m) && #[trigger] weak_via(g0, m.0, m.1, m.2, x, y, z, w, h) {
            let m = choose|m: (int, int, int)| done.contains(m) && #[trigger] weak_via(g0, m.0, m.1, m.2, x, y, z, w, h);
            assert(in_world(m.0, m.1, m.2, w, h) && level_at(g0, g, cell_index(m.0, m.1, m.2, w)) > 1);
        }
        if exists|mx: int, my: int, mz: int|
            in_world(mx, my, mz, w, h) && level_at(g0, g, cell_index(mx, my, mz, w)) > 1
                && #[trigger] weak_via(g0, mx, my, mz, x, y, z, w, h) {
            let (mx, my, mz) = choose|mx: int, my: int, mz: int|
                in_world(mx, my, mz, w, h) && level_at(g0, g, cell_index(mx, my, mz, w)) > 1
                    && #[trigger] weak_via(g0, mx, my, mz, x, y, z, w, h);
            assert(done.contains((mx, my, mz)));
            assert(weak_via(g0, (mx, my, mz).0, (mx, my, mz).1, (mx, my, mz).2, x, y, z, w, h));
        }
    }
}


impl RedstoneVM {
    fn relax_neighbor(&mut self, queue: &mut VecDeque<Wave>, x: u32, y: u32, z: u32, k: u32, next: u8)
        requires
            old(self).wf(),
            in_world(x as int, y as int, z as int, old(self).width as int, old(self).height as int),
            k < 4,
        ensures
            final(self).wf(),
            final(self).same_header(old(self)),
            final(self).pending() == old(self).pending(),
            relax_result(
                old(self).cells(),
                old(queue)@,
                final(self).cells(),
                final(queue)@,
                x as int,
                y as int,
                z as int,
                k as int,
                next,
                old(self).width as int,
                old(self).height as int,
            ),
    {
        proof {
            lemma_world_size_bounds(self.tier);
        }
        let (nx, nz) = nbr_of(x, z, k);
        if self.in_bounds(nx, y as i32, nz) {
            proof {
                lemma_cell_index_bounds(nx as int, y as int, nz as int, self.width as int, self.height as int);
            }
            let ni = Self::idx_static(nx as u32, y, nz as u32, self.width);
            if matches!(self.grid[ni].block, BlockType::RedstoneWire) && self.grid[ni].power < next {
                let mut c = self.grid[ni];
                c.power = next;
                self.grid.set(ni, c);
                queue.push_back((nx as u32, y, nz as u32, next));
            }
        }
    }

    /// Flood power from every source along redstone wire (one level lost per
    /// block), weakly powering the solid blocks around everything that
    /// carries more than 1. Expects every wire to start unpowered.
    pub(crate) fn propagate_power(&mut self)
        requires
            old(self).wf(),
            forall|i: int|
                0 <= i < old(self).cells().len() && is_wire(#[trigger] old(self).cells()[i])
                    ==> old(self).cells()[i].power == 0,
        ensures
            final(self).wf(),
            final(self).same_header(old(self)),
            final(self).pending() == old(self).pending(),
            propagation_done(
                old(self).cells(),
                final(self).cells(),
                old(self).width as int,
                old(self).height as int,
            ),
    {
        proof {
            lemma_world_size_bounds(self.tier);
            lemma_world_volume(self.width as int);
        }
        let w = self.width;
        let h = self.height;
        let n = self.grid.len();
        let ghost g0 = self.grid@;
        let mut queue: VecDeque<Wave> = VecDeque::new();
        let mut i: usize = 0;
        let mut x: u32 = 0;
        let mut y: u32 = 0;
        let mut z: u32 = 0;
        while i < n
            invariant
                self.wf(),
                self.same_header(old(self)),
                self.pending() == old(self).pending(),
                self.grid@ == g0,
                g0 == old(self).cells(),
                w == self.width,
                h == self.height,
                0 < w <= 256,
                n == g0.len(),
                n == w * w * h,
                scan_at(i as int, x as int, y as int, z as int, w as int, h as int),
                i <= n,
                forall|j: int| 0 <= j < g0.len() && is_wire(#[trigger] g0[j]) ==> g0[j].power == 0,
                waves_ok(g0, g0, queue@, w as int, h as int),
                forall|xx: int, yy: int, zz: int|
                    in_world(xx, yy, zz, w as int, h as int) && cell_index(xx, yy, zz, w as int) < i
                        && level_at(g0, g0, #[trigger] cell_index(xx, yy, zz, w as int)) > 1 ==> qhas(
                        queue@,
                        xx,
                        yy,
                        zz,
                        level_at(g0, g0, cell_index(xx, yy, zz, w as int)),
                    ),
            decreases n - i,
        {
            proof {
                if y == h {
                    assert(i == n) by (nonlinear_arith)
                        requires
                            i == 0 + 0 * w + h * (w * w),
                            n == w * w * h,
                    ;
                }
            }
            let src = self.grid[i].source_power();
            let ghost q_before = queue@;
            if src > 0 {
                queue.push_back((x, y, z, src));
            }
            proof {
                lemma_scan_step(x as int, y as int, z as int, w as int);
                assert forall|j: int| 0 <= j < queue@.len() implies {
                    &&& in_world((#[trigger] queue@[j]).0 as int, queue@[j].1 as int, queue@[j].2 as int, w as int, h as int)
                    &&& queue@[j].3 <= level_at(g0, g0, cell_index(queue@[j].0 as int, queue@[j].1 as int, queue@[j].2 as int, w as int))
                    &&& (!is_wire(g0[cell_index(queue@[j].0 as int, queue@[j].1 as int, queue@[j].2 as int, w as int)]) ==> queue@[j].3
                        == level_at(g0, g0, cell_index(queue@[j].0 as int, queue@[j].1 as int, queue@[j].2 as int, w as int)))
                } by {
                    if j < q_before.len() {
                        assert(queue@[j] == q_before[j]);
                    }
                }
                assert forall|xx: int, yy: int, zz: int|
                    in_world(xx, yy, zz, w as int, h as int) && cell_index(xx, yy, zz, w as int) < i + 1
                        && level_at(g0, g0, #[trigger] cell_index(xx, yy, zz, w as int)) > 1 implies qhas(
                        queue@,
                        xx,
                        yy,
                        zz,
                        level_at(g0, g0, cell_index(xx, yy, zz, w as int)),
                    ) by {
                    if cell_index(xx, yy, zz, w as int) == i {
                        lemma_cell_index_injective(xx, yy, zz, x as int, y as int, z as int, w as int, h as int);
                        assert(queue@[q_before.len() as int] == (x, y, z, src));
                    } else {
                        let j = choose|j: int|
                            0 <= j < q_before.len() && (#[trigger] q_before[j]).0 == xx && q_before[j].1 == yy
                                && q_before[j].2 == zz && q_before[j].3 == level_at(g0, g0, cell_index(xx, yy, zz, w as int));
                        assert(queue@[j] == q_before[j]);
                    }
                }
            }
            i += 1;
            if x + 1 < w {
                x += 1;
            } else {
                x = 0;
                if z + 1 < w {
                    z += 1;
                } else {
                    z = 0;
                    y += 1;
                }
            }
        }
        let ghost mut done: Set<(int, int, int)> = Set::empty();
        proof {
            assert forall|xx: int, yy: int, zz: int|
                in_world(xx, yy, zz, w as int, h as int) && level_at(g0, g0, #[trigger] cell_index(xx, yy, zz, w as int)) > 1
                implies (settled(g0, g0, xx, yy, zz, w as int, h as int) && done.contains((xx, yy, zz))) || qhas(
                queue@,
                xx,
                yy,
                zz,
                level_at(g0, g0, cell_index(xx, yy, zz, w as int)),
            ) by {
                lemma_cell_index_bounds(xx, yy, zz, w as int, h as int);
            }
            assert forall|xx: int, yy: int, zz: int|
                in_world(xx, yy, zz, w as int, h as int) implies (#[trigger] g0[cell_index(xx, yy, zz, w as int)]).weakly_powered == (
                g0[cell_index(xx, yy, zz, w as int)].weakly_powered || (g0[cell_index(xx, yy, zz, w as int)].spec_is_solid()
                    && exists|m: (int, int, int)|
                    done.contains(m) && #[trigger] weak_via(g0, m.0, m.1, m.2, xx, yy, zz, w as int, h as int))) by {}
            assert forall|xx: int, yy: int, zz: int|
                in_world(xx, yy, zz, w as int, h as int) && is_wire(g0[#[trigger] cell_index(xx, yy, zz, w as int)])
                    && g0[cell_index(xx, yy, zz, w as int)].power > 0 implies false by {
                lemma_cell_index_bounds(xx, yy, zz, w as int, h as int);
            }
        }
        while queue.len() > 0
            invariant
                self.wf(),
                self.same_header(old(self)),
                self.pending() == old(self).pending(),
                g0 == old(self).cells(),
                w == self.width,
                h == self.height,
                dims_ok(g0, w as int, h as int),
                frame_ok(g0, self.grid@),
                waves_ok(g0, self.grid@, queue@, w as int, h as int),
                done_ok(g0, self.grid@, done, w as int, h as int),
                backed_ok(g0, self.grid@, w as int, h as int),
                weak_ok(g0, self.grid@, done, w as int, h as int),
                flood_ok(g0, self.grid@, queue@, done, w as int, h as int),
            decreases 5 * deficit_sum(self.grid@) + queue@.len(),
        {
            let ghost g_pop = self.grid@;
            let ghost q_pop = queue@;
            proof {
                lemma_pop(g0, g_pop, q_pop, done, w as int, h as int);
            }
            let (px, py, pz, power) = queue.pop_front().unwrap();
            assert(queue@ == q_pop.drop_first());
            if power > 1 {
                let next = power - 1;
                let ghost mx = px as int;
                let ghost my = py as int;
                let ghost mz = pz as int;
                let ghost g_a = self.grid@;
                let ghost q_a = queue@;
                self.relax_neighbor(&mut queue, px, py, pz, 0, next);
                proof {
                    lemma_relax_step(g0, g_a, q_a, self.grid@, queue@, done, mx, my, mz, power, 0, w as int, h as int);
                }
                let ghost g_b = self.grid@;
                let ghost q_b = queue@;
                self.relax_neighbor(&mut queue, px, py, pz, 1, next);
                proof {
                    lemma_relax_step(g0, g_b, q_b, self.grid@, queue@, done, mx, my, mz, power, 1, w as int, h as int);
                }
                let ghost g_c = self.grid@;
                let ghost q_c = queue@;
                self.relax_neighbor(&mut queue, px, py, pz, 2, next);
                proof {
                    lemma_relax_step(g0, g_c, q_c, self.grid@, queue@, done, mx, my, mz, power, 2, w as int, h as int);
                }
                let ghost g_d = self.grid@;
                let ghost q_d = queue@;
                self.relax_neighbor(&mut queue, px, py, pz, 3, next);
                proof {
                    lemma_relax_step(g0, g_d, q_d, self.grid@, queue@, done, mx, my, mz, power, 3, w as int, h as int);
                    assert forall|i: int| 0 <= i < g_a.len() implies (#[trigger] self.grid@[i]).weakly_powered
                        == g_a[i].weakly_powered by {
                        assert(self.grid@[i].weakly_powered == g_d[i].weakly_powered);
                        assert(g_d[i].weakly_powered == g_c[i].weakly_powered);
                        assert(g_c[i].weakly_powered == g_b[i].weakly_powered);
                        assert(g_b[i].weakly_powered == g_a[i].weakly_powered);
                    }
                    assert forall|xx: int, yy: int, zz: int|
                        in_world(xx, yy, zz, w as int, h as int) implies (#[trigger] self.grid@[cell_index(xx, yy, zz, w as int)]).weakly_powered == (
                        g0[cell_index(xx, yy, zz, w as int)].weakly_powered || (g0[cell_index(xx, yy, zz, w as int)].spec_is_solid()
                            && exists|m: (int, int, int)|
                            done.contains(m) && #[trigger] weak_via(g0, m.0, m.1, m.2, xx, yy, zz, w as int, h as int))) by {
                        lemma_cell_index_bounds(xx, yy, zz, w as int, h as int);
                        assert(g_a[cell_index(xx, yy, zz, w as int)].weakly_powered == g_pop[cell_index(xx, yy, zz, w as int)].weakly_powered);
                    }
                }
                let ghost g_e = self.grid@;
                self.mark_anchors(px, py, pz);
                proof {
                    lemma_finish(g0, g_e, self.grid@, queue@, done, mx, my, mz, power as int, w as int, h as int);
                    done = done.insert((mx, my, mz));
                }
            }
        }
        proof {
            assert(queue@ == Seq::<Wave>::empty());
            lemma_flood_complete(g0, self.grid@, done, w as int, h as int);
        }
    }
}

/// After propagation, wire power falls off by one per block: a wire next to
/// a block of level L above 1 (a wire's power after propagation, any other
/// block's source power) carries at least L - 1, and a wire carrying power
/// has a neighbour of level exactly one more. Blocks other than wire keep
/// their power, and no block changes kind.
pub proof fn lemma_wire_levels(g0: Seq<Cell>, g1: Seq<Cell>, w: int, h: int, x: int, y: int, z: int)
    requires
        propagation_done(g0, g1, w, h),
        in_world(x, y, z, w, h),
        g0.len() == w * w * h,
    ensures
        ({
            let i = cell_index(x, y, z, w);
            &&& g1[i].block == g0[i].block
            &&& !(g0[i].block is RedstoneWire) ==> g1[i].power == g0[i].power
            &&& g0[i].block is RedstoneWire ==> forall|k: int|
                #![trigger nbr(x, z, k)]
                0 <= k < 4 && in_world(nbr(x, z, k).0, y, nbr(x, z, k).1, w, h) ==> {
                    let j = cell_index(nbr(x, z, k).0, y, nbr(x, z, k).1, w);
                    let l: int = if g0[j].block is RedstoneWire {
                        g1[j].power as int
                    } else {
                        g0[j].spec_source_power() as int
                    };
                    l > 1 ==> g1[i].power >= l - 1
                }
            &&& g0[i].block is RedstoneWire && g1[i].power > 0 ==> exists|k: int|
                0 <= k < 4 && in_world(nbr(x, z, k).0, y, nbr(x, z, k).1, w, h) && {
                    let j = #[trigger] cell_index(nbr(x, z, k).0, y, nbr(x, z, k).1, w);
                    (if g0[j].block is RedstoneWire {
                        g1[j].power as int
                    } else {
                        g0[j].spec_source_power() as int
                    }) == g1[i].power + 1
                }
        }),
{
    let i = cell_index(x, y, z, w);
    lemma_cell_index_bounds(x, y, z, w, h);
    assert forall|k: int|
        #![trigger nbr(x, z, k)]
        0 <= k < 4 && in_world(nbr(x, z, k).0, y, nbr(x, z, k).1, w, h) implies {
        let j = cell_index(nbr(x, z, k).0, y, nbr(x, z, k).1, w);
        let l: int = if g0[j].block is RedstoneWire {
            g1[j].power as int
        } else {
            g0[j].spec_source_power() as int
        };
        g0[i].block is RedstoneWire && l > 1 ==> g1[i].power >= l - 1
    } by {
        let (nx, nz) = nbr(x, z, k);
        lemma_nbr_rev(x, z, k);
        let j = cell_index(nx, y, nz, w);
        lemma_cell_index_bounds(nx, y, nz, w, h);
        if g0[i].block is RedstoneWire && level_at(g0, g1, j) > 1 {
            assert(relaxed(g0, g1, nx, y, nz, rev(k), level_at(g0, g1, cell_index(nx, y, nz, w)), w, h));
        }
    }
    if g0[i].block is RedstoneWire && g1[i].power > 0 {
        assert(is_wire(g0[cell_index(x, y, z, w)]));
        let k = if supports(g0, g1, x, y, z, 0, w, h) {
            0int
        } else if supports(g0, g1, x, y, z, 1, w, h) {
            1int
        } else if supports(g0, g1, x, y, z, 2, w, h) {
            2int
        } else {
            3int
        };
        assert(supports(g0, g1, x, y, z, k, w, h));
        let j = cell_index(nbr(x, z, k).0, y, nbr(x, z, k).1, w);
        lemma_cell_index_bounds(nbr(x, z, k).0, y, nbr(x, z, k).1, w, h);
        assert(level_at(g0, g1, j) == g1[i].power + 1);
    }
}

} // verus!
