//! ALU node editor state: which ALU the editor shows, the port picked as a
//! link's source, whether the chip selector is open, and what each click
//! on the editor does to the link graph and the external ports' modes.
//! Drawing the editor and hit-testing clicks is the application's part.

use vstd::prelude::*;

use crate::alu::{
    key_pos, lemma_key_pos, lemma_key_pos_is, lemma_map_put_unique, map_get, map_put, next_mode,
    next_mode_of, IoModes, LinkGraph, PortKey, PortRef,
};
use crate::chip::Port;
use crate::commands::{ext_chip_id, ext_id_text};
use crate::text::{
    after_prefix, chars_of, first_index, first_index_exec, lemma_first_index_bounds, parse_int,
    parse_unsigned, pieces_at, split_at_char, str_eq, strip_prefix, sub_string,
};
use vstd::string::StrSliceExecFns;
use crate::vm::Tier;

verus! {

broadcast use vstd::string::group_string_axioms;

/// The ALU editor's own state.
pub struct AluUi {
    /// The ALU the editor shows.
    pub alu_pos: Option<(i32, i32, i32)>,
    /// The port picked as the source of the next link.
    pub selected: Option<PortRef>,
    /// Whether the chip selector is shown instead of the editor.
    pub show_selector: bool,
}

/// What the editor asks the application to do after a click.
#[derive(Debug)]
pub enum AluUiRequest {
    /// Nothing to send.
    Nothing,
    /// Ask the server to install the chip in inventory slot `slot` into the ALU at `pos`.
    Install { slot: String, pos: (i32, i32, i32) },
    /// Ask the server for the chips in the player's inventory.
    RequestChipList,
    /// Tell the server the link graph was saved.
    SaveLinks,
}

/// An optional port reference as texts.
pub open spec fn sel_view(o: Option<PortRef>) -> Option<PortKey> {
    match o {
        Some(r) => Some((r.0@, r.1@)),
        None => None,
    }
}

/// Picking the port `p`: with nothing picked it becomes the source; with a
/// source picked, the source is linked to `p` and the pick is cleared.
pub open spec fn pick(sel: Option<PortKey>, links: Seq<(PortKey, PortKey)>, p: PortKey) -> (Option<PortKey>, Seq<(PortKey, PortKey)>) {
    match sel {
        None => (Some(p), links),
        Some(src) => (None, map_put(links, src, p)),
    }
}

/// The position the editor works on: the ALU's, or the origin with none.
pub open spec fn pos_or_origin(o: Option<(i32, i32, i32)>) -> (i32, i32, i32) {
    match o {
        Some(p) => p,
        None => (0i32, 0i32, 0i32),
    }
}

/// The key of an external port's mode: `<pseudo-chip id>:<side>`.
pub open spec fn mode_key(pos: (i32, i32, i32), side: Seq<char>) -> Seq<char> {
    ext_id_text(pos.0 as int, pos.1 as int, pos.2 as int) + seq![':'] + side
}

/// The mode under `key`, input when none is set.
pub open spec fn mode_or_input(modes: Seq<(Seq<char>, Seq<char>)>, key: Seq<char>) -> Seq<char> {
    match map_get(modes, key) {
        Some(m) => m,
        None => "Input"@,
    }
}

// ── Auto-linking ──────────────────────────────────────────────────────────────

/// The labels of a chip's ports, by the chip's id; none when the chip has no
/// port list.
pub open spec fn labels_of(ports: Seq<(Seq<char>, Seq<Seq<char>>)>, id: Seq<char>) -> Seq<Seq<char>> {
    match map_get(ports, id) {
        Some(l) => l,
        None => Seq::empty(),
    }
}

/// Links from the port `a` of chip `ci` to the equally labelled ports of `lb` on chip `cj`.
pub open spec fn match_links(ci: Seq<char>, a: Seq<char>, cj: Seq<char>, lb: Seq<Seq<char>>) -> Seq<(PortKey, PortKey)>
    decreases lb.len(),
{
    if lb.len() == 0 {
        Seq::empty()
    } else {
        match_links(ci, a, cj, lb.drop_last()) + if lb.last() == a {
            seq![((ci, a), (cj, lb.last()))]
        } else {
            Seq::empty()
        }
    }
}

/// Links between equally labelled ports of chips `ci` and `cj`, port by port of `ci`.
pub open spec fn pair_links(ci: Seq<char>, la: Seq<Seq<char>>, cj: Seq<char>, lb: Seq<Seq<char>>) -> Seq<(PortKey, PortKey)>
    decreases la.len(),
{
    if la.len() == 0 {
        Seq::empty()
    } else {
        pair_links(ci, la.drop_last(), cj, lb) + match_links(ci, la.last(), cj, lb)
    }
}

/// Links from chip `i` to the chips after it, up to (not including) `j`.
pub open spec fn chip_links(chips: Seq<Seq<char>>, ports: Seq<(Seq<char>, Seq<Seq<char>>)>, i: int, j: int) -> Seq<(PortKey, PortKey)>
    decreases j - i,
{
    if j <= i + 1 {
        Seq::empty()
    } else {
        chip_links(chips, ports, i, j - 1) + pair_links(
            chips[i],
            labels_of(ports, chips[i]),
            chips[j - 1],
            labels_of(ports, chips[j - 1]),
        )
    }
}

/// The links auto-linking adds, in the order it adds them, for the first `n` chips.
pub open spec fn all_links(chips: Seq<Seq<char>>, ports: Seq<(Seq<char>, Seq<Seq<char>>)>, n: int) -> Seq<(PortKey, PortKey)>
    decreases n,
{
    if n <= 0 {
        Seq::empty()
    } else {
        all_links(chips, ports, n - 1) + chip_links(chips, ports, n - 1, chips.len() as int)
    }
}

/// `links` with every pair of `adds` put in, in order.
pub open spec fn put_all(links: Seq<(PortKey, PortKey)>, adds: Seq<(PortKey, PortKey)>) -> Seq<(PortKey, PortKey)>
    decreases adds.len(),
{
    if adds.len() == 0 {
        links
    } else {
        map_put(put_all(links, adds.drop_last()), adds.last().0, adds.last().1)
    }
}

/// The chips of an ALU by id.
pub open spec fn chip_ids(chips: Seq<(String, Tier)>) -> Seq<Seq<char>> {
    chips.map_values(|c: (String, Tier)| c.0@)
}

/// The port labels of each chip with a port list.
pub open spec fn ports_view(ports: Seq<(String, Vec<Port>)>) -> Seq<(Seq<char>, Seq<Seq<char>>)> {
    ports.map_values(|e: (String, Vec<Port>)| (e.0@, e.1@.map_values(|p: Port| p.label@)))
}

/// The link graph after auto-linking: every port of a chip is linked to
/// each equally labelled port of every chip after it, later links of the
/// same source replacing earlier ones.
pub open spec fn auto_linked(links: Seq<(PortKey, PortKey)>, chips: Seq<Seq<char>>, ports: Seq<(Seq<char>, Seq<Seq<char>>)>) -> Seq<(PortKey, PortKey)> {
    put_all(links, all_links(chips, ports, chips.len() as int))
}

fn port_labels(ports: &Vec<(String, Vec<Port>)>, id: &String) -> (r: Vec<String>)
    ensures
        r@.map_values(|s: String| s@) == labels_of(ports_view(ports@), id@),
{
    let ghost pv = ports_view(ports@);
    let mut k: usize = 0;
    while k < ports.len()
        invariant
            k <= ports@.len(),
            pv == ports_view(ports@),
            forall|m: int| 0 <= m < k ==> pv[m].0 != id@,
        decreases ports@.len() - k,
    {
        assert(pv[k as int].0 == ports@[k as int].0@);
        if str_eq(ports[k].0.as_str(), id.as_str()) {
            proof {
                lemma_key_pos_is(pv, id@, k as int);
            }
            let list = &ports[k].1;
            let mut out: Vec<String> = Vec::new();
            let mut q: usize = 0;
            while q < list.len()
                invariant
                    q <= list@.len(),
                    out@.map_values(|s: String| s@) == list@.map_values(|p: Port| p.label@).take(q as int),
                decreases list@.len() - q,
            {
                let ghost before = out@;
                let lab = list[q].label.clone();
                out.push(lab);
                assert(out@.map_values(|s: String| s@) =~= before.map_values(|s: String| s@).push(lab@));
                assert(list@.map_values(|p: Port| p.label@).take(q + 1) =~= list@.map_values(|p: Port| p.label@).take(
                    q as int,
                ).push(list@[q as int].label@));
                q += 1;
            }
            assert(list@.map_values(|p: Port| p.label@).take(list@.len() as int) == list@.map_values(
                |p: Port| p.label@,
            ));
            assert(pv[k as int].1 == list@.map_values(|p: Port| p.label@));
            return out;
        }
        k += 1;
    }
    proof {
        lemma_key_pos(pv, id@);
    }
    let out: Vec<String> = Vec::new();
    assert(out@.map_values(|s: String| s@) =~= Seq::<Seq<char>>::empty());
    out
}

/// Link every port of each chip to the equally labelled ports of the chips
/// after it.
pub fn auto_link(links: &mut LinkGraph, chips: &Vec<(String, Tier)>, ports: &Vec<(String, Vec<Port>)>)
    requires
        old(links).wf(),
    ensures
        final(links).wf(),
        final(links)@ == auto_linked(old(links)@, chip_ids(chips@), ports_view(ports@)),
{
    let ghost ids = chip_ids(chips@);
    let ghost pv = ports_view(ports@);
    let ghost l0 = links@;
    let n = chips.len();
    let ghost mut done: Seq<(PortKey, PortKey)> = Seq::empty();
    let mut i: usize = 0;
    while i < n
        invariant
            i <= n,
            n == chips@.len(),
            ids == chip_ids(chips@),
            pv == ports_view(ports@),
            links.wf(),
            done == all_links(ids, pv, i as int),
            links@ == put_all(l0, done),
        decreases n - i,
    {
        let ghost before_i = done;
        let la = port_labels(ports, &chips[i].0);
        let ghost la_v = la@.map_values(|s: String| s@);
        assert(ids[i as int] == chips@[i as int].0@);
        let mut j: usize = i + 1;
        assert(chip_links(ids, pv, i as int, j as int) == Seq::<(PortKey, PortKey)>::empty());
        assert(done =~= before_i + chip_links(ids, pv, i as int, j as int));
        while j < n
            invariant
                i < j <= n,
                n == chips@.len(),
                ids == chip_ids(chips@),
                pv == ports_view(ports@),
                la_v == la@.map_values(|s: String| s@),
                la_v == labels_of(pv, ids[i as int]),
                links.wf(),
                before_i == all_links(ids, pv, i as int),
                done == before_i + chip_links(ids, pv, i as int, j as int),
                links@ == put_all(l0, done),
            decreases n - j,
        {
            let ghost before_j = done;
            let lb = port_labels(ports, &chips[j].0);
            let ghost lb_v = lb@.map_values(|s: String| s@);
            assert(ids[j as int] == chips@[j as int].0@);
            let mut p: usize = 0;
            assert(la_v.take(0) == Seq::<Seq<char>>::empty());
            assert(done =~= before_j + pair_links(ids[i as int], la_v.take(0), ids[j as int], lb_v));
            while p < la.len()
                invariant
                    p <= la@.len(),
                    i < j < n,
                    n == chips@.len(),
                    ids == chip_ids(chips@),
                    la_v == la@.map_values(|s: String| s@),
                    lb_v == lb@.map_values(|s: String| s@),
                    ids[i as int] == chips@[i as int].0@,
                    ids[j as int] == chips@[j as int].0@,
                    links.wf(),
                    done == before_j + pair_links(ids[i as int], la_v.take(p as int), ids[j as int], lb_v),
                    links@ == put_all(l0, done),
                decreases la@.len() - p,
            {
                let ghost before_p = done;
                let mut q: usize = 0;
                assert(lb_v.take(0) == Seq::<Seq<char>>::empty());
                assert(done =~= before_p + match_links(ids[i as int], la_v[p as int], ids[j as int], lb_v.take(0)));
                while q < lb.len()
                    invariant
                        q <= lb@.len(),
                        p < la@.len(),
                        i < j < n,
                        n == chips@.len(),
                        la_v == la@.map_values(|s: String| s@),
                        lb_v == lb@.map_values(|s: String| s@),
                        ids[i as int] == chips@[i as int].0@,
                        ids[j as int] == chips@[j as int].0@,
                        links.wf(),
                        done == before_p + match_links(ids[i as int], la_v[p as int], ids[j as int], lb_v.take(q as int)),
                        links@ == put_all(l0, done),
                    decreases lb@.len() - q,
                {
                    let ghost mq = match_links(ids[i as int], la_v[p as int], ids[j as int], lb_v.take(q as int));
                    assert(lb_v.take(q + 1).drop_last() == lb_v.take(q as int));
                    assert(lb_v.take(q + 1).last() == lb@[q as int]@);
                    assert(la_v[p as int] == la@[p as int]@);
                    if str_eq(la[p].as_str(), lb[q].as_str()) {
                        let from = (chips[i].0.clone(), la[p].clone());
                        let to = (chips[j].0.clone(), lb[q].clone());
                        let ghost x = ((from.0@, from.1@), (to.0@, to.1@));
                        links.insert(from, to);
                        proof {
                            assert(x == ((ids[i as int], la_v[p as int]), (ids[j as int], lb_v.take(q + 1).last())));
                            assert(done.push(x).drop_last() == done);
                            done = done.push(x);
                            assert(done =~= before_p + match_links(
                                ids[i as int],
                                la_v[p as int],
                                ids[j as int],
                                lb_v.take(q + 1),
                            ));
                        }
                    } else {
                        assert(done =~= before_p + match_links(
                            ids[i as int],
                            la_v[p as int],
                            ids[j as int],
                            lb_v.take(q + 1),
                        ));
                    }
                    q += 1;
                }
                proof {
                    assert(lb_v.take(lb@.len() as int) == lb_v);
                    assert(la_v.take(p + 1).drop_last() == la_v.take(p as int));
                    assert(la_v.take(p + 1).last() == la_v[p as int]);
                    assert(done =~= before_j + pair_links(ids[i as int], la_v.take(p + 1), ids[j as int], lb_v));
                }
                p += 1;
            }
            proof {
                assert(la_v.take(la@.len() as int) == la_v);
                assert(lb_v == labels_of(pv, ids[j as int]));
                assert(done =~= before_i + chip_links(ids, pv, i as int, j + 1));
            }
            j += 1;
        }
        proof {
            assert(done =~= all_links(ids, pv, i + 1));
        }
        i += 1;
    }
}

// ── The editor state machine ──────────────────────────────────────────────────

/// The editor's state as values.
pub open spec fn ui_view(u: &AluUi) -> (Option<(i32, i32, i32)>, Option<PortKey>, bool) {
    (u.alu_pos, sel_view(u.selected), u.show_selector)
}

/// What a click on the element labelled `label` does to the editor state
/// `u0`, the links `links0` and the modes `modes0` of the chips `chips` with
/// ports `ports`: `u1`, `links1` and `modes1` after, and the request `r`.
pub open spec fn hit_done(
    u0: AluUi,
    u1: AluUi,
    links0: Seq<(PortKey, PortKey)>,
    links1: Seq<(PortKey, PortKey)>,
    modes0: Seq<(Seq<char>, Seq<char>)>,
    modes1: Seq<(Seq<char>, Seq<char>)>,
    chips: Seq<(String, Tier)>,
    ports: Seq<(String, Vec<Port>)>,
    label: Seq<char>,
    r: AluUiRequest,
) -> bool {
    let pos = pos_or_origin(u0.alu_pos);
    let l = label;
    let sel0 = sel_view(u0.selected);
    let sel1 = sel_view(u1.selected);
    if l == "cancel_selector"@ {
        &&& ui_view(&u1) == (u0.alu_pos, sel0, false)
        &&& links1 == links0 && modes1 == modes0
        &&& r is Nothing
    } else if after_prefix(l, "select_chip:"@) is Some {
        &&& ui_view(&u1) == (u0.alu_pos, sel0, false)
        &&& links1 == links0 && modes1 == modes0
        &&& r matches AluUiRequest::Install { slot, pos: p } && slot@ == after_prefix(
            l,
            "select_chip:"@,
        )->0 && p == pos
    } else if l == "close"@ {
        &&& ui_view(&u1) == (None::<(i32, i32, i32)>, None::<PortKey>, false)
        &&& links1 == links0 && modes1 == modes0
        &&& r is Nothing
    } else if l == "add_chip"@ {
        &&& ui_view(&u1) == ui_view(&u0)
        &&& links1 == links0 && modes1 == modes0
        &&& r is RequestChipList
    } else if l == "auto_link"@ {
        &&& ui_view(&u1) == ui_view(&u0)
        &&& links1 == auto_linked(links0, chip_ids(chips), ports_view(ports))
        &&& modes1 == modes0
        &&& r is Nothing
    } else if l == "save_links"@ {
        &&& ui_view(&u1) == ui_view(&u0)
        &&& links1 == links0 && modes1 == modes0
        &&& r is SaveLinks
    } else if after_prefix(l, "pin:"@) is Some {
        let rest = after_prefix(l, "pin:"@)->0;
        &&& u1.alu_pos == u0.alu_pos
        &&& u1.show_selector == u0.show_selector
        &&& modes1 == modes0
        &&& r is Nothing
        &&& match first_index(rest, ':') {
            Some(i) => (sel1, links1) == pick(
                sel0,
                links0,
                (rest.take(i), rest.skip(i + 1)),
            ),
            None => sel1 == sel0 && links1 == links0,
        }
    } else if after_prefix(l, "alu_pin:"@) is Some {
        let side = after_prefix(l, "alu_pin:"@)->0;
        &&& u1.alu_pos == u0.alu_pos
        &&& u1.show_selector == u0.show_selector
        &&& modes1 == modes0
        &&& r is Nothing
        &&& (sel1, links1) == pick(
            sel0,
            links0,
            (ext_id_text(pos.0 as int, pos.1 as int, pos.2 as int), side),
        )
    } else if after_prefix(l, "alu_mode:"@) is Some {
        let key = mode_key(pos, after_prefix(l, "alu_mode:"@)->0);
        &&& ui_view(&u1) == ui_view(&u0)
        &&& links1 == links0
        &&& modes1 == map_put(modes0, key, next_mode(mode_or_input(modes0, key)))
        &&& r is Nothing
    } else {
        &&& ui_view(&u1) == ui_view(&u0)
        &&& links1 == links0 && modes1 == modes0
        &&& r is Nothing
    }
}

impl AluUi {
    /// No ALU shown, nothing picked, the editor showing.
    pub fn new() -> (u: AluUi)
        ensures
            ui_view(&u) == (None::<(i32, i32, i32)>, None::<PortKey>, false),
    {
        AluUi { alu_pos: None, selected: None, show_selector: false }
    }

    /// Show the ALU at `pos`.
    pub fn set_alu_pos(&mut self, pos: (i32, i32, i32))
        ensures
            final(self).alu_pos == Some(pos),
            sel_view(final(self).selected) == sel_view(old(self).selected),
            final(self).show_selector == old(self).show_selector,
    {
        self.alu_pos = Some(pos);
    }

    /// Close the editor: no ALU, nothing picked, the selector hidden.
    pub fn clear(&mut self)
        ensures
            ui_view(final(self)) == (None::<(i32, i32, i32)>, None::<PortKey>, false),
    {
        self.alu_pos = None;
        self.selected = None;
        self.show_selector = false;
    }

    /// Pick the port (chip id, label): see `pick`.
    pub fn select_pin(&mut self, links: &mut LinkGraph, chip_id: String, port_label: String)
        requires
            old(links).wf(),
        ensures
            final(links).wf(),
            (sel_view(final(self).selected), final(links)@) == pick(
                sel_view(old(self).selected),
                old(links)@,
                (chip_id@, port_label@),
            ),
            final(self).alu_pos == old(self).alu_pos,
            final(self).show_selector == old(self).show_selector,
    {
        match self.selected.take() {
            None => {
                self.selected = Some((chip_id, port_label));
            },
            Some(src) => {
                links.insert(src, (chip_id, port_label));
                self.selected = None;
            },
        }
    }

    /// What a click on the editor element labelled `label` does.
    pub fn handle_hit(
        &mut self,
        label: &str,
        links: &mut LinkGraph,
        modes: &mut IoModes,
        chips: &Vec<(String, Tier)>,
        ports: &Vec<(String, Vec<Port>)>,
    ) -> (r: AluUiRequest)
        requires
            old(links).wf(),
            old(modes).wf(),
        ensures
            final(links).wf(),
            final(modes).wf(),
            hit_done(
                *old(self),
                *final(self),
                old(links)@,
                final(links)@,
                old(modes)@,
                final(modes)@,
                chips@,
                ports@,
                label@,
                r,
            ),
    {
        let pos = match self.alu_pos {
            Some(p) => p,
            None => (0, 0, 0),
        };
        if str_eq(label, "cancel_selector") {
            self.show_selector = false;
            return AluUiRequest::Nothing;
        }
        if let Some(slot) = strip_prefix(label, "select_chip:") {
            self.show_selector = false;
            return AluUiRequest::Install { slot, pos };
        }
        if str_eq(label, "close") {
            self.clear();
            AluUiRequest::Nothing
        } else if str_eq(label, "add_chip") {
            AluUiRequest::RequestChipList
        } else if str_eq(label, "auto_link") {
            auto_link(links, chips, ports);
            AluUiRequest::Nothing
        } else if str_eq(label, "save_links") {
            AluUiRequest::SaveLinks
        } else if let Some(rest) = strip_prefix(label, "pin:") {
            let v = chars_of(rest.as_str());
            match first_index_exec(&v, 0, ':') {
                Some(i) => {
                    proof {
                        lemma_first_index_bounds(v@, ':');
                        assert(v@.skip(0) == v@);
                    }
                    let chip_id = sub_string(&v, 0, i);
                    let port_label = sub_string(&v, i + 1, v.len());
                    proof {
                        assert(v@.subrange(0, i as int) == v@.take(i as int));
                        assert(v@.subrange(i + 1, v@.len() as int) == v@.skip(i + 1));
                    }
                    self.select_pin(links, chip_id, port_label);
                },
                None => {
                    assert(v@.skip(0) == v@);
                },
            }
            AluUiRequest::Nothing
        } else if let Some(side) = strip_prefix(label, "alu_pin:") {
            let ext = ext_chip_id(pos);
            self.select_pin(links, ext, side);
            AluUiRequest::Nothing
        } else if let Some(side) = strip_prefix(label, "alu_mode:") {
            let mut key = ext_chip_id(pos);
            key.push(':');
            key.append(side.as_str());
            assert(key@ == mode_key(pos, side@));
            let current = modes.mode_of(key.as_str());
            let next = next_mode_of(current.as_str());
            modes.insert(key, String::from_str(next));
            AluUiRequest::Nothing
        } else {
            AluUiRequest::Nothing
        }
    }

    /// What an event from the editor screen does: `close` closes it; a click
    /// that hit an element labelled `hit` acts as `handle_hit`; anything else
    /// does nothing.
    pub fn handle_click(
        &mut self,
        event: &str,
        hit: Option<&str>,
        links: &mut LinkGraph,
        modes: &mut IoModes,
        chips: &Vec<(String, Tier)>,
        ports: &Vec<(String, Vec<Port>)>,
    ) -> (r: AluUiRequest)
        requires
            old(links).wf(),
            old(modes).wf(),
        ensures
            final(links).wf(),
            final(modes).wf(),
            event@ == "close"@ ==> ui_view(final(self)) == (None::<(i32, i32, i32)>, None::<PortKey>, false)
                && final(links)@ == old(links)@ && final(modes)@ == old(modes)@ && r is Nothing,
            event@ != "close"@ && !(after_prefix(event@, "click:"@) is Some && hit is Some) ==> ui_view(
                final(self),
            ) == ui_view(old(self)) && final(links)@ == old(links)@ && final(modes)@ == old(modes)@
                && r is Nothing,
            event@ != "close"@ && after_prefix(event@, "click:"@) is Some ==> match hit {
                Some(h) => hit_done(
                    *old(self),
                    *final(self),
                    old(links)@,
                    final(links)@,
                    old(modes)@,
                    final(modes)@,
                    chips@,
                    ports@,
                    h@,
                    r,
                ),
                None => true,
            },
    {
        if str_eq(event, "close") {
            self.clear();
            return AluUiRequest::Nothing;
        }
        if let Some(_rest) = strip_prefix(event, "click:") {
            if let Some(action) = hit {
                return self.handle_hit(action, links, modes, chips, ports);
            }
        }
        AluUiRequest::Nothing
    }
}

/// Picking a source and then a destination links them and clears the pick.
pub proof fn lemma_pick_twice(links: Seq<(PortKey, PortKey)>, a: PortKey, b: PortKey)
    ensures
        ({
            let first = pick(None, links, a);
            let second = pick(first.0, first.1, b);
            &&& second.0 is None
            &&& map_get(second.1, a) == Some(b)
        }),
{
    crate::alu::lemma_map_put_get(links, a, b, a);
}


// ── The chip selector's list ──────────────────────────────────────────────────

/// `l` without one trailing carriage return.
pub open spec fn strip_cr(l: Seq<char>) -> Seq<char> {
    if l.len() > 0 && l.last() == '\r' {
        l.drop_last()
    } else {
        l
    }
}

/// The lines of `t` as `str::lines` gives them: split at line feeds, a
/// carriage return before a line feed dropped, no empty last line.
pub open spec fn lines_of(t: Seq<char>) -> Seq<Seq<char>> {
    let p = pieces_at(t, '\n');
    let init = p.drop_last().map_values(|l: Seq<char>| strip_cr(l));
    if p.len() == 0 || p.last().len() == 0 {
        init
    } else {
        init.push(p.last())
    }
}

/// A line of the chip list: `<slot>\t<tier>[\t<name>]`, the name `chip`
/// when missing; `None` when the slot does not parse or the tier is missing.
pub open spec fn chip_entry(line: Seq<char>) -> Option<(u32, Seq<char>, Seq<char>)> {
    let f = pieces_at(line, '\t');
    match parse_int(f[0], 0, u32::MAX as int, false) {
        None => None,
        Some(slot) => if f.len() < 2 {
            None
        } else {
            Some((slot as u32, f[1], if f.len() >= 3 {
                f[2]
            } else {
                "chip"@
            }))
        },
    }
}

/// The entries of the lines that hold one, in order.
pub open spec fn chip_entries(lines: Seq<Seq<char>>) -> Seq<(u32, Seq<char>, Seq<char>)>
    decreases lines.len(),
{
    if lines.len() == 0 {
        Seq::empty()
    } else {
        let prev = chip_entries(lines.drop_last());
        match chip_entry(lines.last()) {
            Some(e) => prev.push(e),
            None => prev,
        }
    }
}

/// The chip list entries as values.
pub open spec fn entries_view(v: Seq<(u32, String, String)>) -> Seq<(u32, Seq<char>, Seq<char>)> {
    v.map_values(|e: (u32, String, String)| (e.0, e.1@, e.2@))
}

proof fn lemma_pieces_nonempty(t: Seq<char>, c: char)
    ensures
        pieces_at(t, c).len() > 0,
    decreases t.len(),
{
    lemma_first_index_bounds(t, c);
    match first_index(t, c) {
        Some(i) => lemma_pieces_nonempty(t.skip(i + 1), c),
        None => {},
    }
}

fn strip_cr_exec(l: &String) -> (r: String)
    ensures
        r@ == strip_cr(l@),
{
    let v = chars_of(l.as_str());
    let n = v.len();
    if n > 0 && v[n - 1] == '\r' {
        let r = sub_string(&v, 0, n - 1);
        assert(v@.subrange(0, n - 1) == v@.drop_last());
        r
    } else {
        l.clone()
    }
}

fn chip_entry_exec(line: &String) -> (r: Option<(u32, String, String)>)
    ensures
        match chip_entry(line@) {
            Some(e) => r matches Some(x) && (x.0, x.1@, x.2@) == e,
            None => r is None,
        },
{
    let f = split_at_char(line.as_str(), '\t');
    proof {
        lemma_pieces_nonempty(line@, '\t');
    }
    let ghost fv = f@.map_values(|s: String| s@);
    assert(fv[0] == f@[0]@);
    let slot = match parse_unsigned(f[0].as_str(), 0xffff_ffff) {
        Some(v) => v as u32,
        None => return None,
    };
    if f.len() < 2 {
        return None;
    }
    assert(fv[1] == f@[1]@);
    let tier = f[1].clone();
    let name = if f.len() >= 3 {
        assert(fv[2] == f@[2]@);
        f[2].clone()
    } else {
        String::from_str("chip")
    };
    Some((slot, tier, name))
}

/// The chips the server lists for the selector, one per line.
pub fn parse_chip_list(text: &str) -> (r: Vec<(u32, String, String)>)
    ensures
        entries_view(r@) == chip_entries(lines_of(text@)),
{
    let p = split_at_char(text, '\n');
    let ghost pv = p@.map_values(|s: String| s@);
    proof {
        lemma_pieces_nonempty(text@, '\n');
    }
    let ghost lines = lines_of(text@);
    let n = p.len();
    let mut out: Vec<(u32, String, String)> = Vec::new();
    let mut i: usize = 0;
    assert(lines.take(0) == Seq::<Seq<char>>::empty());
    while i + 1 < n
        invariant
            i + 1 <= n,
            n == p@.len(),
            pv == p@.map_values(|s: String| s@),
            pv == pieces_at(text@, '\n'),
            lines == lines_of(text@),
            entries_view(out@) == chip_entries(lines.take(i as int)),
        decreases n - i,
    {
        let line = strip_cr_exec(&p[i]);
        proof {
            assert(pv[i as int] == p@[i as int]@);
            assert(lines[i as int] == strip_cr(pv[i as int]));
            assert(lines.take(i + 1).drop_last() == lines.take(i as int));
            assert(lines.take(i + 1).last() == line@);
        }
        let ghost before = entries_view(out@);
        match chip_entry_exec(&line) {
            Some(e) => {
                out.push(e);
                assert(entries_view(out@) =~= before.push((e.0, e.1@, e.2@)));
            },
            None => {},
        }
        i += 1;
    }
    let last = &p[n - 1];
    assert(pv[n - 1] == last@);
    if last.as_str().unicode_len() > 0 {
        proof {
            assert(lines.len() == n);
            assert(lines.take(n - 1).push(last@) =~= lines);
            assert(lines.drop_last() == lines.take(n - 1));
        }
        let ghost before = entries_view(out@);
        match chip_entry_exec(last) {
            Some(e) => {
                out.push(e);
                assert(entries_view(out@) =~= before.push((e.0, e.1@, e.2@)));
            },
            None => {},
        }
    } else {
        assert(lines.take(n - 1) =~= lines);
    }
    out
}
} // verus!
