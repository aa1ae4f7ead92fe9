//! The stand-alone workbench screen: design library, resources and
//! fabrication. Its state, what a click or a scroll does, and the colour
//! and short name under which a resource is shown.

use vstd::prelude::*;

use crate::designs::{index_view, position_of_name, DesignMeta};
use crate::text::{after_prefix, chars_of, str_eq, strip_prefix, sub_string};
use crate::workbench_inv_ui::{click_row, name_view, row_clicked, scroll_by, scrolled, tier_of_named, WorkbenchRequest};
use vstd::string::{StrSliceExecFns, StringSliceAdditionalSpecFns};

verus! {

broadcast use vstd::string::group_string_axioms;

/// The workbench screen's state.
pub struct WorkbenchUi {
    /// Scroll offset of the design list, in rows.
    pub scroll: usize,
    /// The selected design's name.
    pub selected: Option<String>,
    /// Game directory and name of the player the screen is for.
    pub player: (String, String),
    /// Whether the screen is open.
    pub active: bool,
}

impl WorkbenchUi {
    /// A closed screen for nobody.
    pub fn new() -> (u: WorkbenchUi)
        ensures
            u.scroll == 0,
            name_view(u.selected) is None,
            u.player.0@ == Seq::<char>::empty() && u.player.1@ == Seq::<char>::empty(),
            !u.active,
    {
        WorkbenchUi { scroll: 0, selected: None, player: (String::new(), String::new()), active: false }
    }

    /// Open the screen for `player_name`, whose designs live under `game_dir`.
    pub fn set_player(&mut self, game_dir: &str, player_name: &str)
        ensures
            final(self).player.0@ == game_dir@,
            final(self).player.1@ == player_name@,
            final(self).active,
            final(self).scroll == old(self).scroll,
            name_view(final(self).selected) == name_view(old(self).selected),
    {
        self.player = (String::from_str(game_dir), String::from_str(player_name));
        self.active = true;
    }

    /// Mark the screen closed.
    pub fn clear(&mut self)
        ensures
            !final(self).active,
            final(self).player.0@ == old(self).player.0@,
            final(self).player.1@ == old(self).player.1@,
            final(self).scroll == old(self).scroll,
            name_view(final(self).selected) == name_view(old(self).selected),
    {
        self.active = false;
    }

    /// What an event on the screen does: `close` (as an event or a clicked
    /// element) closes it; a design row toggles its design; a button asks
    /// for its action on the selected design; a scroll moves the list one
    /// row. Nothing else happens while the screen is for nobody.
    pub fn handle_click(&mut self, event: &str, hit: Option<&str>, dy: i8, designs: &Vec<DesignMeta>) -> (r: WorkbenchRequest)
        requires
            old(self).scroll < usize::MAX,
        ensures
            final(self).player.0@ == old(self).player.0@,
            final(self).player.1@ == old(self).player.1@,
            ({
                let sel0 = name_view(old(self).selected);
                let sel1 = name_view(final(self).selected);
                let dv = index_view(designs@);
                if event@ == "close"@ {
                    !final(self).active && sel1 == sel0 && final(self).scroll == old(self).scroll && r is Nothing
                } else if old(self).player.1@.len() == 0 {
                    final(self).active == old(self).active && sel1 == sel0 && final(self).scroll == old(self).scroll
                        && r is Nothing
                } else if after_prefix(event@, "click:"@) is Some {
                    &&& final(self).scroll == old(self).scroll
                    &&& match hit {
                        None => final(self).active == old(self).active && sel1 == sel0 && r is Nothing,
                        Some(a) => if a@ == "close"@ {
                            !final(self).active && sel1 == sel0 && r is Nothing
                        } else if after_prefix(a@, "design_row:"@) is Some {
                            final(self).active == old(self).active && sel1 == row_clicked(
                                sel0,
                                after_prefix(a@, "design_row:"@)->0,
                                dv,
                            ) && r is Nothing
                        } else if a@ == "btn:Design"@ {
                            final(self).active == old(self).active && sel1 == sel0 && match sel0 {
                                Some(n) => r matches WorkbenchRequest::Edit { name } && name@ == n,
                                None => r matches WorkbenchRequest::Hint { message } && message@
                                    == "§eSelect a design first, or run /vlsi design <name> <tier>."@,
                            }
                        } else if a@ == "btn:Fabricate"@ {
                            final(self).active == old(self).active && sel1 == sel0 && match sel0 {
                                Some(n) => match position_of_name(dv, n) {
                                    Some(i) => r matches WorkbenchRequest::Fabricate { name, tier_id }
                                        && name@ == n && tier_id@ == dv[i].2.spec_id(),
                                    None => r is Nothing,
                                },
                                None => r is Nothing,
                            }
                        } else if a@ == "btn:Export BP"@ {
                            final(self).active == old(self).active && sel1 == sel0 && match sel0 {
                                Some(n) => r matches WorkbenchRequest::ExportBp { name } && name@ == n,
                                None => r is Nothing,
                            }
                        } else if a@ == "btn:Import BP"@ {
                            &&& final(self).active == old(self).active
                            &&& sel1 == sel0
                            &&& r matches WorkbenchRequest::Hint { message } && message@
                                == "§eHold a filled Blueprint and right-click any VLSI Workbench to import it."@
                        } else {
                            final(self).active == old(self).active && sel1 == sel0 && r is Nothing
                        },
                    }
                } else if after_prefix(event@, "scroll:"@) is Some {
                    final(self).active == old(self).active && sel1 == sel0 && final(self).scroll == scrolled(
                        old(self).scroll,
                        dy,
                    ) && r is Nothing
                } else {
                    final(self).active == old(self).active && sel1 == sel0 && final(self).scroll == old(self).scroll
                        && r is Nothing
                }
            }),
    {
        if str_eq(event, "close") {
            self.clear();
            return WorkbenchRequest::Nothing;
        }
        if self.player.1.as_str().unicode_len() == 0 {
            return WorkbenchRequest::Nothing;
        }
        if let Some(_rest) = strip_prefix(event, "click:") {
            let action = match hit {
                Some(a) => a,
                None => return WorkbenchRequest::Nothing,
            };
            if str_eq(action, "close") {
                self.clear();
                return WorkbenchRequest::Nothing;
            }
            if let Some(idx) = strip_prefix(action, "design_row:") {
                click_row(&mut self.selected, idx.as_str(), designs);
                return WorkbenchRequest::Nothing;
            }
            if str_eq(action, "btn:Design") {
                return match &self.selected {
                    Some(sel) => WorkbenchRequest::Edit { name: sel.clone() },
                    None => WorkbenchRequest::Hint {
                        message: "§eSelect a design first, or run /vlsi design <name> <tier>.",
                    },
                };
            } else if str_eq(action, "btn:Fabricate") {
                return match &self.selected {
                    Some(sel) => match tier_of_named(designs, sel.as_str()) {
                        Some(t) => WorkbenchRequest::Fabricate { name: sel.clone(), tier_id: t },
                        None => WorkbenchRequest::Nothing,
                    },
                    None => WorkbenchRequest::Nothing,
                };
            } else if str_eq(action, "btn:Export BP") {
                return match &self.selected {
                    Some(sel) => WorkbenchRequest::ExportBp { name: sel.clone() },
                    None => WorkbenchRequest::Nothing,
                };
            } else if str_eq(action, "btn:Import BP") {
                return WorkbenchRequest::Hint {
                    message: "§eHold a filled Blueprint and right-click any VLSI Workbench to import it.",
                };
            }
            return WorkbenchRequest::Nothing;
        }
        if let Some(_rest) = strip_prefix(event, "scroll:") {
            self.scroll = scroll_by(self.scroll, dy);
        }
        WorkbenchRequest::Nothing
    }
}

// ── Resource display ──────────────────────────────────────────────────────────

/// 32-bit FNV-1a hash of `bytes`.
pub open spec fn fnv1a(bytes: Seq<u8>) -> u32
    decreases bytes.len(),
{
    if bytes.len() == 0 {
        2166136261u32
    } else {
        (((fnv1a(bytes.drop_last()) ^ (bytes.last() as u32)) as nat * 16777619nat) % 0x1_0000_0000nat) as u32
    }
}

/// The colour shown for a hash: each of red, green and blue is 90 plus
/// seven bits of the hash, fully opaque.
pub open spec fn color_of_hash(h: u32) -> u32 {
    let r = 90 + (h & 0x7F);
    let g = 90 + ((h >> 8u32) & 0x7F);
    let b = 90 + ((h >> 16u32) & 0x7F);
    (0xFF00_0000u32 | ((r as u32) << 16u32) | ((g as u32) << 8u32) | (b as u32)) as u32
}

/// A stable colour for a resource, from the FNV-1a hash of its id's UTF-8 bytes.
pub fn color_for(name: &str) -> (c: u32)
    ensures
        c == color_of_hash(fnv1a(name.spec_bytes())),
{
    let bytes = name.as_bytes();
    let mut h: u32 = 2166136261;
    let mut i: usize = 0;
    while i < bytes.len()
        invariant
            i <= bytes@.len(),
            bytes@ == name.spec_bytes(),
            h == fnv1a(bytes@.take(i as int)),
        decreases bytes@.len() - i,
    {
        assert(bytes@.take(i + 1).drop_last() == bytes@.take(i as int));
        assert(bytes@.take(i + 1).last() == bytes@[i as int]);
        h ^= bytes[i] as u32;
        h = h.wrapping_mul(16777619);
        i += 1;
    }
    assert(bytes@.take(bytes@.len() as int) == bytes@);
    let hm = h & 0x7F;
    let gm = (h >> 8) & 0x7F;
    let bm = (h >> 16) & 0x7F;
    assert(hm <= 0x7F) by (bit_vector)
        requires
            hm == h & 0x7F,
    ;
    assert(gm <= 0x7F) by (bit_vector)
        requires
            gm == (h >> 8) & 0x7F,
    ;
    assert(bm <= 0x7F) by (bit_vector)
        requires
            bm == (h >> 16) & 0x7F,
    ;
    let r = 90 + hm;
    let g = 90 + gm;
    let b = 90 + bm;
    0xFF00_0000u32 | (r << 16) | (g << 8) | b
}

/// The text after the last `c` in `s`; all of `s` when it holds none.
pub open spec fn after_last(s: Seq<char>, c: char) -> Seq<char>
    decreases s.len(),
{
    if s.len() == 0 {
        s
    } else if s.last() == c {
        Seq::empty()
    } else {
        after_last(s.drop_last(), c).push(s.last())
    }
}

/// A resource id without its namespace: the text after its last colon.
pub fn short_name(item: &str) -> (r: String)
    ensures
        r@ == after_last(item@, ':'),
{
    let v = chars_of(item);
    let n = v.len();
    let mut start: usize = 0;
    let mut i: usize = 0;
    while i < n
        invariant
            i <= n,
            start <= i,
            n == v@.len(),
            v@.subrange(start as int, i as int) == after_last(v@.take(i as int), ':'),
        decreases n - i,
    {
        assert(v@.take(i + 1).drop_last() == v@.take(i as int));
        assert(v@.take(i + 1).last() == v@[i as int]);
        if v[i] == ':' {
            start = i + 1;
        } else {
            assert(v@.subrange(start as int, i + 1) == v@.subrange(start as int, i as int).push(v@[i as int]));
        }
        i += 1;
    }
    assert(v@.take(n as int) == v@);
    sub_string(&v, start, n)
}

} // verus!
