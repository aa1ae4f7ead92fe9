//! Workbench screen state over the native inventory: the scroll offset of
//! the design list, the selected design and whose designs are shown; and
//! what a click or a scroll on the screen does. Drawing the screen,
//! hit-testing clicks and sending the requests is the application's part.

use vstd::prelude::*;

use crate::designs::{index_view, position_of_name, DesignMeta, MetaView};
use crate::text::{after_prefix, parse_index, parse_int, str_eq, strip_prefix};
use crate::vm::Tier;
use vstd::string::StrSliceExecFns;

verus! {

broadcast use vstd::string::group_string_axioms;

/// What a workbench screen asks the application to do.
#[derive(Debug)]
pub enum WorkbenchRequest {
    /// Nothing to do.
    Nothing,
    /// Ask the server to open the editor on the design `name`, with the
    /// player's last known position.
    Edit { name: String },
    /// Ask the server to fabricate the design `name` at the tier `tier_id`.
    Fabricate { name: String, tier_id: &'static str },
    /// Ask the server to export the design `name` to a blueprint.
    ExportBp { name: String },
    /// Show the player `message`.
    Hint { message: &'static str },
}

/// An optional name as text.
pub open spec fn name_view(o: Option<String>) -> Option<Seq<char>> {
    match o {
        Some(s) => Some(s@),
        None => None,
    }
}

/// Selecting the design named `name`: selecting the selected design again
/// clears the selection.
pub open spec fn toggled(sel: Option<Seq<char>>, name: Seq<char>) -> Option<Seq<char>> {
    if sel == Some(name) {
        None
    } else {
        Some(name)
    }
}

/// The selection after a click on the design row written `idx`: the row's
/// design toggled when the index names one, else unchanged.
pub open spec fn row_clicked(sel: Option<Seq<char>>, idx: Seq<char>, designs: Seq<MetaView>) -> Option<Seq<char>> {
    if designs.len() > 0 && parse_int(idx, 0, designs.len() - 1, false) is Some {
        toggled(sel, designs[parse_int(idx, 0, designs.len() - 1, false)->0].1)
    } else {
        sel
    }
}

/// The scroll offset after a scroll notch: up (`dy > 0`) one row, stopping
/// at the top; down (`dy < 0`) one row; no move for `dy == 0`.
pub open spec fn scrolled(scroll: usize, dy: i8) -> usize {
    if dy > 0 {
        if scroll > 0 {
            (scroll - 1) as usize
        } else {
            0
        }
    } else if dy < 0 {
        (scroll + 1) as usize
    } else {
        scroll
    }
}

/// Toggle the selection on the design named `name`.
pub fn toggle_selection(selected: &mut Option<String>, name: &String)
    ensures
        name_view(*final(selected)) == toggled(name_view(*old(selected)), name@),
{
    let same = match selected {
        Some(s) => str_eq(s.as_str(), name.as_str()),
        None => false,
    };
    if same {
        *selected = None;
    } else {
        *selected = Some(name.clone());
    }
}

/// Apply a click on the design row written `idx`.
pub fn click_row(selected: &mut Option<String>, idx: &str, designs: &Vec<DesignMeta>)
    ensures
        name_view(*final(selected)) == row_clicked(name_view(*old(selected)), idx@, index_view(designs@)),
{
    match parse_index(idx, designs.len()) {
        Some(i) => {
            assert(index_view(designs@)[i as int].1 == designs@[i as int].name@);
            toggle_selection(selected, &designs[i].name);
        },
        None => {},
    }
}

/// The tier identifier of the first design named `name`.
pub fn tier_of_named(designs: &Vec<DesignMeta>, name: &str) -> (r: Option<&'static str>)
    ensures
        match position_of_name(index_view(designs@), name@) {
            Some(i) => r matches Some(t) && t@ == index_view(designs@)[i].2.spec_id(),
            None => r is None,
        },
{
    match crate::designs::find_design_by_name(designs, name) {
        Some(i) => {
            proof {
                crate::designs::lemma_position_of_name_bounds(index_view(designs@), name@);
            }
            assert(index_view(designs@)[i as int].2 == designs@[i as int].tier);
            Some(designs[i].tier.id())
        },
        None => None,
    }
}

/// The workbench screen's state.
pub struct WorkbenchInvUi {
    /// Scroll offset of the design list, in rows.
    pub scroll: usize,
    /// The selected design's name.
    pub selected: Option<String>,
    /// Game directory and name of the player the screen is for.
    pub player: (String, String),
}

impl WorkbenchInvUi {
    /// A screen for nobody, scrolled to the top, nothing selected.
    pub fn new() -> (u: WorkbenchInvUi)
        ensures
            u.scroll == 0,
            name_view(u.selected) is None,
            u.player.0@ == Seq::<char>::empty() && u.player.1@ == Seq::<char>::empty(),
    {
        WorkbenchInvUi { scroll: 0, selected: None, player: (String::new(), String::new()) }
    }

    /// Show the screen for `player_name`, whose designs live under `game_dir`.
    pub fn set_player_context(&mut self, game_dir: &str, player_name: &str)
        ensures
            final(self).player.0@ == game_dir@,
            final(self).player.1@ == player_name@,
            final(self).scroll == old(self).scroll,
            name_view(final(self).selected) == name_view(old(self).selected),
    {
        self.player = (String::from_str(game_dir), String::from_str(player_name));
    }

    /// What an event on the screen does. `hit` is the label of the element a
    /// click landed on; `dy` the sign of a scroll notch; `designs` the
    /// player's designs. A click on a design row toggles it; a click on a
    /// button asks for its action on the selected design; a scroll moves the
    /// list one row. Nothing happens while the screen is for nobody.
    pub fn handle_click(&mut self, event: &str, hit: Option<&str>, dy: i8, designs: &Vec<DesignMeta>) -> (r: WorkbenchRequest)
        requires
            old(self).scroll < usize::MAX,
        ensures
            final(self).player.0@ == old(self).player.0@,
            final(self).player.1@ == old(self).player.1@,
            ({
                let sel0 = name_view(old(self).selected);
                let sel1 = name_view(final(self).selected);
                let dv = index_view(designs@);
                if old(self).player.1@.len() == 0 {
                    sel1 == sel0 && final(self).scroll == old(self).scroll && r is Nothing
                } else if after_prefix(event@, "click:"@) is Some {
                    &&& final(self).scroll == old(self).scroll
                    &&& match hit {
                        None => sel1 == sel0 && r is Nothing,
                        Some(a) => if after_prefix(a@, "design_row:"@) is Some {
                            sel1 == row_clicked(sel0, after_prefix(a@, "design_row:"@)->0, dv) && r is Nothing
                        } else if a@ == "btn:Design"@ {
                            sel1 == sel0 && match sel0 {
                                Some(n) => r matches WorkbenchRequest::Edit { name } && name@ == n,
                                None => r matches WorkbenchRequest::Hint { message } && message@
                                    == "Select a design first."@,
                            }
                        } else if a@ == "btn:Fabricate"@ {
                            sel1 == sel0 && match sel0 {
                                Some(n) => match position_of_name(dv, n) {
                                    Some(i) => r matches WorkbenchRequest::Fabricate { name, tier_id }
                                        && name@ == n && tier_id@ == dv[i].2.spec_id(),
                                    None => r is Nothing,
                                },
                                None => r is Nothing,
                            }
                        } else if a@ == "btn:Export BP"@ {
                            sel1 == sel0 && match sel0 {
                                Some(n) => r matches WorkbenchRequest::ExportBp { name } && name@ == n,
                                None => r is Nothing,
                            }
                        } else {
                            sel1 == sel0 && r is Nothing
                        },
                    }
                } else if after_prefix(event@, "scroll:"@) is Some {
                    sel1 == sel0 && final(self).scroll == scrolled(old(self).scroll, dy) && r is Nothing
                } else {
                    sel1 == sel0 && final(self).scroll == old(self).scroll && r is Nothing
                }
            }),
    {
        if self.player.1.as_str().unicode_len() == 0 {
            return WorkbenchRequest::Nothing;
        }
        if let Some(_rest) = strip_prefix(event, "click:") {
            let action = match hit {
                Some(a) => a,
                None => return WorkbenchRequest::Nothing,
            };
            if let Some(idx) = strip_prefix(action, "design_row:") {
                click_row(&mut self.selected, idx.as_str(), designs);
                return WorkbenchRequest::Nothing;
            }
            if str_eq(action, "btn:Design") {
                return match &self.selected {
                    Some(sel) => WorkbenchRequest::Edit { name: sel.clone() },
                    None => WorkbenchRequest::Hint { message: "Select a design first." },
                };
            } else if str_eq(action, "btn:Fabricate") {
                return match &self.selected {
                    Some(sel) => match tier_of_named(designs, sel.as_str()) {
                        Some(t) => WorkbenchRequest::Fabricate { name: sel.clone(), tier_id: t },
                        None => WorkbenchRequest::Nothing,
                    },
                    None => WorkbenchRequest::Nothing,
                };
            } else if str_eq(action, "btn:Export BP") {
                return match &self.selected {
                    Some(sel) => WorkbenchRequest::ExportBp { name: sel.clone() },
                    None => WorkbenchRequest::Nothing,
                };
            }
            return WorkbenchRequest::Nothing;
        }
        if let Some(_rest) = strip_prefix(event, "scroll:") {
            self.scroll = scroll_by(self.scroll, dy);
        }
        WorkbenchRequest::Nothing
    }
}

/// One scroll notch applied to the offset `scroll`.
pub fn scroll_by(scroll: usize, dy: i8) -> (r: usize)
    requires
        scroll < usize::MAX,
    ensures
        r == scrolled(scroll, dy),
{
    if dy > 0 {
        scroll.saturating_sub(1)
    } else if dy < 0 {
        scroll + 1
    } else {
        scroll
    }
}

} // verus!
