//! Selection of the next focus target and the next layout.
//!
//! Every operation works on a snapshot handed in by the caller and returns
//! the identifier (or layout) to act on; an empty result set is a
//! successful no-op, never an error. Window traversal filters out the
//! invisible windows, arranges the rest canonically (see `order`), and
//! steps one position forward from the currently focused entry, wrapping
//! from the last back to the first. Display traversal applies the same
//! wraparound step to the display list exactly as reported, without
//! re-sorting.

use vstd::prelude::*;

use crate::order::{sorted_windows, reversed_windows, win_order};
use crate::schema::{Display, SpaceType, Window};

verus! {

/// The filter that window traversal applies: only visible windows are
/// focus candidates.
pub open spec fn visible_pred() -> spec_fn(Window) -> bool {
    |w: Window| w.is_visible
}

/// The visible windows of a snapshot, in unchanged relative order.
pub open spec fn visible_windows(s: Seq<Window>) -> Seq<Window> {
    s.filter(visible_pred())
}

/// Index of the first window that holds focus, or `s.len()` if none does.
pub open spec fn first_focus_index(s: Seq<Window>) -> int
    decreases s.len(),
{
    if s.len() == 0 {
        0
    } else if s.first().has_focus {
        0
    } else {
        1 + first_focus_index(s.drop_first())
    }
}

/// The position traversal starts from: the focused window, or the first
/// window when none holds focus.
pub open spec fn focus_start(s: Seq<Window>) -> int {
    if first_focus_index(s) < s.len() {
        first_focus_index(s)
    } else {
        0
    }
}

/// The focus target for an already arranged sequence: one step past the
/// start position among the visible windows, wrapping around; `None` when
/// no window is visible.
pub open spec fn next_in_cycle(s: Seq<Window>) -> Option<u32> {
    let v = visible_windows(s);
    if v.len() == 0 {
        None
    } else {
        Some(v[(focus_start(v) + 1) % (v.len() as int)].id)
    }
}

/// The focus target for a raw snapshot: the windows are arranged
/// canonically (reversed for backward traversal), then stepped through by
/// `next_in_cycle`.
pub open spec fn next_window(wins: Seq<Window>, forward: bool) -> Option<u32> {
    let ordered = wins.sort_by(win_order());
    if forward {
        next_in_cycle(ordered)
    } else {
        next_in_cycle(ordered.reverse())
    }
}

/// Index of the first display that holds focus, or `s.len()` if none does.
pub open spec fn first_display_focus_index(s: Seq<Display>) -> int
    decreases s.len(),
{
    if s.len() == 0 {
        0
    } else if s.first().has_focus {
        0
    } else {
        1 + first_display_focus_index(s.drop_first())
    }
}

/// The display position traversal starts from.
pub open spec fn display_focus_start(s: Seq<Display>) -> int {
    if first_display_focus_index(s) < s.len() {
        first_display_focus_index(s)
    } else {
        0
    }
}

/// The display to focus next: one step past the focused display in the
/// reported order, wrapping around; `None` when the list is empty.
pub open spec fn next_display(s: Seq<Display>) -> Option<u32> {
    if s.len() == 0 {
        None
    } else {
        Some(s[(display_focus_start(s) + 1) % (s.len() as int)].id)
    }
}

/// The layout toggle mapping: Bsp and Stack swap, Float is inert.
pub open spec fn toggled_layout(t: SpaceType) -> Option<SpaceType> {
    match t {
        SpaceType::Bsp => Some(SpaceType::Stack),
        SpaceType::Stack => Some(SpaceType::Bsp),
        SpaceType::Float => None,
    }
}

/// What `first_focus_index` finds: everything before it is unfocused, and
/// it points at a focused window whenever one exists.
pub proof fn lemma_first_focus_index(s: Seq<Window>)
    ensures
        0 <= first_focus_index(s) <= s.len(),
        forall|j: int| 0 <= j < first_focus_index(s) ==> !(#[trigger] s[j]).has_focus,
        first_focus_index(s) < s.len() ==> s[first_focus_index(s)].has_focus,
    decreases s.len(),
{
    if s.len() > 0 && !s.first().has_focus {
        lemma_first_focus_index(s.drop_first());
        assert forall|j: int| 0 <= j < first_focus_index(s) implies !(#[trigger] s[j]).has_focus by {
            if j > 0 {
                assert(!s.drop_first()[j - 1].has_focus);
            }
        }
    }
}

/// The display counterpart of `lemma_first_focus_index`.
pub proof fn lemma_first_display_focus_index(s: Seq<Display>)
    ensures
        0 <= first_display_focus_index(s) <= s.len(),
        forall|j: int| 0 <= j < first_display_focus_index(s) ==> !(#[trigger] s[j]).has_focus,
        first_display_focus_index(s) < s.len() ==> s[first_display_focus_index(s)].has_focus,
    decreases s.len(),
{
    if s.len() > 0 && !s.first().has_focus {
        lemma_first_display_focus_index(s.drop_first());
        assert forall|j: int| 0 <= j < first_display_focus_index(s) implies !(
        #[trigger] s[j]).has_focus by {
            if j > 0 {
                assert(!s.drop_first()[j - 1].has_focus);
            }
        }
    }
}

/// Appending a window extends the visible subsequence exactly when the
/// window is visible.
pub proof fn lemma_visible_push(s: Seq<Window>, w: Window)
    ensures
        visible_windows(s.push(w)) == if w.is_visible {
            visible_windows(s).push(w)
        } else {
            visible_windows(s)
        },
{
    s.lemma_filter_push(w, visible_pred());
    assert(visible_pred()(w) == w.is_visible);
}

/// The focus target among an already arranged window sequence: discard the
/// invisible windows, then step one position past the focused one,
/// wrapping around. Returns the target's identifier, or `None` (a
/// successful no-op) when nothing is visible.
pub fn focus_window_after(wins: &Vec<Window>) -> (r: Option<u32>)
    ensures
        r == next_in_cycle(wins@),
{
    let mut vis: Vec<Window> = Vec::new();
    proof {
        assert(wins@.subrange(0, 0) =~= Seq::<Window>::empty());
        assert(visible_windows(Seq::<Window>::empty()).len() == 0);
    }
    let mut i: usize = 0;
    while i < wins.len()
        invariant
            i <= wins.len(),
            vis@ == visible_windows(wins@.subrange(0, i as int)),
        decreases wins.len() - i,
    {
        let ghost before = wins@.subrange(0, i as int);
        let w = wins[i];
        if w.is_visible {
            vis.push(w);
        }
        proof {
            assert(wins@.subrange(0, i as int + 1) =~= before.push(w));
            lemma_visible_push(before, w);
        }
        i += 1;
    }
    proof {
        assert(wins@.subrange(0, wins@.len() as int) =~= wins@);
    }
    if vis.len() == 0 {
        return None;
    }
    let mut k: usize = 0;
    let mut start: usize = 0;
    let mut found: bool = false;
    while k < vis.len()
        invariant
            k <= vis.len(),
            found ==> start < k && vis@[start as int].has_focus,
            found ==> forall|j: int| 0 <= j < start ==> !(#[trigger] vis@[j]).has_focus,
            !found ==> start == 0 && forall|j: int| 0 <= j < k ==> !(#[trigger] vis@[j]).has_focus,
        decreases vis.len() - k,
    {
        if !found && vis[k].has_focus {
            start = k;
            found = true;
        }
        k += 1;
    }
    proof {
        lemma_first_focus_index(vis@);
        assert(focus_start(vis@) == start as int);
    }
    let t: usize = (start + 1) % vis.len();
    Some(vis[t].id)
}

/// The window to focus next in forward traversal of a snapshot; `None` (a
/// successful no-op) when no window is visible.
pub fn focus_next_window(wins: &Vec<Window>) -> (r: Option<u32>)
    ensures
        r == next_window(wins@, true),
{
    let ordered = sorted_windows(wins);
    focus_window_after(&ordered)
}

/// The window to focus next in backward traversal: the canonical
/// arrangement is reversed whole before the same forward step is taken.
pub fn focus_prev_window(wins: &Vec<Window>) -> (r: Option<u32>)
    ensures
        r == next_window(wins@, false),
{
    let ordered = sorted_windows(wins);
    let reversed = reversed_windows(&ordered);
    focus_window_after(&reversed)
}

/// The display to focus next, cycling through the reported list; `None` (a
/// successful no-op) when the list is empty.
pub fn focus_next_display(displays: &Vec<Display>) -> (r: Option<u32>)
    ensures
        r == next_display(displays@),
{
    if displays.len() == 0 {
        return None;
    }
    let mut k: usize = 0;
    let mut start: usize = 0;
    let mut found: bool = false;
    while k < displays.len()
        invariant
            k <= displays.len(),
            found ==> start < k && displays@[start as int].has_focus,
            found ==> forall|j: int| 0 <= j < start ==> !(#[trigger] displays@[j]).has_focus,
            !found ==> start == 0 && forall|j: int|
                0 <= j < k ==> !(#[trigger] displays@[j]).has_focus,
        decreases displays.len() - k,
    {
        if !found && displays[k].has_focus {
            start = k;
            found = true;
        }
        k += 1;
    }
    proof {
        lemma_first_display_focus_index(displays@);
        assert(display_focus_start(displays@) == start as int);
    }
    let t: usize = (start + 1) % displays.len();
    Some(displays[t].id)
}

/// The layout to switch the focused space to: Bsp and Stack swap, Float
/// stays untouched (`None`, a successful no-op).
pub fn toggle_space_layout(t: SpaceType) -> (r: Option<SpaceType>)
    ensures
        r == toggled_layout(t),
        t == SpaceType::Bsp ==> r == Some(SpaceType::Stack),
        t == SpaceType::Stack ==> r == Some(SpaceType::Bsp),
        t == SpaceType::Float ==> r is None,
{
    match t {
        SpaceType::Bsp => Some(SpaceType::Stack),
        SpaceType::Stack => Some(SpaceType::Bsp),
        SpaceType::Float => None,
    }
}

/// The name under which the window manager knows each layout mode.
pub fn layout_name(t: SpaceType) -> (r: &'static str)
    ensures
        t == SpaceType::Bsp ==> r@ == "bsp"@,
        t == SpaceType::Stack ==> r@ == "stack"@,
        t == SpaceType::Float ==> r@ == "float"@,
{
    match t {
        SpaceType::Bsp => "bsp",
        SpaceType::Stack => "stack",
        SpaceType::Float => "float",
    }
}

} // verus!
