//! Properties of the selection logic, stated and proved over the model.
//!
//! The lemmas here relate the public operations to one another: which
//! windows can become a focus target, that the choice ignores the incoming
//! order of the snapshot, how single-window and empty snapshots behave,
//! and that one forward step followed by one backward step returns focus
//! to where it started.

use vstd::prelude::*;
use vstd::arithmetic::div_mod::{lemma_mod_bound, lemma_mod_self_0, lemma_small_mod};
use vstd::seq_lib::lemma_multiset_commutative;
use vstd::seq_lib::lemma_sorted_unique;

use crate::order::{win_le, win_order, windows_sorted};
use crate::order::{lemma_win_order_total, lemma_windows_sorted_iff};
use crate::schema::Window;
use crate::selector::{
    first_focus_index, focus_start, lemma_first_focus_index, lemma_visible_push, next_window,
    visible_pred, visible_windows,
};

verus! {

/// No two windows of the sequence share an identifier; every snapshot the
/// window manager reports satisfies this.
pub open spec fn distinct_ids(s: Seq<Window>) -> bool {
    forall|i: int, j: int| 0 <= i < j < s.len() ==> (#[trigger] s[i]).id != (#[trigger] s[j]).id
}

/// `w` with its focus flag set exactly when its identifier is `id`.
pub open spec fn refocused(w: Window, id: u32) -> Window {
    Window { has_focus: w.id == id, ..w }
}

/// The refocus operation as a function value.
pub open spec fn refocus_fn(id: u32) -> spec_fn(Window) -> Window {
    |w: Window| refocused(w, id)
}

/// The snapshot after the window manager has moved focus to the window
/// with identifier `id`: the same windows, with only the focus flags
/// changed.
pub open spec fn refocus(s: Seq<Window>, id: u32) -> Seq<Window> {
    s.map_values(refocus_fn(id))
}

/// A sequence of invisible windows filters to nothing.
proof fn lemma_invisible_filter_empty(s: Seq<Window>)
    requires
        forall|i: int| 0 <= i < s.len() ==> !(#[trigger] s[i]).is_visible,
    ensures
        visible_windows(s).len() == 0,
    decreases s.len(),
{
    broadcast use vstd::seq_lib::group_filter_ensures;

    if s.len() > 0 {
        let rest = s.drop_last();
        lemma_invisible_filter_empty(rest);
        lemma_visible_push(rest, s.last());
        assert(s =~= rest.push(s.last()));
    }
}

/// Two sequences with the same elements keep the same elements after both
/// are filtered.
proof fn lemma_filter_permutation<A>(s: Seq<A>, t: Seq<A>, pred: spec_fn(A) -> bool)
    requires
        s.to_multiset() == t.to_multiset(),
    ensures
        s.filter(pred).to_multiset() == t.filter(pred).to_multiset(),
    decreases s.len(),
{
    broadcast use vstd::seq_lib::group_to_multiset_ensures;
    broadcast use vstd::multiset::group_multiset_axioms;
    broadcast use vstd::seq_lib::group_filter_ensures;

    if s.len() == 0 {
        assert(s.to_multiset().len() == 0);
        assert(t.to_multiset().len() == t.len());
        assert(s.filter(pred) =~= t.filter(pred));
    } else {
        let a = s[0];
        assert(s.contains(a));
        assert(t.to_multiset().count(a) > 0);
        assert(t.contains(a));
        let j = choose|j: int| 0 <= j < t.len() && t[j] == a;
        let s1 = s.remove(0);
        let t1 = t.remove(j);
        assert(s1.to_multiset() == t1.to_multiset());
        lemma_filter_permutation(s1, t1, pred);
        let single = Seq::<A>::empty().push(a);
        assert(Seq::<A>::empty().filter(pred) =~= Seq::<A>::empty());
        Seq::<A>::empty().lemma_filter_push(a, pred);
        let tl = t.subrange(0, j);
        let tr = t.subrange(j + 1, t.len() as int);
        assert(s =~= single + s1);
        assert(t =~= tl + (single + tr));
        assert(t1 =~= tl + tr);
        Seq::<A>::filter_distributes_over_add(single, s1, pred);
        Seq::<A>::filter_distributes_over_add(tl, single + tr, pred);
        Seq::<A>::filter_distributes_over_add(single, tr, pred);
        Seq::<A>::filter_distributes_over_add(tl, tr, pred);
        lemma_multiset_commutative(single.filter(pred), s1.filter(pred));
        lemma_multiset_commutative(tl.filter(pred), single.filter(pred) + tr.filter(pred));
        lemma_multiset_commutative(single.filter(pred), tr.filter(pred));
        lemma_multiset_commutative(tl.filter(pred), tr.filter(pred));
        assert(s.filter(pred).to_multiset() =~= t.filter(pred).to_multiset());
    }
}

/// Two sequences with the same elements still have the same elements after
/// the same function is applied to each.
proof fn lemma_map_permutation<A, B>(s: Seq<A>, t: Seq<A>, f: spec_fn(A) -> B)
    requires
        s.to_multiset() == t.to_multiset(),
    ensures
        s.map_values(f).to_multiset() == t.map_values(f).to_multiset(),
    decreases s.len(),
{
    broadcast use vstd::seq_lib::group_to_multiset_ensures;
    broadcast use vstd::multiset::group_multiset_axioms;

    if s.len() == 0 {
        assert(s.to_multiset().len() == 0);
        assert(t.to_multiset().len() == t.len());
        assert(s.map_values(f) =~= t.map_values(f));
    } else {
        let a = s[0];
        assert(s.contains(a));
        assert(t.to_multiset().count(a) > 0);
        assert(t.contains(a));
        let j = choose|j: int| 0 <= j < t.len() && t[j] == a;
        let s1 = s.remove(0);
        let t1 = t.remove(j);
        assert(s1.to_multiset() == t1.to_multiset());
        lemma_map_permutation(s1, t1, f);
        let single = Seq::<A>::empty().push(a);
        let tl = t.subrange(0, j);
        let tr = t.subrange(j + 1, t.len() as int);
        assert(s =~= single + s1);
        assert(t =~= tl + (single + tr));
        assert(t1 =~= tl + tr);
        assert((single + s1).map_values(f) =~= single.map_values(f) + s1.map_values(f));
        assert((tl + (single + tr)).map_values(f) =~= tl.map_values(f) + (single.map_values(f)
            + tr.map_values(f)));
        assert((tl + tr).map_values(f) =~= tl.map_values(f) + tr.map_values(f));
        lemma_multiset_commutative(single.map_values(f), s1.map_values(f));
        lemma_multiset_commutative(tl.map_values(f), single.map_values(f) + tr.map_values(f));
        lemma_multiset_commutative(single.map_values(f), tr.map_values(f));
        lemma_multiset_commutative(tl.map_values(f), tr.map_values(f));
        assert(s.map_values(f).to_multiset() =~= t.map_values(f).to_multiset());
    }
}

/// A sequence whose only visible window stands at index `i` filters to
/// just that window.
proof fn lemma_lone_visible_filter(s: Seq<Window>, i: int)
    requires
        0 <= i < s.len(),
        s[i].is_visible,
        forall|j: int| 0 <= j < s.len() && j != i ==> !(#[trigger] s[j]).is_visible,
    ensures
        visible_windows(s) =~= Seq::<Window>::empty().push(s[i]),
    decreases s.len(),
{
    let rest = s.drop_last();
    lemma_visible_push(rest, s.last());
    assert(s =~= rest.push(s.last()));
    if i == s.len() - 1 {
        lemma_invisible_filter_empty(rest);
        assert(visible_windows(rest) =~= Seq::<Window>::empty());
    } else {
        lemma_lone_visible_filter(rest, i);
    }
}

/// The canonical arrangement is sorted by the traversal order and is a
/// permutation of the snapshot.
pub proof fn lemma_canonical_arrangement(wins: Seq<Window>)
    ensures
        windows_sorted(wins.sort_by(win_order())),
        wins.sort_by(win_order()).to_multiset() == wins.to_multiset(),
{
    lemma_win_order_total();
    wins.lemma_sort_by_ensures(win_order());
    lemma_windows_sorted_iff(wins.sort_by(win_order()));
}

/// Filtering a sorted sequence leaves it sorted.
proof fn lemma_visible_sorted(s: Seq<Window>)
    requires
        windows_sorted(s),
    ensures
        windows_sorted(visible_windows(s)),
    decreases s.len(),
{
    broadcast use vstd::seq_lib::group_filter_ensures;

    if s.len() > 0 {
        let rest = s.drop_last();
        let last = s.last();
        lemma_visible_sorted(rest);
        lemma_visible_push(rest, last);
        assert(s =~= rest.push(last));
        let vr = visible_windows(rest);
        let v = visible_windows(s);
        assert forall|a: int, b: int| 0 <= a < b < v.len() implies win_le(
            #[trigger] v[a],
            #[trigger] v[b],
        ) by {
            if last.is_visible && b == v.len() - 1 {
                assert(v[a] == vr[a]);
                assert(vr.contains(vr[a]));
                rest.lemma_filter_contains_rev(visible_pred(), vr[a]);
                let m = choose|m: int| 0 <= m < rest.len() && rest[m] == vr[a];
                assert(rest[m] == s[m]);
                assert(win_le(s[m], s[s.len() - 1]));
            } else {
                assert(v[a] == vr[a] && v[b] == vr[b]);
            }
        }
    }
}

/// Filtering keeps identifiers distinct.
proof fn lemma_distinct_ids_filter(s: Seq<Window>)
    requires
        distinct_ids(s),
    ensures
        distinct_ids(visible_windows(s)),
    decreases s.len(),
{
    broadcast use vstd::seq_lib::group_filter_ensures;

    if s.len() > 0 {
        let rest = s.drop_last();
        let last = s.last();
        lemma_distinct_ids_filter(rest);
        lemma_visible_push(rest, last);
        assert(s =~= rest.push(last));
        let vr = visible_windows(rest);
        let v = visible_windows(s);
        assert forall|a: int, b: int| 0 <= a < b < v.len() implies (#[trigger] v[a]).id != (
        #[trigger] v[b]).id by {
            if last.is_visible && b == v.len() - 1 {
                assert(v[a] == vr[a]);
                assert(vr.contains(vr[a]));
                rest.lemma_filter_contains_rev(visible_pred(), vr[a]);
                let m = choose|m: int| 0 <= m < rest.len() && rest[m] == vr[a];
                assert(rest[m] == s[m]);
                assert(s[m].id != s[s.len() - 1].id);
            } else {
                assert(v[a] == vr[a] && v[b] == vr[b]);
            }
        }
    }
}

/// A permutation of a sequence with distinct identifiers has distinct
/// identifiers.
proof fn lemma_distinct_ids_permutation(s: Seq<Window>, t: Seq<Window>)
    requires
        s.to_multiset() == t.to_multiset(),
        distinct_ids(s),
    ensures
        distinct_ids(t),
{
    broadcast use vstd::seq_lib::group_to_multiset_ensures;
    broadcast use vstd::multiset::group_multiset_axioms;

    assert(s.no_duplicates()) by {
        assert forall|i: int, j: int|
            0 <= i < s.len() && 0 <= j < s.len() && i != j implies #[trigger] s[i] != #[trigger] s[j] by {
            if i < j {
                assert(s[i].id != s[j].id);
            } else {
                assert(s[j].id != s[i].id);
            }
        }
    }
    s.lemma_multiset_has_no_duplicates();
    t.lemma_multiset_has_no_duplicates_conv();
    assert forall|i: int, j: int| 0 <= i < j < t.len() implies (#[trigger] t[i]).id != (
    #[trigger] t[j]).id by {
        if t[i].id == t[j].id {
            assert(t[i] != t[j]);
            assert(t.contains(t[i]));
            assert(t.contains(t[j]));
            assert(s.to_multiset().count(t[i]) > 0);
            assert(s.to_multiset().count(t[j]) > 0);
            assert(s.contains(t[i]));
            assert(s.contains(t[j]));
            let k = choose|k: int| 0 <= k < s.len() && s[k] == t[i];
            let l = choose|l: int| 0 <= l < s.len() && s[l] == t[j];
            if k < l {
                assert(s[k].id != s[l].id);
            } else {
                assert(s[l].id != s[k].id);
            }
        }
    }
}

/// Filtering commutes with reversal.
proof fn lemma_visible_reverse(s: Seq<Window>)
    ensures
        visible_windows(s.reverse()) == visible_windows(s).reverse(),
    decreases s.len(),
{
    broadcast use vstd::seq_lib::group_filter_ensures;

    if s.len() == 0 {
        assert(s.reverse() =~= s);
        assert(visible_windows(s) =~= Seq::<Window>::empty());
        assert(visible_windows(s).reverse() =~= visible_windows(s.reverse()));
    } else {
        let rest = s.drop_last();
        let last = s.last();
        lemma_visible_reverse(rest);
        lemma_visible_push(rest, last);
        assert(s =~= rest.push(last));
        let single = Seq::<Window>::empty().push(last);
        assert(s.reverse() =~= single + rest.reverse());
        Seq::<Window>::filter_distributes_over_add(single, rest.reverse(), visible_pred());
        Seq::<Window>::empty().lemma_filter_push(last, visible_pred());
        assert(Seq::<Window>::empty().filter(visible_pred()) =~= Seq::<Window>::empty());
        assert(visible_pred()(last) == last.is_visible);
        if last.is_visible {
            assert(visible_windows(single) =~= single);
            assert(visible_windows(rest).push(last).reverse() =~= single + visible_windows(
                rest,
            ).reverse());
            assert(visible_windows(s.reverse()) =~= visible_windows(s).reverse());
        } else {
            assert(visible_windows(single) =~= Seq::<Window>::empty());
            assert(visible_windows(s.reverse()) =~= visible_windows(s).reverse());
        }
    }
}

/// Moving the focus flags does not reorder windows with distinct
/// identifiers: the comparison is decided before the focus flag is
/// reached.
proof fn lemma_refocused_le(a: Window, b: Window, id: u32)
    requires
        win_le(a, b),
        a.id != b.id,
    ensures
        win_le(refocused(a, id), refocused(b, id)),
{
}

/// Moving the focus flags commutes with discarding the invisible windows.
proof fn lemma_refocus_visible(s: Seq<Window>, id: u32)
    ensures
        visible_windows(refocus(s, id)) == refocus(visible_windows(s), id),
    decreases s.len(),
{
    broadcast use vstd::seq_lib::group_filter_ensures;

    if s.len() == 0 {
        assert(refocus(s, id) =~= Seq::<Window>::empty());
        assert(visible_windows(refocus(s, id)) =~= refocus(visible_windows(s), id));
    } else {
        let rest = s.drop_last();
        let last = s.last();
        lemma_refocus_visible(rest, id);
        lemma_visible_push(rest, last);
        assert(s =~= rest.push(last));
        assert(refocus(s, id) =~= refocus(rest, id).push(refocused(last, id)));
        lemma_visible_push(refocus(rest, id), refocused(last, id));
        if last.is_visible {
            assert(refocus(visible_windows(rest).push(last), id) =~= refocus(
                visible_windows(rest),
                id,
            ).push(refocused(last, id)));
            assert(visible_windows(refocus(s, id)) =~= refocus(visible_windows(s), id));
        } else {
            assert(visible_windows(refocus(s, id)) =~= refocus(visible_windows(s), id));
        }
    }
}

/// One forward step, then — after the window manager has applied it — one
/// backward step, returns focus to the window that held it: over the
/// whole visible cycle the two traversals cancel out.
pub proof fn lemma_focus_round_trip(wins: Seq<Window>, i: int)
    requires
        distinct_ids(wins),
        0 <= i < wins.len(),
        wins[i].is_visible,
        wins[i].has_focus,
        forall|j: int| 0 <= j < wins.len() && j != i ==> !(#[trigger] wins[j]).has_focus,
    ensures
        next_window(wins, true) is Some,
        next_window(wins, true) matches Some(t) ==> next_window(refocus(wins, t), false) == Some(
            wins[i].id,
        ),
{
    broadcast use vstd::seq_lib::group_to_multiset_ensures;
    broadcast use vstd::seq_lib::group_filter_ensures;

    lemma_win_order_total();
    wins.lemma_sort_by_ensures(win_order());
    let q = wins.sort_by(win_order());
    lemma_windows_sorted_iff(q);
    lemma_distinct_ids_permutation(wins, q);
    lemma_visible_sorted(q);
    lemma_distinct_ids_filter(q);
    let v = visible_windows(q);
    let f = wins[i];

    // f stands somewhere in the visible cycle, and is its only focused
    // window.
    assert(wins.contains(f));
    assert(wins.to_multiset().count(f) > 0);
    assert(q.to_multiset().count(f) > 0);
    assert(q.contains(f));
    let a = choose|a: int| 0 <= a < q.len() && q[a] == f;
    assert(visible_pred()(q[a]));
    assert(v.contains(q[a]));
    let p = choose|p: int| 0 <= p < v.len() && v[p] == f;
    let n = v.len() as int;
    assert(n >= 1);
    assert forall|k: int| 0 <= k < n && (#[trigger] v[k]).has_focus implies k == p by {
        assert(v.contains(v[k]));
        q.lemma_filter_contains_rev(visible_pred(), v[k]);
        assert(q.contains(v[k]));
        assert(wins.to_multiset().count(v[k]) > 0);
        assert(wins.contains(v[k]));
        let m = choose|m: int| 0 <= m < wins.len() && wins[m] == v[k];
        assert(m == i);
        assert(v[k] == f);
        if k < p {
            assert(v[k].id != v[p].id);
        } else if p < k {
            assert(v[p].id != v[k].id);
        }
    }

    // The forward step goes one past f's position.
    lemma_first_focus_index(v);
    assert(first_focus_index(v) == p);
    assert(focus_start(v) == p);
    let ti = (p + 1) % n;
    let t = v[ti];
    assert(next_window(wins, true) == Some(t.id));

    // After focus moves to t, the canonical arrangement is the old one
    // with only the focus flags changed.
    let w2 = refocus(wins, t.id);
    let q2 = refocus(q, t.id);
    assert(q2.len() == q.len());
    assert(windows_sorted(q2)) by {
        assert forall|c: int, d: int| 0 <= c < d < q2.len() implies win_le(
            #[trigger] q2[c],
            #[trigger] q2[d],
        ) by {
            assert(win_le(q[c], q[d]));
            assert(q[c].id != q[d].id);
            lemma_refocused_le(q[c], q[d], t.id);
        }
    }
    lemma_map_permutation(wins, q, refocus_fn(t.id));
    assert(w2.to_multiset() == q2.to_multiset());
    w2.lemma_sort_by_ensures(win_order());
    lemma_windows_sorted_iff(w2.sort_by(win_order()));
    lemma_windows_sorted_iff(q2);
    lemma_sorted_unique(w2.sort_by(win_order()), q2, win_order());
    assert(w2.sort_by(win_order()) == q2);

    // The backward cycle is the refocused visible cycle, reversed.
    lemma_visible_reverse(q2);
    lemma_refocus_visible(q, t.id);
    let vb = visible_windows(q2.reverse());
    assert(vb == refocus(v, t.id).reverse());
    assert(vb.len() == n);

    // In the backward cycle exactly the window t holds focus, at the
    // mirrored position.
    let pb = n - 1 - ti;
    assert forall|k: int| 0 <= k < n implies ((#[trigger] vb[k]).has_focus <==> k == n - 1
        - ti) by {
        assert(vb[k] == refocused(v[n - 1 - k], t.id));
        if v[n - 1 - k].id == t.id && n - 1 - k != ti {
            assert(false);
        }
    }
    assert(0 <= ti < n) by {
        lemma_mod_bound(p + 1, n);
    }
    assert(0 <= pb < n);
    assert(vb[pb].has_focus);
    lemma_first_focus_index(vb);
    assert(first_focus_index(vb) == pb) by {
        if first_focus_index(vb) < pb {
            assert(vb[first_focus_index(vb)].has_focus);
        }
    }
    assert(focus_start(vb) == pb);
    let tb = (pb + 1) % n;

    // Index arithmetic: the mirrored step lands back on f's position.
    assert(n - 1 - tb == p) by {
        if p == n - 1 {
            lemma_mod_self_0(n);
            assert(ti == 0);
            assert(pb == n - 1);
            assert(tb == 0);
        } else {
            lemma_small_mod((p + 1) as nat, n as nat);
            assert(ti == p + 1);
            assert(pb + 1 == n - p - 1);
            lemma_small_mod((n - p - 1) as nat, n as nat);
            assert(tb == n - p - 1);
        }
    }
    assert(vb[tb] == refocused(v[p], t.id));
    assert(next_window(w2, false) == Some(v[p].id));
}

/// A focus target is always one of the given windows, and always a
/// visible one: invisible windows never become the target.
pub proof fn lemma_target_is_visible(wins: Seq<Window>, forward: bool, id: u32)
    requires
        next_window(wins, forward) == Some(id),
    ensures
        exists|k: int| 0 <= k < wins.len() && (#[trigger] wins[k]).is_visible && wins[k].id == id,
{
    broadcast use vstd::seq_lib::group_to_multiset_ensures;
    broadcast use vstd::seq_lib::group_filter_ensures;

    lemma_win_order_total();
    wins.lemma_sort_by_ensures(win_order());
    let q = wins.sort_by(win_order());
    let ordered = if forward {
        q
    } else {
        q.reverse()
    };
    if !forward {
        q.lemma_reverse_to_multiset();
    }
    let v = visible_windows(ordered);
    let ti = (focus_start(v) + 1) % (v.len() as int);
    lemma_first_focus_index(v);
    let w = v[ti];
    assert(visible_pred()(w));
    assert(v.contains(w));
    ordered.lemma_filter_contains_rev(visible_pred(), w);
    assert(ordered.contains(w));
    assert(ordered.to_multiset().count(w) > 0);
    assert(wins.to_multiset().count(w) > 0);
    assert(wins.contains(w));
    let k = choose|k: int| 0 <= k < wins.len() && wins[k] == w;
    assert(wins[k].is_visible && wins[k].id == id);
}

/// The choice of focus target does not depend on the order in which the
/// snapshot lists the windows: any two arrangements of the same windows
/// give the same target.
pub proof fn lemma_order_independent(a: Seq<Window>, b: Seq<Window>, forward: bool)
    requires
        a.to_multiset() == b.to_multiset(),
    ensures
        next_window(a, forward) == next_window(b, forward),
{
    lemma_win_order_total();
    a.lemma_sort_by_ensures(win_order());
    b.lemma_sort_by_ensures(win_order());
    lemma_sorted_unique(a.sort_by(win_order()), b.sort_by(win_order()), win_order());
}

/// With no visible window there is no focus target: the operation is a
/// successful no-op.
pub proof fn lemma_no_visible_is_noop(wins: Seq<Window>, forward: bool)
    requires
        forall|i: int| 0 <= i < wins.len() ==> !(#[trigger] wins[i]).is_visible,
    ensures
        next_window(wins, forward) is None,
{
    broadcast use vstd::seq_lib::group_to_multiset_ensures;

    lemma_win_order_total();
    wins.lemma_sort_by_ensures(win_order());
    let q = wins.sort_by(win_order());
    let ordered = if forward {
        q
    } else {
        q.reverse()
    };
    if !forward {
        q.lemma_reverse_to_multiset();
    }
    assert forall|i: int| 0 <= i < ordered.len() implies !(#[trigger] ordered[i]).is_visible by {
        assert(ordered.contains(ordered[i]));
        assert(wins.to_multiset().count(ordered[i]) > 0);
        assert(wins.contains(ordered[i]));
    }
    lemma_invisible_filter_empty(ordered);
}

/// A snapshot whose only visible window already holds focus selects that
/// same window again, in either direction.
pub proof fn lemma_lone_visible_selects_itself(wins: Seq<Window>, forward: bool, i: int)
    requires
        0 <= i < wins.len(),
        wins[i].is_visible,
        wins[i].has_focus,
        forall|j: int| 0 <= j < wins.len() && j != i ==> !(#[trigger] wins[j]).is_visible,
    ensures
        next_window(wins, forward) == Some(wins[i].id),
{
    broadcast use vstd::seq_lib::group_to_multiset_ensures;
    broadcast use vstd::seq_lib::group_filter_ensures;

    lemma_win_order_total();
    wins.lemma_sort_by_ensures(win_order());
    let q = wins.sort_by(win_order());
    let ordered = if forward {
        q
    } else {
        q.reverse()
    };
    if !forward {
        q.lemma_reverse_to_multiset();
    }
    let v = visible_windows(ordered);
    lemma_filter_permutation(wins, ordered, visible_pred());
    let vw = visible_windows(wins);
    lemma_lone_visible_filter(wins, i);
    assert(vw.len() == 1);
    assert(v.to_multiset() == vw.to_multiset());
    assert(vw.to_multiset().len() == vw.len());
    assert(v.to_multiset().len() == v.len());
    assert(v.len() == 1);
    assert(v.contains(v[0]));
    assert(v.to_multiset().count(v[0]) > 0);
    assert(vw.to_multiset().count(v[0]) > 0);
    assert(vw.contains(v[0]));
    assert(v[0] == wins[i]);
    assert(first_focus_index(v) == 0);
    assert(focus_start(v) == 0);
    assert((focus_start(v) + 1) % (v.len() as int) == 0);
}

} // verus!

