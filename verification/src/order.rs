//! The canonical traversal order for windows.
//!
//! Windows are ranked by the composite key (display, y, x, id), ascending:
//! the owning display first, then vertical position, then horizontal
//! position, with the identifier as tie-break. Since identifiers are unique
//! in any well-formed snapshot, the key decides every pair there; the
//! remaining fields extend the comparison so that the order is total on
//! every input, which keeps the contracts free of preconditions.

use vstd::prelude::*;
use vstd::relations::{sorted_by, total_ordering};
use vstd::seq_lib::lemma_multiset_commutative;
use vstd::seq_lib::lemma_sorted_unique;

use crate::schema::Window;

verus! {

/// `a` comes no later than `b` in the traversal order: lexicographic on
/// (display, y, x, id), extended over the remaining fields to a total
/// order.
pub open spec fn win_le(a: Window, b: Window) -> bool {
    if a.display != b.display {
        a.display < b.display
    } else if a.frame.y != b.frame.y {
        a.frame.y < b.frame.y
    } else if a.frame.x != b.frame.x {
        a.frame.x < b.frame.x
    } else if a.id != b.id {
        a.id < b.id
    } else if a.frame.w != b.frame.w {
        a.frame.w < b.frame.w
    } else if a.frame.h != b.frame.h {
        a.frame.h < b.frame.h
    } else if a.is_visible != b.is_visible {
        !a.is_visible
    } else if a.has_focus != b.has_focus {
        !a.has_focus
    } else {
        true
    }
}

/// The sequence is arranged by the traversal order.
pub open spec fn windows_sorted(s: Seq<Window>) -> bool {
    forall|i: int, j: int| 0 <= i < j < s.len() ==> win_le(#[trigger] s[i], #[trigger] s[j])
}

/// The traversal order as a relation value, for use with `Seq::sort_by`.
pub open spec fn win_order() -> spec_fn(Window, Window) -> bool {
    |a: Window, b: Window| win_le(a, b)
}

/// Two windows in the traversal order can always be compared.
pub proof fn lemma_win_le_connected(a: Window, b: Window)
    ensures
        win_le(a, b) || win_le(b, a),
{
}

/// The traversal order is transitive.
pub proof fn lemma_win_le_trans(a: Window, b: Window, c: Window)
    requires
        win_le(a, b),
        win_le(b, c),
    ensures
        win_le(a, c),
{
}

/// The traversal order is a total order, so every snapshot has exactly one
/// sorted arrangement.
pub proof fn lemma_win_order_total()
    ensures
        total_ordering(win_order()),
{
    let leq = win_order();
    assert forall|a: Window, b: Window| #[trigger] leq(a, b) && #[trigger] leq(b, a) implies a
        == b by {
        assert(a.frame == b.frame);
    }
    assert forall|a: Window, b: Window, c: Window|
        #[trigger] leq(a, b) && #[trigger] leq(b, c) implies leq(a, c) by {}
}

/// `windows_sorted` and vstd's `sorted_by` under the traversal order say
/// the same thing.
pub proof fn lemma_windows_sorted_iff(s: Seq<Window>)
    ensures
        windows_sorted(s) <==> sorted_by(s, win_order()),
{
    let leq = win_order();
    if windows_sorted(s) {
        assert forall|i: int, j: int| 0 <= i < j < s.len() implies #[trigger] leq(s[i], s[j]) by {
            assert(win_le(s[i], s[j]));
        }
    }
    if sorted_by(s, leq) {
        assert forall|i: int, j: int| 0 <= i < j < s.len() implies win_le(
            #[trigger] s[i],
            #[trigger] s[j],
        ) by {
            assert(leq(s[i], s[j]));
        }
    }
}

/// Key precedence: a pair of windows is ordered by the first component of
/// (display, y, x, id) on which the two differ; coordinates never override
/// the display, and the identifier only breaks full coordinate ties.
pub proof fn lemma_key_precedence(a: Window, b: Window)
    ensures
        a.display != b.display ==> (win_le(a, b) <==> a.display < b.display),
        a.display == b.display && a.frame.y != b.frame.y ==> (win_le(a, b) <==> a.frame.y
            < b.frame.y),
        a.display == b.display && a.frame.y == b.frame.y && a.frame.x != b.frame.x ==> (win_le(
            a,
            b,
        ) <==> a.frame.x < b.frame.x),
        a.display == b.display && a.frame.y == b.frame.y && a.frame.x == b.frame.x && a.id != b.id
            ==> (win_le(a, b) <==> a.id < b.id),
{
}

/// Executable comparison matching `win_le`.
fn win_le_exec(a: &Window, b: &Window) -> (r: bool)
    ensures
        r == win_le(*a, *b),
{
    if a.display != b.display {
        a.display < b.display
    } else if a.frame.y != b.frame.y {
        a.frame.y < b.frame.y
    } else if a.frame.x != b.frame.x {
        a.frame.x < b.frame.x
    } else if a.id != b.id {
        a.id < b.id
    } else if a.frame.w != b.frame.w {
        a.frame.w < b.frame.w
    } else if a.frame.h != b.frame.h {
        a.frame.h < b.frame.h
    } else if a.is_visible != b.is_visible {
        !a.is_visible
    } else if a.has_focus != b.has_focus {
        !a.has_focus
    } else {
        true
    }
}

/// Inserting an element anywhere in a sequence adds it to the sequence's
/// multiset.
proof fn lemma_insert_to_multiset(s: Seq<Window>, p: int, w: Window)
    requires
        0 <= p <= s.len(),
    ensures
        s.insert(p, w).to_multiset() == s.to_multiset().insert(w),
{
    broadcast use vstd::seq_lib::group_to_multiset_ensures;
    broadcast use vstd::multiset::group_multiset_axioms;

    let front = s.subrange(0, p);
    let back = s.subrange(p, s.len() as int);
    lemma_multiset_commutative(front.push(w), back);
    lemma_multiset_commutative(front, back);
    assert(s =~= front + back);
    assert(s.insert(p, w).to_multiset() =~= s.to_multiset().insert(w));
}

/// First position in the sorted `v` at which `w` may stand without
/// breaking the order.
fn insertion_point(v: &Vec<Window>, w: &Window) -> (p: usize)
    requires
        windows_sorted(v@),
    ensures
        p <= v@.len(),
        forall|j: int| 0 <= j < p ==> win_le(#[trigger] v@[j], *w),
        p < v@.len() ==> win_le(*w, v@[p as int]),
{
    let mut p: usize = 0;
    while p < v.len()
        invariant
            p <= v@.len(),
            forall|j: int| 0 <= j < p ==> win_le(#[trigger] v@[j], *w),
        decreases v@.len() - p,
    {
        if win_le_exec(w, &v[p]) {
            return p;
        }
        proof {
            lemma_win_le_connected(*w, v@[p as int]);
        }
        p += 1;
    }
    p
}

/// Insert `w` into the already sorted `v`, keeping it sorted.
fn insert_in_order(v: &mut Vec<Window>, w: Window)
    requires
        windows_sorted(old(v)@),
    ensures
        windows_sorted(final(v)@),
        final(v)@.to_multiset() == old(v)@.to_multiset().insert(w),
{
    let p = insertion_point(v, &w);
    let ghost s = v@;
    let ghost pos = p as int;
    v.insert(p, w);
    proof {
        lemma_insert_to_multiset(s, pos, w);
        let t = s.insert(pos, w);
        s.insert_ensures(pos, w);
        assert forall|i: int, j: int| 0 <= i < j < t.len() implies win_le(
            #[trigger] t[i],
            #[trigger] t[j],
        ) by {
            if i < pos && j == pos {
                assert(win_le(s[i], w));
            } else if i < pos && j > pos {
                assert(win_le(s[i], s[j - 1]));
            } else if i == pos && j > pos {
                lemma_win_le_connected(s[j - 1], s[j - 1]);
                if pos < j - 1 {
                    lemma_win_le_trans(w, s[pos], s[j - 1]);
                }
            }
        }
    }
}

/// The canonical arrangement of a snapshot: the windows sorted by the
/// traversal order. The result is a permutation of the input and depends
/// only on which windows are in it, not on their incoming order.
pub fn sorted_windows(wins: &Vec<Window>) -> (r: Vec<Window>)
    ensures
        r@ == wins@.sort_by(win_order()),
{
    let mut r: Vec<Window> = Vec::new();
    proof {
        assert(wins@.subrange(0, 0) =~= r@);
    }
    let mut i: usize = 0;
    while i < wins.len()
        invariant
            i <= wins.len(),
            windows_sorted(r@),
            r@.to_multiset() == wins@.subrange(0, i as int).to_multiset(),
        decreases wins.len() - i,
    {
        let ghost before = wins@.subrange(0, i as int);
        let w = wins[i];
        insert_in_order(&mut r, w);
        proof {
            broadcast use vstd::seq_lib::group_to_multiset_ensures;

            assert(wins@.subrange(0, i as int + 1) =~= before.push(w));
            assert(before.push(w).to_multiset() == before.to_multiset().insert(w));
        }
        i += 1;
    }
    proof {
        assert(wins@.subrange(0, wins@.len() as int) =~= wins@);
        lemma_win_order_total();
        lemma_windows_sorted_iff(r@);
        wins@.lemma_sort_by_ensures(win_order());
        lemma_sorted_unique(r@, wins@.sort_by(win_order()), win_order());
    }
    r
}

/// The same windows in the opposite order.
pub fn reversed_windows(wins: &Vec<Window>) -> (r: Vec<Window>)
    ensures
        r@ == wins@.reverse(),
{
    let mut r: Vec<Window> = Vec::new();
    let mut i: usize = wins.len();
    while i > 0
        invariant
            i <= wins.len(),
            r@.len() == wins@.len() - i,
            forall|k: int| 0 <= k < r@.len() ==> #[trigger] r@[k] == wins@[wins@.len() - 1 - k],
        decreases i,
    {
        i -= 1;
        r.push(wins[i]);
    }
    proof {
        assert(r@ =~= wins@.reverse());
    }
    r
}

} // verus!
