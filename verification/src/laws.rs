//! Properties of the browser as a whole, stated over the specifications of
//! its operations and proved from them.
use vstd::prelude::*;
use crate::app::{
    cursor_target, key_step, list_filter, rebuilt, row_killable, row_shown, rows_spec,
    searches_applied, selected_targets, targets_for, toggled, visible_spec, Action, App, Key,
    KeyInput, ListFilter, Mode,
};
use crate::filter::{all_match, has_uppercase, lowered, term_matches};
use crate::subtree::{
    lemma_ascii_inside, lemma_ascii_lower_contains, lemma_contains_trans, lemma_in_child_pids, lemma_kid_facts, lemma_parent_text_holds_child,
    lemma_root_listed, lemma_rooted_parent, lemma_rooted_child, rooted, rooted_at,
};
use crate::text::{ascii_lower, ascii_text, contains_text, words};
use crate::procs::{has_pid, lemma_pid_index_unique, pids_increasing, proc_of, Proc};
use crate::tree::{
    ancestor, children_of, kids, lemma_unvisited_insert,
    lemma_unvisited_subset, lemma_walk_kids_grows, lemma_walk_rows_grows, on_chain, roots_of_in,
    search_forest, start_pids, unvisited, walk_forest, walk_kids, walk_rows,
};

verus! {

/// The protected chain holds the program's own process whenever it is listed,
/// only listed processes, and the listed parent of each of its members: the
/// whole session chain up to the first process that is not listed.
pub proof fn law_protected_chain(s: Seq<Proc>, self_pid: i32, x: i32)
    ensures
        has_pid(s, self_pid) ==> on_chain(s, self_pid, self_pid),
        on_chain(s, self_pid, x) ==> has_pid(s, x),
        on_chain(s, self_pid, x) && has_pid(s, proc_of(s, x).ppid) ==> on_chain(
            s,
            self_pid,
            proc_of(s, x).ppid,
        ),
{
    if has_pid(s, self_pid) {
        assert(ancestor(s, self_pid, 0) == self_pid);
        assert forall|j: nat| j <= 0 implies #[trigger] has_pid(s, ancestor(s, self_pid, j)) by {}
    }
    if on_chain(s, self_pid, x) {
        let k = choose|k: nat|
            #![trigger ancestor(s, self_pid, k)]
            ancestor(s, self_pid, k) == x && forall|j: nat|
                j <= k ==> #[trigger] has_pid(s, ancestor(s, self_pid, j));
        assert(has_pid(s, ancestor(s, self_pid, k)));
        if has_pid(s, proc_of(s, x).ppid) {
            assert(ancestor(s, self_pid, k + 1) == proc_of(s, x).ppid);
            assert forall|j: nat| j <= k + 1 implies #[trigger] has_pid(
                s,
                ancestor(s, self_pid, j),
            ) by {
                if j <= k {
                } else {
                    assert(j == k + 1);
                }
            }
        }
    }
}

/// Every entry of a computed visible list is a listed, shown row; its
/// protected flag tells whether its pid is protected; a killable entry is not
/// protected.
pub proof fn lemma_visible_entries(f: ListFilter, rows: Seq<(i32, Seq<char>)>, k: int)
    requires
        0 <= k < visible_spec(f, rows).len(),
    ensures
        ({
            let e = visible_spec(f, rows)[k];
            &&& has_pid(f.procs, e.0)
            &&& row_shown(f, e.0)
            &&& e.2 == row_killable(f, e.0)
            &&& e.3 == f.protected.contains(e.0)
            &&& e.2 ==> !e.3
        }),
    decreases rows.len(),
{
    let rest = visible_spec(f, rows.drop_last());
    if k < rest.len() {
        lemma_visible_entries(f, rows.drop_last(), k);
    }
}

/// A kill never targets a protected process: after the visible list has been
/// rebuilt, the pids that Enter hands to the confirmation exclude the session chain.
pub proof fn law_targets_never_protected(before: App, a: App, t: Seq<i32>, i: int)
    requires
        rebuilt(before, a),
        targets_for(a, t),
        0 <= i < t.len(),
    ensures
        !a.protected@.contains(t[i]),
{
    if selected_targets(a) =~= Set::<i32>::empty() {
        let c = a.cursor as int;
        assert(t == cursor_target(a));
        assert(c < a.visible@.len() && !a.visible@[c].protected);
        assert(rows_spec(a.visible@)[c] == (
            a.visible@[c].pid,
            a.visible@[c].display@,
            a.visible@[c].killable,
            a.visible@[c].protected,
        ));
        lemma_visible_entries(list_filter(before), crate::tree::rows_view(before.full_rows@), c);
    } else {
        assert(t.to_set().contains(t[i]));
    }
}

/// The visible list keeps the tree's order and only drops rows: it is the
/// subsequence of the tree rows that pass the filter, at increasing positions,
/// and every tree row that passes the filter is in it.
pub proof fn law_visible_in_tree_order(f: ListFilter, rows: Seq<(i32, Seq<char>)>) -> (idx: Seq<int>)
    ensures
        idx.len() == visible_spec(f, rows).len(),
        forall|a: int, b: int| 0 <= a < b < idx.len() ==> idx[a] < idx[b],
        forall|k: int|
            0 <= k < idx.len() ==> 0 <= #[trigger] idx[k] < rows.len() && visible_spec(f, rows)[k].0
                == rows[idx[k]].0 && visible_spec(f, rows)[k].1 == rows[idx[k]].1,
        forall|j: int|
            0 <= j < rows.len() && row_shown(f, rows[j].0) ==> exists|k: int|
                0 <= k < idx.len() && #[trigger] idx[k] == j,
    decreases rows.len(),
{
    if rows.len() == 0 {
        Seq::empty()
    } else {
        let prev = law_visible_in_tree_order(f, rows.drop_last());
        let last = rows.len() - 1;
        let idx = if row_shown(f, rows.last().0) {
            prev.push(last)
        } else {
            prev
        };
        assert forall|j: int|
            0 <= j < rows.len() && row_shown(f, rows[j].0) implies exists|k: int|
                0 <= k < idx.len() && #[trigger] idx[k] == j by {
            if j < last {
                assert(rows.drop_last()[j] == rows[j]);
                let k = choose|k: int| 0 <= k < prev.len() && #[trigger] prev[k] == j;
                assert(idx[k] == j);
            } else {
                assert(idx[idx.len() - 1] == j);
            }
        }
        assert forall|k: int| 0 <= k < idx.len() implies 0 <= #[trigger] idx[k] < rows.len()
            && visible_spec(f, rows)[k].0 == rows[idx[k]].0 && visible_spec(f, rows)[k].1
            == rows[idx[k]].1 by {
            if k < prev.len() {
                assert(rows.drop_last()[prev[k]] == rows[prev[k]]);
            }
        }
        idx
    }
}

/// With an empty search and outside the selection view, every listed tree row
/// is visible, in order, and killable exactly when it is not protected.
pub proof fn law_no_terms_show_all(f: ListFilter, rows: Seq<(i32, Seq<char>)>)
    requires
        words(f.input).len() == 0,
        !f.selection_view,
        forall|j: int| 0 <= j < rows.len() ==> has_pid(f.procs, #[trigger] rows[j].0),
    ensures
        visible_spec(f, rows) == Seq::new(
            rows.len(),
            |j: int|
                (
                    rows[j].0,
                    rows[j].1,
                    !f.protected.contains(rows[j].0),
                    f.protected.contains(rows[j].0),
                ),
        ),
    decreases rows.len(),
{
    if rows.len() > 0 {
        assert forall|j: int| 0 <= j < rows.drop_last().len() implies has_pid(
            f.procs,
            #[trigger] rows.drop_last()[j].0,
        ) by {
            assert(rows.drop_last()[j] == rows[j]);
        }
        law_no_terms_show_all(f, rows.drop_last());
        assert(has_pid(f.procs, rows[rows.len() - 1].0));
        assert(visible_spec(f, rows) =~= Seq::new(
            rows.len(),
            |j: int|
                (
                    rows[j].0,
                    rows[j].1,
                    !f.protected.contains(rows[j].0),
                    f.protected.contains(rows[j].0),
                ),
        ));
    } else {
        assert(visible_spec(f, rows) =~= Seq::new(
            rows.len(),
            |j: int|
                (
                    rows[j].0,
                    rows[j].1,
                    !f.protected.contains(rows[j].0),
                    f.protected.contains(rows[j].0),
                ),
        ));
    }
}

/// Pressing Tab twice on an unprotected row leaves the selection as it was.
pub proof fn law_toggle_twice(a: App, b: App, c: App)
    requires
        toggled(a, b),
        toggled(b, c),
        a.cursor < a.visible@.len(),
        !a.visible@[a.cursor as int].protected,
    ensures
        c.selected@ == a.selected@,
        c.message@.len() == 0,
{
    let p = a.visible@[a.cursor as int].pid;
    if a.selected@.contains(p) {
        assert(c.selected@ =~= a.selected@);
    } else {
        assert(c.selected@ =~= a.selected@);
    }
}

/// Nothing is killed without confirmation: a key asks the caller to kill only in
/// the confirmation, only for `y` or `Y`, and only the pids being confirmed; any
/// other key there cancels and returns to browsing.
pub proof fn law_kill_needs_confirmation(before: App, after: App, k: KeyInput, act: Action)
    requires
        key_step(before, after, k, act),
    ensures
        act is Kill ==> k.press && (k.key == Key::Char('y') || k.key == Key::Char('Y')) && (
        before.mode matches Mode::Confirm(t) && act == Action::Kill(t)),
        before.mode is Confirm && k.press ==> after.mode is Normal,
{
}

/// The rows' pids are new (not in `seen`), listed, recorded in `out`, and
/// distinct, and `out` holds nothing else beyond `seen`.
pub open spec fn fresh_rows(s: Seq<Proc>, rows: Seq<(i32, Seq<char>)>, seen: Set<i32>, out: Set<i32>) -> bool {
    &&& seen.subset_of(out)
    &&& forall|x: i32|
        #[trigger] out.contains(x) ==> seen.contains(x) || exists|j: int|
            0 <= j < rows.len() && rows[j].0 == x
    &&& forall|j: int|
        0 <= j < rows.len() ==> has_pid(s, #[trigger] rows[j].0) && out.contains(rows[j].0)
            && !seen.contains(rows[j].0)
    &&& forall|a: int, b: int| 0 <= a < b < rows.len() ==> rows[a].0 != rows[b].0
}

/// Row `j` has its parent's row before it.
pub open spec fn parent_before(s: Seq<Proc>, rows: Seq<(i32, Seq<char>)>, j: int) -> bool {
    exists|i: int| 0 <= i < j && rows[i].0 == proc_of(s, #[trigger] rows[j].0).ppid
}

/// The rows of one subtree walk are fresh, start with the subtree's root, and
/// have each later row's parent before it.
pub proof fn lemma_walk_rows_shape(
    s: Seq<Proc>,
    ch: Map<i32, Vec<i32>>,
    pid: i32,
    top: bool,
    prefix: Seq<char>,
    last: bool,
    seen: Set<i32>,
)
    requires
        pids_increasing(s),
        children_of(s, ch),
    ensures
        ({
            let w = walk_rows(s, ch, pid, top, prefix, last, seen);
            &&& fresh_rows(s, w.0, seen, w.1)
            &&& w.0.len() > 0 ==> w.0[0].0 == pid
            &&& forall|j: int| 0 < j < w.0.len() ==> parent_before(s, w.0, j)
        }),
    decreases unvisited(s, seen), 0nat, 0nat,
{
    let w = walk_rows(s, ch, pid, top, prefix, last, seen);
    if !(seen.contains(pid) || !has_pid(s, pid)) {
        lemma_unvisited_insert(s, seen, pid);
        let seen1 = seen.insert(pid);
        let ks = kids(ch, pid);
        let cp = crate::tree::child_prefix_text(top, prefix, last);
        lemma_walk_kids_shape(s, ch, ks, 0, cp, seen1);
        let rest = walk_kids(s, ch, ks, 0, cp, seen1).0;
        let rows = w.0;
        assert forall|j: int| 0 < j < rows.len() implies parent_before(s, rows, j) by {
            assert(rows[j] == rest[j - 1]);
            if exists|t: int| 0 <= t < ks.len() && rest[j - 1].0 == ks[t] {
                let t = choose|t: int| 0 <= t < ks.len() && rest[j - 1].0 == ks[t];
                lemma_kid_facts(s, ch, pid, t);
                assert(rows[0].0 == proc_of(s, rows[j].0).ppid);
            } else {
                assert(parent_before(s, rest, j - 1));
                let i = choose|i: int| 0 <= i < j - 1 && #[trigger] rest[i].0 == proc_of(s, rest[j - 1].0).ppid;
                assert(rows[i + 1] == rest[i]);
            }
        }
        assert forall|a: int, b: int| 0 <= a < b < rows.len() implies rows[a].0 != rows[b].0 by {
            assert(rows[b] == rest[b - 1]);
            if a > 0 {
                assert(rows[a] == rest[a - 1]);
            }
        }
        assert forall|j: int| 0 <= j < rows.len() implies has_pid(s, #[trigger] rows[j].0)
            && w.1.contains(rows[j].0) && !seen.contains(rows[j].0) by {
            if j > 0 {
                assert(rows[j] == rest[j - 1]);
            }
        }
        assert forall|x: i32| #[trigger] w.1.contains(x) implies seen.contains(x) || exists|j: int|
            0 <= j < rows.len() && rows[j].0 == x by {
            if !seen.contains(x) {
                if x == pid {
                    assert(rows[0].0 == x);
                } else {
                    let j = choose|j: int| 0 <= j < rest.len() && rest[j].0 == x;
                    assert(rows[j + 1] == rest[j]);
                }
            }
        }
    }
}

/// The rows of the walks of `ks[i..]` are fresh, and each row either is one of
/// those children or has its parent's row before it.
pub proof fn lemma_walk_kids_shape(
    s: Seq<Proc>,
    ch: Map<i32, Vec<i32>>,
    ks: Seq<i32>,
    i: int,
    prefix: Seq<char>,
    seen: Set<i32>,
)
    requires
        pids_increasing(s),
        children_of(s, ch),
    ensures
        ({
            let w = walk_kids(s, ch, ks, i, prefix, seen);
            &&& fresh_rows(s, w.0, seen, w.1)
            &&& forall|j: int|
                0 <= j < w.0.len() ==> (exists|t: int| 0 <= t < ks.len() && w.0[j].0 == ks[t])
                    || parent_before(s, w.0, j)
        }),
    decreases unvisited(s, seen), 1nat, ks.len() - i,
{
    if 0 <= i < ks.len() {
        let first = walk_rows(s, ch, ks[i], false, prefix, i == ks.len() - 1, seen);
        lemma_walk_rows_shape(s, ch, ks[i], false, prefix, i == ks.len() - 1, seen);
        lemma_walk_rows_grows(s, ch, ks[i], false, prefix, i == ks.len() - 1, seen);
        lemma_unvisited_subset(s, seen, first.1);
        lemma_walk_kids_shape(s, ch, ks, i + 1, prefix, first.1);
        let rest = walk_kids(s, ch, ks, i + 1, prefix, first.1);
        let rows = first.0 + rest.0;
        let n1 = first.0.len();
        assert forall|j: int| 0 <= j < rows.len() implies has_pid(s, #[trigger] rows[j].0)
            && rest.1.contains(rows[j].0) && !seen.contains(rows[j].0) by {
            if j >= n1 {
                assert(rows[j] == rest.0[j - n1]);
            }
        }
        assert forall|x: i32| #[trigger] rest.1.contains(x) implies seen.contains(x) || exists|j: int|
            0 <= j < rows.len() && rows[j].0 == x by {
            if !first.1.contains(x) {
                let j = choose|j: int| 0 <= j < rest.0.len() && rest.0[j].0 == x;
                assert(rows[j + n1] == rest.0[j]);
            } else if !seen.contains(x) {
                let j = choose|j: int| 0 <= j < first.0.len() && first.0[j].0 == x;
                assert(rows[j] == first.0[j]);
            }
        }
        assert forall|a: int, b: int| 0 <= a < b < rows.len() implies rows[a].0 != rows[b].0 by {
            if b >= n1 {
                assert(rows[b] == rest.0[b - n1]);
                if a >= n1 {
                    assert(rows[a] == rest.0[a - n1]);
                }
            }
        }
        assert forall|j: int| 0 <= j < rows.len() implies (exists|t: int|
            0 <= t < ks.len() && rows[j].0 == ks[t]) || parent_before(s, rows, j) by {
            if j < n1 {
                if j == 0 {
                    assert(rows[0].0 == ks[i]);
                } else {
                    assert(parent_before(s, first.0, j));
                    let q = choose|q: int| 0 <= q < j && #[trigger] first.0[q].0 == proc_of(s, first.0[j].0).ppid;
                    assert(rows[q] == first.0[q]);
                }
            } else {
                assert(rows[j] == rest.0[j - n1]);
                if !(exists|t: int| 0 <= t < ks.len() && rest.0[j - n1].0 == ks[t]) {
                    assert(parent_before(s, rest.0, j - n1));
                    let q = choose|q: int| 0 <= q < j - n1 && #[trigger] rest.0[q].0 == proc_of(s, rest.0[j - n1].0).ppid;
                    assert(rows[q + n1] == rest.0[q]);
                }
            }
        }
    }
}

/// The rows of the walks of the roots `roots[i..]` are fresh, and each row
/// either is one of the roots or has its parent's row before it.
proof fn lemma_walk_forest_shape(
    s: Seq<Proc>,
    ch: Map<i32, Vec<i32>>,
    roots: Seq<i32>,
    i: int,
    seen: Set<i32>,
)
    requires
        pids_increasing(s),
        children_of(s, ch),
    ensures
        ({
            let w = walk_forest(s, ch, roots, i, seen);
            &&& fresh_rows(s, w.0, seen, w.1)
            &&& forall|j: int|
                0 <= j < w.0.len() ==> (exists|t: int| 0 <= t < roots.len() && w.0[j].0 == roots[t])
                    || parent_before(s, w.0, j)
        }),
    decreases roots.len() - i,
{
    if 0 <= i < roots.len() {
        let first = walk_rows(s, ch, roots[i], true, Seq::empty(), true, seen);
        lemma_walk_rows_shape(s, ch, roots[i], true, Seq::empty(), true, seen);
        lemma_walk_forest_shape(s, ch, roots, i + 1, first.1);
        let rest = walk_forest(s, ch, roots, i + 1, first.1);
        let rows = first.0 + rest.0;
        let n1 = first.0.len();
        assert forall|j: int| 0 <= j < rows.len() implies has_pid(s, #[trigger] rows[j].0)
            && rest.1.contains(rows[j].0) && !seen.contains(rows[j].0) by {
            if j >= n1 {
                assert(rows[j] == rest.0[j - n1]);
            }
        }
        assert forall|x: i32| #[trigger] rest.1.contains(x) implies seen.contains(x) || exists|j: int|
            0 <= j < rows.len() && rows[j].0 == x by {
            if !first.1.contains(x) {
                let j = choose|j: int| 0 <= j < rest.0.len() && rest.0[j].0 == x;
                assert(rows[j + n1] == rest.0[j]);
            } else if !seen.contains(x) {
                let j = choose|j: int| 0 <= j < first.0.len() && first.0[j].0 == x;
                assert(rows[j] == first.0[j]);
            }
        }
        assert forall|a: int, b: int| 0 <= a < b < rows.len() implies rows[a].0 != rows[b].0 by {
            if b >= n1 {
                assert(rows[b] == rest.0[b - n1]);
                if a >= n1 {
                    assert(rows[a] == rest.0[a - n1]);
                }
            }
        }
        assert forall|j: int| 0 <= j < rows.len() implies (exists|t: int|
            0 <= t < roots.len() && rows[j].0 == roots[t]) || parent_before(s, rows, j) by {
            if j < n1 {
                if j == 0 {
                    assert(rows[0].0 == roots[i]);
                } else {
                    assert(parent_before(s, first.0, j));
                    let q = choose|q: int| 0 <= q < j && #[trigger] first.0[q].0 == proc_of(s, first.0[j].0).ppid;
                    assert(rows[q] == first.0[q]);
                }
            } else {
                assert(rows[j] == rest.0[j - n1]);
                if !(exists|t: int| 0 <= t < roots.len() && rest.0[j - n1].0 == roots[t]) {
                    assert(parent_before(s, rest.0, j - n1));
                    let q = choose|q: int| 0 <= q < j - n1 && #[trigger] rest.0[q].0 == proc_of(s, rest.0[j - n1].0).ppid;
                    assert(rows[q + n1] == rest.0[q]);
                }
            }
        }
    }
}

/// A root's parent is not listed.
proof fn lemma_root_parent_unlisted(s: Seq<Proc>, t: Seq<Proc>, k: int)
    requires
        pids_increasing(s),
        t.len() <= s.len(),
        t == s.take(t.len() as int),
        0 <= k < roots_of_in(s, t).len(),
    ensures
        !has_pid(s, proc_of(s, roots_of_in(s, t)[k]).ppid),
    decreases t.len(),
{
    let rest = roots_of_in(s, t.drop_last());
    assert(t.drop_last() == s.take(t.len() - 1));
    if k < rest.len() {
        lemma_root_parent_unlisted(s, t.drop_last(), k);
    } else {
        assert(s[t.len() - 1] == t.last());
        lemma_pid_index_unique(s, t.len() - 1);
    }
}

/// The walk of one subtree marks its listed top as seen, and for every pid it
/// newly marks, the children of that pid too.
proof fn lemma_walk_rows_closed(
    s: Seq<Proc>,
    ch: Map<i32, Vec<i32>>,
    pid: i32,
    top: bool,
    prefix: Seq<char>,
    last: bool,
    seen: Set<i32>,
)
    requires
        pids_increasing(s),
        children_of(s, ch),
    ensures
        ({
            let w = walk_rows(s, ch, pid, top, prefix, last, seen);
            &&& has_pid(s, pid) ==> w.1.contains(pid)
            &&& forall|q: i32, j: int|
                #![trigger w.1.contains(q), kids(ch, q)[j]]
                w.1.contains(q) && !seen.contains(q) && 0 <= j < kids(ch, q).len() ==> w.1.contains(
                    kids(ch, q)[j],
                )
        }),
    decreases unvisited(s, seen), 0nat, 0nat,
{
    lemma_walk_rows_grows(s, ch, pid, top, prefix, last, seen);
    if !(seen.contains(pid) || !has_pid(s, pid)) {
        lemma_unvisited_insert(s, seen, pid);
        let seen1 = seen.insert(pid);
        let ks = kids(ch, pid);
        let cp = crate::tree::child_prefix_text(top, prefix, last);
        lemma_walk_kids_closed(s, ch, pid, ks, 0, cp, seen1);
        lemma_walk_kids_grows(s, ch, ks, 0, cp, seen1);
    }
}

/// The walks of the children `ks[i..]` of `p` mark each of them as seen, and for
/// every pid they newly mark, the children of that pid too.
proof fn lemma_walk_kids_closed(
    s: Seq<Proc>,
    ch: Map<i32, Vec<i32>>,
    p: i32,
    ks: Seq<i32>,
    i: int,
    prefix: Seq<char>,
    seen: Set<i32>,
)
    requires
        pids_increasing(s),
        children_of(s, ch),
        ks == kids(ch, p),
        0 <= i,
    ensures
        ({
            let w = walk_kids(s, ch, ks, i, prefix, seen);
            &&& forall|j: int| i <= j < ks.len() ==> w.1.contains(#[trigger] ks[j])
            &&& forall|q: i32, j: int|
                #![trigger w.1.contains(q), kids(ch, q)[j]]
                w.1.contains(q) && !seen.contains(q) && 0 <= j < kids(ch, q).len() ==> w.1.contains(
                    kids(ch, q)[j],
                )
        }),
    decreases unvisited(s, seen), 1nat, ks.len() - i,
{
    if i < ks.len() {
        lemma_kid_facts(s, ch, p, i);
        let first = walk_rows(s, ch, ks[i], false, prefix, i == ks.len() - 1, seen);
        lemma_walk_rows_closed(s, ch, ks[i], false, prefix, i == ks.len() - 1, seen);
        lemma_walk_rows_grows(s, ch, ks[i], false, prefix, i == ks.len() - 1, seen);
        lemma_unvisited_subset(s, seen, first.1);
        lemma_walk_kids_closed(s, ch, p, ks, i + 1, prefix, first.1);
        lemma_walk_kids_grows(s, ch, ks, i + 1, prefix, first.1);
        let w = walk_kids(s, ch, ks, i, prefix, seen);
        assert forall|q: i32, j: int|
            #![trigger w.1.contains(q), kids(ch, q)[j]]
            w.1.contains(q) && !seen.contains(q) && 0 <= j < kids(ch, q).len() implies w.1.contains(
                kids(ch, q)[j],
            ) by {
            if first.1.contains(q) {
                assert(first.1.contains(kids(ch, q)[j]));
            }
        }
    }
}

/// The walks from the starts `starts[i..]` mark each listed start as seen,
/// and for every pid they newly mark, the children of that pid too.
proof fn lemma_walk_forest_closed(
    s: Seq<Proc>,
    ch: Map<i32, Vec<i32>>,
    starts: Seq<i32>,
    i: int,
    seen: Set<i32>,
)
    requires
        pids_increasing(s),
        children_of(s, ch),
        0 <= i,
    ensures
        ({
            let w = walk_forest(s, ch, starts, i, seen);
            &&& seen.subset_of(w.1)
            &&& forall|j: int| i <= j < starts.len() && has_pid(s, #[trigger] starts[j]) ==> w.1.contains(starts[j])
            &&& forall|q: i32, j: int|
                #![trigger w.1.contains(q), kids(ch, q)[j]]
                w.1.contains(q) && !seen.contains(q) && 0 <= j < kids(ch, q).len() ==> w.1.contains(
                    kids(ch, q)[j],
                )
        }),
    decreases starts.len() - i,
{
    if i < starts.len() {
        let first = walk_rows(s, ch, starts[i], true, Seq::empty(), true, seen);
        lemma_walk_rows_closed(s, ch, starts[i], true, Seq::empty(), true, seen);
        lemma_walk_rows_grows(s, ch, starts[i], true, Seq::empty(), true, seen);
        lemma_walk_forest_closed(s, ch, starts, i + 1, first.1);
        let w = walk_forest(s, ch, starts, i, seen);
        assert forall|q: i32, j: int|
            #![trigger w.1.contains(q), kids(ch, q)[j]]
            w.1.contains(q) && !seen.contains(q) && 0 <= j < kids(ch, q).len() implies w.1.contains(
                kids(ch, q)[j],
            ) by {
            if first.1.contains(q) {
                assert(first.1.contains(kids(ch, q)[j]));
            }
        }
    }
}

/// Walking from the starts `b[k..]` after the starts `a` is walking from `b[k..]` alone.
proof fn lemma_walk_forest_shift(
    s: Seq<Proc>,
    ch: Map<i32, Vec<i32>>,
    a: Seq<i32>,
    b: Seq<i32>,
    k: int,
    seen: Set<i32>,
)
    requires
        0 <= k,
    ensures
        walk_forest(s, ch, a + b, a.len() + k, seen) == walk_forest(s, ch, b, k, seen),
    decreases b.len() - k,
{
    if k < b.len() {
        assert((a + b)[a.len() + k] == b[k]);
        let first = walk_rows(s, ch, b[k], true, Seq::empty(), true, seen);
        lemma_walk_forest_shift(s, ch, a, b, k + 1, first.1);
    }
}

/// The walks from the starts `a + b` are those from `a`, then those from `b`
/// with what `a` saw.
proof fn lemma_walk_forest_split(
    s: Seq<Proc>,
    ch: Map<i32, Vec<i32>>,
    a: Seq<i32>,
    b: Seq<i32>,
    i: int,
    seen: Set<i32>,
)
    requires
        0 <= i <= a.len(),
    ensures
        ({
            let wa = walk_forest(s, ch, a, i, seen);
            let wb = walk_forest(s, ch, b, 0, wa.1);
            walk_forest(s, ch, a + b, i, seen) == (wa.0 + wb.0, wb.1)
        }),
    decreases a.len() - i,
{
    if i < a.len() {
        assert((a + b)[i] == a[i]);
        let first = walk_rows(s, ch, a[i], true, Seq::empty(), true, seen);
        lemma_walk_forest_split(s, ch, a, b, i + 1, first.1);
        let wa = walk_forest(s, ch, a, i + 1, first.1);
        let wb = walk_forest(s, ch, b, 0, wa.1);
        assert(first.0 + (wa.0 + wb.0) =~= (first.0 + wa.0) + wb.0);
    } else {
        lemma_walk_forest_shift(s, ch, a, b, 0, seen);
        let wb = walk_forest(s, ch, b, 0, seen);
        assert(Seq::<(i32, Seq<char>)>::empty() + wb.0 =~= wb.0);
    }
}

/// A set that holds every listed root and the children of each of its members
/// holds every rooted process.
proof fn lemma_rooted_in(s: Seq<Proc>, ch: Map<i32, Vec<i32>>, out: Set<i32>, x: i32, n: nat)
    requires
        pids_increasing(s),
        children_of(s, ch),
        forall|r: i32|
            #![trigger roots_of_in(s, s).contains(r)]
            roots_of_in(s, s).contains(r) && has_pid(s, r) ==> out.contains(r),
        forall|q: i32, j: int|
            #![trigger out.contains(q), kids(ch, q)[j]]
            out.contains(q) && 0 <= j < kids(ch, q).len() ==> out.contains(kids(ch, q)[j]),
        rooted_at(s, x, n),
    ensures
        out.contains(x),
    decreases n,
{
    assert(ancestor(s, x, 0) == x);
    assert(has_pid(s, x));
    let i = crate::procs::pid_index(s, x);
    lemma_pid_index_unique(s, i);
    assert(ancestor(s, x, 1) == proc_of(s, x).ppid);
    if n == 0 {
        lemma_root_listed(s, s, i);
    } else {
        let p = proc_of(s, x).ppid;
        assert(has_pid(s, ancestor(s, x, 1)));
        lemma_rooted_parent(s, x, n);
        lemma_rooted_in(s, ch, out, p, (n - 1) as nat);
        lemma_in_child_pids(s, p, i);
        let c = crate::tree::child_pids(s, p);
        let j = choose|j: int| 0 <= j < c.len() && c[j] == x;
        assert(ch.contains_key(p));
        assert(kids(ch, p)[j] == x);
        assert(out.contains(kids(ch, p)[j]));
    }
}

/// The tree rows list each listed process exactly once, and draw every process
/// whose ancestor chain ends at a displayed root under its real parent: the
/// row of such a process whose parent is listed comes after its parent's row.
/// (A process on a loop of parent links is drawn too, at the top level where
/// the loop is first met.)
pub proof fn law_tree_rows(s: Seq<Proc>, ch: Map<i32, Vec<i32>>, j: int, k: int)
    requires
        pids_increasing(s),
        children_of(s, ch),
        0 <= j < tree_rows(s, ch).len(),
        0 <= k < tree_rows(s, ch).len(),
    ensures
        ({
            let rows = tree_rows(s, ch);
            &&& has_pid(s, rows[j].0)
            &&& j != k ==> rows[j].0 != rows[k].0
            &&& rooted(s, rows[j].0) && has_pid(s, proc_of(s, rows[j].0).ppid) ==> parent_before(
                s,
                rows,
                j,
            )
        }),
{
    let roots = roots_of_in(s, s);
    let pids = crate::tree::all_pids(s);
    let rows = tree_rows(s, ch);
    let w1 = walk_forest(s, ch, roots, 0, Set::empty());
    let w2 = walk_forest(s, ch, pids, 0, w1.1);
    lemma_walk_forest_split(s, ch, roots, pids, 0, Set::empty());
    assert(rows == w1.0 + w2.0);
    lemma_walk_forest_shape(s, ch, start_pids(s), 0, Set::empty());
    if j > k {
        assert(rows[k].0 != rows[j].0);
    }
    let x = rows[j].0;
    if rooted(s, x) && has_pid(s, proc_of(s, x).ppid) {
        let n = choose|n: nat| rooted_at(s, x, n);
        lemma_walk_forest_shape(s, ch, roots, 0, Set::empty());
        lemma_walk_forest_shape(s, ch, pids, 0, w1.1);
        lemma_walk_forest_closed(s, ch, roots, 0, Set::empty());
        assert forall|r: i32|
            #![trigger roots_of_in(s, s).contains(r)]
            roots_of_in(s, s).contains(r) && has_pid(s, r) implies w1.1.contains(r) by {
            let t = choose|t: int| 0 <= t < roots.len() && roots[t] == r;
            assert(has_pid(s, roots[t]));
        }
        lemma_rooted_in(s, ch, w1.1, x, n);
        if j >= w1.0.len() {
            assert(rows[j] == w2.0[j - w1.0.len()]);
        }
        assert(rows[j] == w1.0[j]);
        assert(s.take(s.len() as int) == s);
        if exists|t: int| 0 <= t < roots.len() && x == roots[t] {
            let t = choose|t: int| 0 <= t < roots.len() && x == roots[t];
            lemma_root_parent_unlisted(s, s, t);
        }
        assert(parent_before(s, w1.0, j));
        let i = choose|i: int| 0 <= i < j && w1.0[i].0 == proc_of(s, #[trigger] w1.0[j].0).ppid;
        assert(rows[i] == w1.0[i]);
    }
}

/// Every listed process has a row in the tree display.
pub proof fn law_every_process_has_a_row(s: Seq<Proc>, ch: Map<i32, Vec<i32>>, x: i32)
    requires
        pids_increasing(s),
        children_of(s, ch),
        has_pid(s, x),
    ensures
        exists|j: int| 0 <= j < tree_rows(s, ch).len() && tree_rows(s, ch)[j].0 == x,
{
    let starts = start_pids(s);
    let roots = roots_of_in(s, s);
    lemma_walk_forest_closed(s, ch, starts, 0, Set::empty());
    lemma_walk_forest_shape(s, ch, starts, 0, Set::empty());
    let i = crate::procs::pid_index(s, x);
    assert(s[i].pid == x);
    assert(crate::tree::all_pids(s)[i] == x);
    assert(starts[roots.len() + i] == x);
    let w = walk_forest(s, ch, starts, 0, Set::empty());
    assert(has_pid(s, starts[roots.len() + i]));
    assert(w.1.contains(x));
    assert(!Set::<i32>::empty().contains(x));
    let j = choose|j: int| 0 <= j < w.0.len() && w.0[j].0 == x;
    assert(tree_rows(s, ch)[j].0 == x);
}

/// The rows of the whole tree display of the table `s`.
pub open spec fn tree_rows(s: Seq<Proc>, ch: Map<i32, Vec<i32>>) -> Seq<(i32, Seq<char>)> {
    walk_forest(s, ch, start_pids(s), 0, Set::empty()).0
}

/// The search texts computed for the table `s`.
pub open spec fn search_cache(s: Seq<Proc>, ch: Map<i32, Vec<i32>>) -> Map<i32, Seq<char>> {
    search_forest(s, ch, start_pids(s), 0, Map::empty(), Set::empty()).0
}

/// A refresh keeps every listed process with its parent, and stores its cached
/// search text when it has one.
proof fn lemma_applied_search(s: Seq<Proc>, cache: Map<i32, Seq<char>>, t: Seq<Proc>, x: i32)
    requires
        pids_increasing(s),
        searches_applied(s, cache, t),
        has_pid(s, x),
    ensures
        has_pid(t, x),
        proc_of(t, x).ppid == proc_of(s, x).ppid,
        cache.contains_key(x) ==> proc_of(t, x).search@ == cache[x],
{
    let i = crate::procs::pid_index(s, x);
    lemma_pid_index_unique(s, i);
    assert(t[i] == (Proc { search: t[i].search, ..s[i] }));
    assert forall|a: int, b: int| 0 <= a < b < t.len() implies t[a].pid < t[b].pid by {
        assert(t[a] == (Proc { search: t[a].search, ..s[a] }));
        assert(t[b] == (Proc { search: t[b].search, ..s[b] }));
    }
    lemma_pid_index_unique(t, i);
}

/// Parents are shown with their matches: when a visible row's process, whose
/// ancestor chain ends at a displayed root, has a listed parent, the parent's
/// row is visible too, above it. In the selection view this holds of every
/// text. Outside it, it holds when every process's own text ("<pid> <name>")
/// is ASCII, or just the parent's search text is, or when every search term is
/// case-sensitive (holds an uppercase character). The
/// filter's table is the table `s` with the search texts that a refresh
/// computes for it, and the rows are the tree rows of `s`.
pub proof fn law_parents_shown(s: Seq<Proc>, ch: Map<i32, Vec<i32>>, f: ListFilter, k: int)
    requires
        pids_increasing(s),
        children_of(s, ch),
        searches_applied(s, search_cache(s, ch), f.procs),
        0 <= k < visible_spec(f, tree_rows(s, ch)).len(),
        has_pid(s, proc_of(s, visible_spec(f, tree_rows(s, ch))[k].0).ppid),
        rooted(s, visible_spec(f, tree_rows(s, ch))[k].0),
        f.selection_view || (forall|t: int|
            0 <= t < words(f.input).len() ==> has_uppercase(#[trigger] words(f.input)[t]))
            || crate::subtree::ascii_owns(s) || ascii_text(
            proc_of(f.procs, proc_of(s, visible_spec(f, tree_rows(s, ch))[k].0).ppid).search@,
        ),
    ensures
        ({
            let v = visible_spec(f, tree_rows(s, ch));
            exists|i: int| 0 <= i < k && v[i].0 == proc_of(s, v[k].0).ppid
        }),
{
    let rows = tree_rows(s, ch);
    let v = visible_spec(f, rows);
    let c = search_cache(s, ch);
    let x = v[k].0;
    let p = proc_of(s, x).ppid;
    let idx = law_visible_in_tree_order(f, rows);
    let j = idx[k];
    assert(rows[j].0 == x);
    lemma_visible_entries(f, rows, k);
    law_tree_rows(s, ch, j, j);
    let i = choose|i: int| 0 <= i < j && rows[i].0 == proc_of(s, #[trigger] rows[j].0).ppid;
    lemma_walk_forest_shape(s, ch, start_pids(s), 0, Set::empty());
    assert(has_pid(s, x));
    lemma_applied_search(s, c, f.procs, x);
    lemma_applied_search(s, c, f.procs, p);
    if f.selection_view {
        let sel = choose|sel: i32| #[trigger] f.selected.contains(sel) && on_chain(f.procs, sel, x);
        law_protected_chain(f.procs, sel, x);
        assert(crate::app::kept_for_selection(f.procs, f.selected, p));
    } else {
        let n = choose|n: nat| rooted_at(s, x, n);
        lemma_parent_text_holds_child(s, ch, x, n);
        let sx = proc_of(f.procs, x).search@;
        let sp = proc_of(f.procs, p).search@;
        let terms = words(f.input);
        if crate::subtree::ascii_owns(s) {
            crate::subtree::lemma_search_forest_ascii(s, ch, start_pids(s), 0, Map::empty(), Set::empty());
            assert(ascii_text(c[p]));
        }
        assert(contains_text(sp, sx));
        if terms.len() != 0 {
            assert(all_match(sx, terms));
            assert forall|t: int| 0 <= t < terms.len() implies term_matches(sp, #[trigger] terms[t]) by {
                assert(term_matches(sx, terms[t]));
                if has_uppercase(terms[t]) {
                    lemma_contains_trans(sp, sx, terms[t]);
                } else {
                    lemma_ascii_inside(sp, sx);
                    lemma_ascii_lower_contains(sp, sx);
                    lemma_contains_trans(ascii_lower(sp), ascii_lower(sx), lowered(terms[t]));
                }
            }
        }
    }
    assert(row_shown(f, p));
    let q = choose|q: int| 0 <= q < idx.len() && #[trigger] idx[q] == i;
    if q >= k {
        if q > k {
            assert(idx[k] < idx[q]);
        }
    }
    assert(v[q].0 == p);
}

/// Two filters that show the same rows, with the same killable and protected
/// flags, give the same visible list.
proof fn lemma_visible_spec_same(f1: ListFilter, f2: ListFilter, rows: Seq<(i32, Seq<char>)>)
    requires
        f1.protected == f2.protected,
        forall|pid: i32| #[trigger] row_shown(f1, pid) == row_shown(f2, pid),
        forall|pid: i32| row_shown(f1, pid) ==> #[trigger] row_killable(f1, pid) == row_killable(f2, pid),
    ensures
        visible_spec(f1, rows) == visible_spec(f2, rows),
    decreases rows.len(),
{
    if rows.len() > 0 {
        lemma_visible_spec_same(f1, f2, rows.drop_last());
        let x = rows.last().0;
        assert(row_shown(f1, x) == row_shown(f2, x));
    }
}

/// The key event of typing the character `c`.
pub open spec fn typed(c: char) -> KeyInput {
    KeyInput { key: Key::Char(c), ctrl: false, ctrl_only: false, press: true }
}

/// The key event of pressing Backspace.
pub open spec fn backspace() -> KeyInput {
    KeyInput { key: Key::Backspace, ctrl: false, ctrl_only: false, press: true }
}

/// Backspace undoes a typed character: while browsing, typing a character and
/// then pressing Backspace gives back the search input, and the visible list and
/// the selection that rebuilding the list from the first state gives.
pub proof fn law_backspace_undoes_typing(
    a: App,
    b: App,
    c: App,
    r: App,
    ch: char,
    act1: Action,
    act2: Action,
)
    requires
        a.mode is Normal,
        key_step(a, b, typed(ch), act1),
        key_step(b, c, backspace(), act2),
        rebuilt(a, r),
    ensures
        c.input@ == a.input@,
        rows_spec(c.visible@) == rows_spec(r.visible@),
        c.selected@ == r.selected@,
        act1 is Nothing && act2 is Nothing,
{
    assert(c.input@ == a.input@.push(ch).drop_last());
    assert(a.input@.push(ch).drop_last() =~= a.input@);
    let fa = list_filter(a);
    let fc = list_filter(App { input: c.input, ..b });
    assert forall|pid: i32| #[trigger] row_shown(fa, pid) == row_shown(fc, pid) by {
        if fa.selection_view && has_pid(fa.procs, pid) {
            if crate::app::kept_for_selection(fa.procs, fa.selected, pid) {
                let q = choose|q: i32| #[trigger] fa.selected.contains(q) && on_chain(fa.procs, q, pid);
                law_protected_chain(fa.procs, q, q);
                let k = choose|k: nat|
                    #![trigger ancestor(fa.procs, q, k)]
                    ancestor(fa.procs, q, k) == pid && forall|j: nat|
                        j <= k ==> #[trigger] has_pid(fa.procs, ancestor(fa.procs, q, j));
                assert(has_pid(fa.procs, ancestor(fa.procs, q, 0)));
                assert(fc.selected.contains(q));
            }
            if crate::app::kept_for_selection(fc.procs, fc.selected, pid) {
                let q = choose|q: i32| #[trigger] fc.selected.contains(q) && on_chain(fc.procs, q, pid);
                assert(fa.selected.contains(q));
            }
        }
    }
    lemma_visible_spec_same(fa, fc, crate::tree::rows_view(a.full_rows@));
    assert(c.selected@ =~= r.selected@);
}

/// A space after a text adds no word.
proof fn lemma_words_space(a: Seq<char>)
    ensures
        words(a + seq![' ']) == words(a),
{
    let b = a + seq![' '];
    assert(b.drop_last() =~= a);
    assert(crate::text::is_ws(b.last()));
}

/// A word of `k` non-white-space characters typed after a space is one more word.
proof fn lemma_words_push_word(a: Seq<char>, w: Seq<char>, k: int)
    requires
        1 <= k <= w.len(),
        forall|i: int| 0 <= i < w.len() ==> !crate::text::is_ws(#[trigger] w[i]),
    ensures
        words(a + seq![' '] + w.take(k)) == words(a).push(w.take(k)),
    decreases k,
{
    let b = a + seq![' '] + w.take(k);
    assert(b.drop_last() =~= a + seq![' '] + w.take(k - 1));
    assert(b.last() == w[k - 1]);
    if k == 1 {
        lemma_words_space(a);
        assert(a + seq![' '] + w.take(0) =~= a + seq![' ']);
        assert(b[b.len() - 2] == ' ');
        assert(w.take(1) =~= seq![w[0]]);
    } else {
        lemma_words_push_word(a, w, k - 1);
        assert(b[b.len() - 2] == w[k - 2]);
        let ws = words(a).push(w.take(k - 1));
        assert(w.take(k - 1).push(w[k - 1]) =~= w.take(k));
        assert(ws.last() == w.take(k - 1));
        assert(ws.update(ws.len() - 1, ws.last().push(w[k - 1])) =~= words(a).push(w.take(k)));
    }
}

/// An extra search term only narrows the list: after a space and one more
/// word are typed, every visible row was visible before, and a row that is
/// killable now was killable before.
pub proof fn law_extra_term_narrows(
    f1: ListFilter,
    f2: ListFilter,
    w: Seq<char>,
    rows: Seq<(i32, Seq<char>)>,
    k: int,
)
    requires
        f2 == (ListFilter { input: f1.input + seq![' '] + w, ..f1 }),
        w.len() > 0,
        forall|i: int| 0 <= i < w.len() ==> !crate::text::is_ws(#[trigger] w[i]),
        0 <= k < visible_spec(f2, rows).len(),
    ensures
        exists|i: int|
            0 <= i < visible_spec(f1, rows).len() && visible_spec(f1, rows)[i].0 == visible_spec(
                f2,
                rows,
            )[k].0 && (visible_spec(f2, rows)[k].2 ==> visible_spec(f1, rows)[i].2),
{
    lemma_words_push_word(f1.input, w, w.len() as int);
    assert(w.take(w.len() as int) =~= w);
    let t1 = words(f1.input);
    let t2 = words(f2.input);
    assert(t2 == t1.push(w));
    let v2 = visible_spec(f2, rows);
    let x = v2[k].0;
    lemma_visible_entries(f2, rows, k);
    let idx1 = law_visible_in_tree_order(f1, rows);
    let idx2 = law_visible_in_tree_order(f2, rows);
    let j = idx2[k];
    assert(rows[j].0 == x);
    if !f1.selection_view && t1.len() != 0 {
        assert(all_match(proc_of(f2.procs, x).search@, t2));
        assert forall|q: int| 0 <= q < t1.len() implies term_matches(
            proc_of(f1.procs, x).search@,
            #[trigger] t1[q],
        ) by {
            assert(t2[q] == t1[q]);
        }
        if v2[k].2 {
            assert forall|q: int| 0 <= q < t1.len() implies term_matches(
                proc_of(f1.procs, x).own@,
                #[trigger] t1[q],
            ) by {
                assert(t2[q] == t1[q]);
            }
        }
    }
    assert(row_shown(f1, x));
    let i = choose|i: int| 0 <= i < idx1.len() && #[trigger] idx1[i] == j;
    lemma_visible_entries(f1, rows, i);
}

/// Two children maps of the same table list the same children for every pid.
proof fn lemma_kids_agree(s: Seq<Proc>, ch1: Map<i32, Vec<i32>>, ch2: Map<i32, Vec<i32>>, p: i32)
    requires
        children_of(s, ch1),
        children_of(s, ch2),
    ensures
        kids(ch1, p) == kids(ch2, p),
{
    assert(ch1.contains_key(p) == ch2.contains_key(p) && (ch1.contains_key(p) ==> ch1[p]@
        == crate::tree::child_pids(s, p)));
    assert(ch2.contains_key(p) ==> ch2[p]@ == crate::tree::child_pids(s, p));
}

/// The walk of one subtree depends on the children map only through the lists it gives.
proof fn lemma_walk_rows_agree(
    s: Seq<Proc>,
    ch1: Map<i32, Vec<i32>>,
    ch2: Map<i32, Vec<i32>>,
    pid: i32,
    top: bool,
    prefix: Seq<char>,
    last: bool,
    seen: Set<i32>,
)
    requires
        children_of(s, ch1),
        children_of(s, ch2),
    ensures
        walk_rows(s, ch1, pid, top, prefix, last, seen) == walk_rows(s, ch2, pid, top, prefix, last, seen),
    decreases unvisited(s, seen), 0nat, 0nat,
{
    if !(seen.contains(pid) || !has_pid(s, pid)) {
        lemma_unvisited_insert(s, seen, pid);
        lemma_kids_agree(s, ch1, ch2, pid);
        lemma_walk_kids_agree(
            s,
            ch1,
            ch2,
            kids(ch1, pid),
            0,
            crate::tree::child_prefix_text(top, prefix, last),
            seen.insert(pid),
        );
    }
}

/// The walks of a children list depend on the children map only through the lists it gives.
proof fn lemma_walk_kids_agree(
    s: Seq<Proc>,
    ch1: Map<i32, Vec<i32>>,
    ch2: Map<i32, Vec<i32>>,
    ks: Seq<i32>,
    i: int,
    prefix: Seq<char>,
    seen: Set<i32>,
)
    requires
        children_of(s, ch1),
        children_of(s, ch2),
    ensures
        walk_kids(s, ch1, ks, i, prefix, seen) == walk_kids(s, ch2, ks, i, prefix, seen),
    decreases unvisited(s, seen), 1nat, ks.len() - i,
{
    if 0 <= i < ks.len() {
        lemma_walk_rows_agree(s, ch1, ch2, ks[i], false, prefix, i == ks.len() - 1, seen);
        lemma_walk_rows_grows(s, ch1, ks[i], false, prefix, i == ks.len() - 1, seen);
        let first = walk_rows(s, ch1, ks[i], false, prefix, i == ks.len() - 1, seen);
        lemma_unvisited_subset(s, seen, first.1);
        lemma_walk_kids_agree(s, ch1, ch2, ks, i + 1, prefix, first.1);
    }
}

/// The walks from a list of starts depend on the children map only through the lists it gives.
proof fn lemma_walk_forest_agree(
    s: Seq<Proc>,
    ch1: Map<i32, Vec<i32>>,
    ch2: Map<i32, Vec<i32>>,
    starts: Seq<i32>,
    i: int,
    seen: Set<i32>,
)
    requires
        children_of(s, ch1),
        children_of(s, ch2),
    ensures
        walk_forest(s, ch1, starts, i, seen) == walk_forest(s, ch2, starts, i, seen),
    decreases starts.len() - i,
{
    if 0 <= i < starts.len() {
        lemma_walk_rows_agree(s, ch1, ch2, starts[i], true, Seq::empty(), true, seen);
        let first = walk_rows(s, ch1, starts[i], true, Seq::empty(), true, seen);
        lemma_walk_forest_agree(s, ch1, ch2, starts, i + 1, first.1);
    }
}

/// One search text depends on the children map only through the lists it gives.
proof fn lemma_search_text_agree(
    s: Seq<Proc>,
    ch1: Map<i32, Vec<i32>>,
    ch2: Map<i32, Vec<i32>>,
    pid: i32,
    cache: Map<i32, Seq<char>>,
    seen: Set<i32>,
)
    requires
        children_of(s, ch1),
        children_of(s, ch2),
    ensures
        crate::tree::search_text(s, ch1, pid, cache, seen) == crate::tree::search_text(s, ch2, pid, cache, seen),
    decreases unvisited(s, seen), 0nat, 0nat,
{
    if !cache.contains_key(pid) && !(seen.contains(pid) || !has_pid(s, pid)) {
        lemma_unvisited_insert(s, seen, pid);
        lemma_kids_agree(s, ch1, ch2, pid);
        lemma_search_kids_agree(s, ch1, ch2, kids(ch1, pid), 0, cache, seen.insert(pid));
    }
}

/// The search texts of a children list depend on the children map only through the lists it gives.
proof fn lemma_search_kids_agree(
    s: Seq<Proc>,
    ch1: Map<i32, Vec<i32>>,
    ch2: Map<i32, Vec<i32>>,
    ks: Seq<i32>,
    i: int,
    cache: Map<i32, Seq<char>>,
    seen: Set<i32>,
)
    requires
        children_of(s, ch1),
        children_of(s, ch2),
    ensures
        crate::tree::search_kids(s, ch1, ks, i, cache, seen) == crate::tree::search_kids(s, ch2, ks, i, cache, seen),
    decreases unvisited(s, seen), 1nat, ks.len() - i,
{
    if 0 <= i < ks.len() {
        lemma_search_text_agree(s, ch1, ch2, ks[i], cache, seen);
        crate::tree::lemma_search_text_grows(s, ch1, ks[i], cache, seen);
        let first = crate::tree::search_text(s, ch1, ks[i], cache, seen);
        lemma_unvisited_subset(s, seen, first.2);
        lemma_search_kids_agree(s, ch1, ch2, ks, i + 1, first.1, first.2);
    }
}

/// The search texts from a list of starts depend on the children map only
/// through the lists it gives.
proof fn lemma_search_forest_agree(
    s: Seq<Proc>,
    ch1: Map<i32, Vec<i32>>,
    ch2: Map<i32, Vec<i32>>,
    starts: Seq<i32>,
    i: int,
    cache: Map<i32, Seq<char>>,
    seen: Set<i32>,
)
    requires
        children_of(s, ch1),
        children_of(s, ch2),
    ensures
        search_forest(s, ch1, starts, i, cache, seen) == search_forest(s, ch2, starts, i, cache, seen),
    decreases starts.len() - i,
{
    if 0 <= i < starts.len() {
        lemma_search_text_agree(s, ch1, ch2, starts[i], cache, seen);
        let first = crate::tree::search_text(s, ch1, starts[i], cache, seen);
        lemma_search_forest_agree(s, ch1, ch2, starts, i + 1, first.1, first.2);
    }
}

/// `first_with_pid` gives the first position holding the pid, or none when no
/// position holds it.
proof fn lemma_first_with_pid(v: Seq<(i32, Seq<char>, bool, bool)>, p: i32)
    ensures
        match crate::app::first_with_pid(v, p) {
            Some(i) => 0 <= i < v.len() && v[i].0 == p && forall|j: int| 0 <= j < i ==> v[j].0 != p,
            None => forall|j: int| 0 <= j < v.len() ==> v[j].0 != p,
        },
    decreases v.len(),
{
    if v.len() > 0 {
        lemma_first_with_pid(v.drop_last(), p);
        match crate::app::first_with_pid(v.drop_last(), p) {
            Some(i) => {
                assert(v.drop_last()[i] == v[i]);
                assert forall|j: int| 0 <= j < i implies v[j].0 != p by {
                    assert(v.drop_last()[j] == v[j]);
                }
            },
            None => {
                assert forall|j: int| 0 <= j < v.len() - 1 implies v[j].0 != p by {
                    assert(v.drop_last()[j] == v[j]);
                }
            },
        }
    }
}

/// A table after a refresh holds the texts the refresh computed: two tables
/// that both do so have the same pids, parents and texts.
proof fn lemma_applied_agree(
    s: Seq<Proc>,
    cache: Map<i32, Seq<char>>,
    t1: Seq<Proc>,
    t2: Seq<Proc>,
    x: i32,
)
    requires
        pids_increasing(s),
        searches_applied(s, cache, t1),
        searches_applied(s, cache, t2),
    ensures
        has_pid(t1, x) == has_pid(s, x),
        has_pid(t2, x) == has_pid(s, x),
        has_pid(s, x) ==> proc_of(t1, x).search@ == proc_of(t2, x).search@ && proc_of(t1, x).own
            == proc_of(t2, x).own,
{
    if has_pid(t1, x) {
        let i = choose|i: int| 0 <= i < t1.len() && t1[i].pid == x;
        assert(t1[i] == (Proc { search: t1[i].search, ..s[i] }));
    }
    if has_pid(t2, x) {
        let i = choose|i: int| 0 <= i < t2.len() && t2[i].pid == x;
        assert(t2[i] == (Proc { search: t2[i].search, ..s[i] }));
    }
    if has_pid(s, x) {
        let i = crate::procs::pid_index(s, x);
        lemma_pid_index_unique(s, i);
        assert(t1[i] == (Proc { search: t1[i].search, ..s[i] }));
        assert(t2[i] == (Proc { search: t2[i].search, ..s[i] }));
        assert forall|a: int, b: int| 0 <= a < b < t1.len() implies t1[a].pid < t1[b].pid by {
            assert(t1[a] == (Proc { search: t1[a].search, ..s[a] }));
            assert(t1[b] == (Proc { search: t1[b].search, ..s[b] }));
        }
        assert forall|a: int, b: int| 0 <= a < b < t2.len() implies t2[a].pid < t2[b].pid by {
            assert(t2[a] == (Proc { search: t2[a].search, ..s[a] }));
            assert(t2[b] == (Proc { search: t2[b].search, ..s[b] }));
        }
        lemma_pid_index_unique(t1, i);
        lemma_pid_index_unique(t2, i);
    }
}

/// A refresh with the same listing keeps what you are looking at still: the
/// tree rows, the visible list, the highlighted row and the selection are those
/// of the refresh before it.
pub proof fn law_refresh_again_keeps_the_list(
    s: Seq<Proc>,
    self_pid: i32,
    e1: u64,
    e2: u64,
    a0: App,
    a1: App,
    a2: App,
)
    requires
        pids_increasing(s),
        crate::app::refreshed(s, self_pid, e1, a0, a1),
        crate::app::refreshed(s, self_pid, e2, a1, a2),
    ensures
        crate::tree::rows_view(a2.full_rows@) == crate::tree::rows_view(a1.full_rows@),
        rows_spec(a2.visible@) == rows_spec(a1.visible@),
        a2.cursor == a1.cursor,
        a2.cursor_pid == a1.cursor_pid,
        a2.selected@ == a1.selected@,
{
    let ch1 = a1.children@;
    let ch2 = a2.children@;
    lemma_walk_forest_agree(s, ch1, ch2, start_pids(s), 0, Set::empty());
    lemma_search_forest_agree(s, ch1, ch2, start_pids(s), 0, Map::empty(), Set::empty());
    let c = search_cache(s, ch1);
    let rows = crate::tree::rows_view(a1.full_rows@);
    let b1 = App { visible: a0.visible, cursor: a0.cursor, cursor_pid: a0.cursor_pid, selected: a0.selected, ..a1 };
    let b2 = App { visible: a1.visible, cursor: a1.cursor, cursor_pid: a1.cursor_pid, selected: a1.selected, ..a2 };
    let f1 = list_filter(b1);
    let f2 = list_filter(b2);
    assert(f1.protected =~= f2.protected);
    assert forall|x: i32| has_pid(a1.procs@, x) == has_pid(a2.procs@, x) by {
        lemma_applied_agree(s, c, a1.procs@, a2.procs@, x);
    }
    assert(a2.selected@ =~= a1.selected@);
    assert forall|x: i32| #[trigger] row_shown(f1, x) == row_shown(f2, x) by {
        lemma_applied_agree(s, c, a1.procs@, a2.procs@, x);
        if f1.selection_view && has_pid(f1.procs, x) {
            if crate::app::kept_for_selection(f1.procs, f1.selected, x) {
                let q = choose|q: i32| #[trigger] f1.selected.contains(q) && on_chain(f1.procs, q, x);
                let k = choose|k: nat|
                    #![trigger ancestor(f1.procs, q, k)]
                    ancestor(f1.procs, q, k) == x && forall|j: nat|
                        j <= k ==> #[trigger] has_pid(f1.procs, ancestor(f1.procs, q, j));
                assert(has_pid(f1.procs, ancestor(f1.procs, q, 0)));
                assert(ancestor(f1.procs, q, 0) == q);
                assert(f2.selected.contains(q));
                assert forall|j: nat| j <= k implies #[trigger] has_pid(s, ancestor(f1.procs, q, j)) by {
                    assert(has_pid(f1.procs, ancestor(f1.procs, q, j)));
                    lemma_applied_agree(s, c, a1.procs@, a2.procs@, ancestor(f1.procs, q, j));
                }
                assert forall|j: nat| j <= k implies #[trigger] has_pid(f2.procs, ancestor(f2.procs, q, j)) by {
                    lemma_ancestor_agree(s, c, a1.procs@, a2.procs@, q, j);
                    lemma_applied_agree(s, c, a1.procs@, a2.procs@, ancestor(f1.procs, q, j));
                }
                lemma_ancestor_agree(s, c, a1.procs@, a2.procs@, q, k);
                assert(on_chain(f2.procs, q, x));
            }
            if crate::app::kept_for_selection(f2.procs, f2.selected, x) {
                let q = choose|q: i32| #[trigger] f2.selected.contains(q) && on_chain(f2.procs, q, x);
                let k = choose|k: nat|
                    #![trigger ancestor(f2.procs, q, k)]
                    ancestor(f2.procs, q, k) == x && forall|j: nat|
                        j <= k ==> #[trigger] has_pid(f2.procs, ancestor(f2.procs, q, j));
                assert forall|j: nat| j <= k implies #[trigger] has_pid(s, ancestor(f2.procs, q, j)) by {
                    assert(has_pid(f2.procs, ancestor(f2.procs, q, j)));
                    lemma_applied_agree(s, c, a1.procs@, a2.procs@, ancestor(f2.procs, q, j));
                }
                assert forall|j: nat| j <= k implies #[trigger] has_pid(f1.procs, ancestor(f1.procs, q, j)) by {
                    lemma_ancestor_agree(s, c, a2.procs@, a1.procs@, q, j);
                    lemma_applied_agree(s, c, a1.procs@, a2.procs@, ancestor(f2.procs, q, j));
                }
                lemma_ancestor_agree(s, c, a2.procs@, a1.procs@, q, k);
                assert(on_chain(f1.procs, q, x));
                assert(f1.selected.contains(q));
            }
        }
    }
    assert forall|x: i32| row_shown(f1, x) implies #[trigger] row_killable(f1, x) == row_killable(f2, x) by {
        lemma_applied_agree(s, c, a1.procs@, a2.procs@, x);
    }
    lemma_visible_spec_same(f1, f2, rows);
    let v = rows_spec(a1.visible@);
    assert(rows_spec(a2.visible@) == v);
    // the visible pids are distinct
    let idx = law_visible_in_tree_order(f1, rows);
    assert forall|a: int, b: int| 0 <= a < b < v.len() implies v[a].0 != v[b].0 by {
        assert(idx[a] < idx[b]);
        law_tree_rows(s, ch1, idx[a], idx[b]);
    }
    lemma_first_with_pid(v, a0.cursor_pid);
    lemma_first_with_pid(v, a1.cursor_pid);
    if v.len() > 0 {
        if crate::app::first_with_pid(v, a0.cursor_pid) is None {
            let c1 = a1.cursor as int;
            assert(0 <= c1 < v.len()) by {
                lemma_first_killable_in(v);
            }
            assert(a1.cursor_pid == v[c1].0);
            assert forall|j: int| 0 <= j < c1 implies v[j].0 != a1.cursor_pid by {}
        }
    }
}

/// Two tables holding the texts a refresh computed have the same ancestor
/// chains, as long as the chain stays in the table.
proof fn lemma_ancestor_agree(
    s: Seq<Proc>,
    cache: Map<i32, Seq<char>>,
    t1: Seq<Proc>,
    t2: Seq<Proc>,
    q: i32,
    k: nat,
)
    requires
        pids_increasing(s),
        searches_applied(s, cache, t1),
        searches_applied(s, cache, t2),
        forall|j: nat| j < k ==> #[trigger] has_pid(s, ancestor(t1, q, j)),
    ensures
        ancestor(t1, q, k) == ancestor(t2, q, k),
    decreases k,
{
    if k > 0 {
        lemma_ancestor_agree(s, cache, t1, t2, q, (k - 1) as nat);
        let y = ancestor(t1, q, (k - 1) as nat);
        assert(has_pid(s, y));
        lemma_ppid_agree(s, cache, t1, t2, y);
    }
}

/// Two tables holding the texts a refresh computed give every listed pid the same parent.
proof fn lemma_ppid_agree(s: Seq<Proc>, cache: Map<i32, Seq<char>>, t1: Seq<Proc>, t2: Seq<Proc>, y: i32)
    requires
        pids_increasing(s),
        searches_applied(s, cache, t1),
        searches_applied(s, cache, t2),
        has_pid(s, y),
    ensures
        proc_of(t1, y).ppid == proc_of(t2, y).ppid,
{
    let i = crate::procs::pid_index(s, y);
    lemma_pid_index_unique(s, i);
    assert(t1[i] == (Proc { search: t1[i].search, ..s[i] }));
    assert(t2[i] == (Proc { search: t2[i].search, ..s[i] }));
    assert forall|a: int, b: int| 0 <= a < b < t1.len() implies t1[a].pid < t1[b].pid by {
        assert(t1[a] == (Proc { search: t1[a].search, ..s[a] }));
        assert(t1[b] == (Proc { search: t1[b].search, ..s[b] }));
    }
    assert forall|a: int, b: int| 0 <= a < b < t2.len() implies t2[a].pid < t2[b].pid by {
        assert(t2[a] == (Proc { search: t2[a].search, ..s[a] }));
        assert(t2[b] == (Proc { search: t2[b].search, ..s[b] }));
    }
    lemma_pid_index_unique(t1, i);
    lemma_pid_index_unique(t2, i);
}

/// `first_killable` gives a position of the list, or none.
proof fn lemma_first_killable_in(v: Seq<(i32, Seq<char>, bool, bool)>)
    ensures
        crate::app::first_killable(v) matches Some(k) ==> 0 <= k < v.len(),
    decreases v.len(),
{
    if v.len() > 0 {
        lemma_first_killable_in(v.drop_last());
    }
}

/// Confirming kills: in the confirmation, pressing `y` or `Y` (as the prompt
/// "[y] kill" offers) hands over exactly the pids being confirmed, and any
/// other key press kills nothing; either way the state keeps everything but
/// the mode, which goes back to browsing.
pub proof fn law_confirm_with_y(before: App, after: App, k: KeyInput, act: Action, t: Vec<i32>)
    requires
        key_step(before, after, k, act),
        before.mode == Mode::Confirm(t),
        k.press,
    ensures
        k.key == Key::Char('y') ==> act == Action::Kill(t),
        k.key == Key::Char('Y') ==> act == Action::Kill(t),
        k.key != Key::Char('y') && k.key != Key::Char('Y') ==> act == Action::Nothing,
        after == (App { mode: Mode::Normal, ..before }),
{
}

/// Smart case: a term with an uppercase character anywhere in it matches a text
/// exactly when the text contains it as written, so every text that matches
/// all the terms contains each such term as written.
pub proof fn law_smart_case(text: Seq<char>, terms: Seq<Seq<char>>, q: int, i: int)
    requires
        0 <= q < terms.len(),
        0 <= i < terms[q].len(),
        crate::filter::upper_char(terms[q][i]),
    ensures
        term_matches(text, terms[q]) <==> contains_text(text, terms[q]),
        all_match(text, terms) ==> contains_text(text, terms[q]),
{
    assert(has_uppercase(terms[q]));
    if all_match(text, terms) {
        assert(term_matches(text, terms[q]));
    }
}

/// `t` begins with `p`.
pub open spec fn starts_with(t: Seq<char>, p: Seq<char>) -> bool {
    p.len() <= t.len() && t.subrange(0, p.len() as int) == p
}

/// A text beginning with `a + b` begins with `a`.
proof fn lemma_starts_with_front(t: Seq<char>, a: Seq<char>, b: Seq<char>)
    requires
        starts_with(t, a + b),
    ensures
        starts_with(t, a),
{
    assert(t.subrange(0, a.len() as int) =~= (a + b).subrange(0, a.len() as int));
    assert((a + b).subrange(0, a.len() as int) =~= a);
}

/// The indentation of the tree: every row of the subtree drawn below the top
/// level with the indentation `prefix` begins with `prefix`, and every row
/// under its top row begins with `prefix` and four more columns: a vertical
/// line `│   ` that continues the branch when the subtree is not the last child,
/// else blank. So a row at depth `d` has `4 * (d - 1)` columns before its
/// connector, carried down from its ancestors. The subtree's own row is its
/// name after `prefix` and the connector `└── ` for a last child, else `├── `
/// (no connector at the top level).
pub proof fn law_rows_indent(
    s: Seq<Proc>,
    ch: Map<i32, Vec<i32>>,
    pid: i32,
    top: bool,
    prefix: Seq<char>,
    last: bool,
    seen: Set<i32>,
)
    ensures
        ({
            let w = walk_rows(s, ch, pid, top, prefix, last, seen).0;
            &&& w.len() > 0 ==> w[0] == (
                pid,
                if top {
                    prefix + proc_of(s, pid).name@
                } else {
                    prefix + (if last {
                        "└── "@
                    } else {
                        "├── "@
                    }) + proc_of(s, pid).name@
                },
            )
            &&& forall|j: int| 0 <= j < w.len() && !top ==> starts_with(#[trigger] w[j].1, prefix)
            &&& forall|j: int|
                0 < j < w.len() && !top ==> starts_with(
                    #[trigger] w[j].1,
                    prefix + (if last {
                        "    "@
                    } else {
                        "│   "@
                    }),
                )
        }),
    decreases unvisited(s, seen), 0nat, 0nat,
{
    let w = walk_rows(s, ch, pid, top, prefix, last, seen).0;
    if !(seen.contains(pid) || !has_pid(s, pid)) {
        lemma_unvisited_insert(s, seen, pid);
        let cp = crate::tree::child_prefix_text(top, prefix, last);
        let ks = kids(ch, pid);
        lemma_kids_indent(s, ch, ks, 0, cp, seen.insert(pid));
        let rest = walk_kids(s, ch, ks, 0, cp, seen.insert(pid)).0;
        let row0 = prefix + crate::tree::connector_text(top, last) + proc_of(s, pid).name@;
        assert(w == seq![(pid, row0)] + rest);
        if top {
            assert(row0 =~= prefix + proc_of(s, pid).name@);
        }
        assert(w[0] == (pid, row0));
        if !top {
            let x = if last {
                "    "@
            } else {
                "│   "@
            };
            assert(cp == prefix + x);
            assert forall|j: int| 0 <= j < w.len() implies starts_with(#[trigger] w[j].1, prefix) by {
                if j == 0 {
                    assert(row0.subrange(0, prefix.len() as int) =~= prefix);
                } else {
                    assert(w[j] == rest[j - 1]);
                    lemma_starts_with_front(w[j].1, prefix, x);
                }
            }
            assert forall|j: int| 0 < j < w.len() implies starts_with(#[trigger] w[j].1, prefix + x) by {
                assert(w[j] == rest[j - 1]);
            }
        }
    }
}

/// Every row of the walks of the children `ks[i..]` drawn with the
/// indentation `prefix` begins with `prefix`.
proof fn lemma_kids_indent(
    s: Seq<Proc>,
    ch: Map<i32, Vec<i32>>,
    ks: Seq<i32>,
    i: int,
    prefix: Seq<char>,
    seen: Set<i32>,
)
    ensures
        ({
            let w = walk_kids(s, ch, ks, i, prefix, seen).0;
            forall|j: int| 0 <= j < w.len() ==> starts_with(#[trigger] w[j].1, prefix)
        }),
    decreases unvisited(s, seen), 1nat, ks.len() - i,
{
    if 0 <= i < ks.len() {
        law_rows_indent(s, ch, ks[i], false, prefix, i == ks.len() - 1, seen);
        lemma_walk_rows_grows(s, ch, ks[i], false, prefix, i == ks.len() - 1, seen);
        let first = walk_rows(s, ch, ks[i], false, prefix, i == ks.len() - 1, seen);
        lemma_unvisited_subset(s, seen, first.1);
        lemma_kids_indent(s, ch, ks, i + 1, prefix, first.1);
        let rest = walk_kids(s, ch, ks, i + 1, prefix, first.1).0;
        let w = walk_kids(s, ch, ks, i, prefix, seen).0;
        assert(w == first.0 + rest);
        assert forall|j: int| 0 <= j < w.len() implies starts_with(#[trigger] w[j].1, prefix) by {
            if j < first.0.len() {
                assert(w[j] == first.0[j]);
            } else {
                assert(w[j] == rest[j - first.0.len()]);
            }
        }
    }
}

/// Smart case, the other way: a term without any uppercase character matches
/// a text exactly when the text, lowercased, contains the term lowercased; for
/// ASCII that is with `A`-`Z` lowered to `a`-`z` in both.
pub proof fn law_lowercase_terms_ignore_case(text: Seq<char>, t: Seq<char>)
    requires
        forall|i: int| 0 <= i < t.len() ==> !crate::filter::upper_char(#[trigger] t[i]),
    ensures
        term_matches(text, t) <==> contains_text(lowered(text), lowered(t)),
        ascii_text(text) && ascii_text(t) ==> (term_matches(text, t) <==> contains_text(
            ascii_lower(text),
            ascii_lower(t),
        )),
{
}

} // verus!
