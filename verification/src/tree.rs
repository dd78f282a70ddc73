//! The process hierarchy: children lists, the tree walk that lays out the rows,
//! the subtree search texts, and the caller's own ancestor chain.
use vstd::prelude::*;
use std::collections::HashMap;
use std::collections::HashSet;
use crate::text::{join, join_strings, texts};
use crate::procs::{has_pid, lemma_pid_set_finite, pid_set, proc_of, ProcMap, Proc};

verus! {

broadcast use vstd::std_specs::hash::group_hash_axioms;

/// The pids of the entries of `s` whose parent is `parent`, in table order.
pub open spec fn child_pids(s: Seq<Proc>, parent: i32) -> Seq<i32>
    decreases s.len(),
{
    if s.len() == 0 {
        Seq::empty()
    } else {
        let rest = child_pids(s.drop_last(), parent);
        if s.last().ppid == parent {
            rest.push(s.last().pid)
        } else {
            rest
        }
    }
}

/// The children list that a children map holds for `pid` (none when it has no entry).
pub open spec fn kids(ch: Map<i32, Vec<i32>>, pid: i32) -> Seq<i32> {
    if ch.contains_key(pid) {
        ch[pid]@
    } else {
        Seq::empty()
    }
}

/// `ch` maps each parent pid that occurs in `s` to its children in table order,
/// and has no other entry.
pub open spec fn children_of(s: Seq<Proc>, ch: Map<i32, Vec<i32>>) -> bool {
    forall|parent: i32|
        #![trigger ch.contains_key(parent)]
        #![trigger child_pids(s, parent)]
        (ch.contains_key(parent) <==> child_pids(s, parent).len() > 0) && (ch.contains_key(parent)
            ==> ch[parent]@ == child_pids(s, parent))
}

/// Every pid listed as a child in `ch` is a pid of `s`.
pub open spec fn children_known(s: Seq<Proc>, ch: Map<i32, Vec<i32>>) -> bool {
    forall|parent: i32, j: int|
        #![trigger ch[parent]@[j]]
        ch.contains_key(parent) && 0 <= j < ch[parent]@.len() ==> has_pid(s, ch[parent]@[j])
}

/// A pid is among the children of `parent` exactly when its entry names `parent` as parent.
pub proof fn lemma_child_pids(s: Seq<Proc>, parent: i32, j: int)
    requires
        0 <= j < child_pids(s, parent).len(),
    ensures
        exists|i: int|
            0 <= i < s.len() && s[i].pid == child_pids(s, parent)[j] && s[i].ppid == parent,
    decreases s.len(),
{
    let rest = child_pids(s.drop_last(), parent);
    if j < rest.len() {
        lemma_child_pids(s.drop_last(), parent, j);
        let i = choose|i: int|
            0 <= i < s.drop_last().len() && s.drop_last()[i].pid == rest[j]
                && s.drop_last()[i].ppid == parent;
        assert(s[i] == s.drop_last()[i]);
    } else {
        assert(s[s.len() - 1].pid == child_pids(s, parent)[j]);
    }
}

/// Builds the children lists: each parent pid mapped to the pids naming it, in pid order.
pub fn build_children(procs: &ProcMap) -> (ch: HashMap<i32, Vec<i32>>)
    requires
        procs.wf(),
    ensures
        children_of(procs@, ch@),
        children_known(procs@, ch@),
{
    let mut ch: HashMap<i32, Vec<i32>> = HashMap::new();
    let n = procs.len();
    let mut i: usize = 0;
    while i < n
        invariant
            n == procs@.len(),
            i <= n,
            children_of(procs@.take(i as int), ch@),
            forall|parent: i32, j: int|
                #![trigger ch@[parent]@[j]]
                ch@.contains_key(parent) && 0 <= j < ch@[parent]@.len() ==> has_pid(
                    procs@,
                    ch@[parent]@[j],
                ),
        decreases n - i,
    {
        let p = procs.entry(i);
        let ghost s0 = procs@.take(i as int);
        let ghost s1 = procs@.take(i + 1);
        assert(s1.drop_last() =~= s0);
        assert(s1.last() == procs@[i as int]);
        let mut list: Vec<i32> = match ch.remove(&p.ppid) {
            Some(v) => v,
            None => Vec::new(),
        };
        list.push(p.pid);
        ch.insert(p.ppid, list);
        proof {
            assert(has_pid(procs@, p.pid));
            assert forall|parent: i32|
                #![trigger ch@.contains_key(parent)]
                #![trigger child_pids(s1, parent)]
                (ch@.contains_key(parent) <==> child_pids(s1, parent).len() > 0) && (
                ch@.contains_key(parent) ==> ch@[parent]@ == child_pids(s1, parent)) by {
                assert(child_pids(s1, parent) == (if procs@[i as int].ppid == parent {
                    child_pids(s0, parent).push(procs@[i as int].pid)
                } else {
                    child_pids(s0, parent)
                }));
            }
        }
        i += 1;
    }
    assert(procs@.take(n as int) =~= procs@);
    ch
}

/// How many pids of `s` are not yet in `seen`.
pub open spec fn unvisited(s: Seq<Proc>, seen: Set<i32>) -> nat {
    pid_set(s).difference(seen).len()
}

/// Marking a pid of `s` that was not yet seen leaves one fewer unvisited pid.
pub proof fn lemma_unvisited_insert(s: Seq<Proc>, seen: Set<i32>, pid: i32)
    requires
        has_pid(s, pid),
        !seen.contains(pid),
    ensures
        unvisited(s, seen.insert(pid)) < unvisited(s, seen),
{
    lemma_pid_set_finite(s);
    let d = pid_set(s).difference(seen);
    assert(pid_set(s).difference(seen.insert(pid)) =~= d.remove(pid));
    assert(d.contains(pid));
}

/// Seeing more pids never leaves more unvisited.
pub proof fn lemma_unvisited_subset(s: Seq<Proc>, seen: Set<i32>, more: Set<i32>)
    requires
        seen.subset_of(more),
    ensures
        unvisited(s, more) <= unvisited(s, seen),
{
    lemma_pid_set_finite(s);
    vstd::set_lib::lemma_len_subset(pid_set(s).difference(more), pid_set(s).difference(seen));
}

/// The line drawn before a process name: nothing at the top level, else a branch.
pub open spec fn connector_text(top: bool, last: bool) -> Seq<char> {
    if top {
        Seq::empty()
    } else if last {
        "└── "@
    } else {
        "├── "@
    }
}

/// The indentation handed down to the children of a row.
pub open spec fn child_prefix_text(top: bool, prefix: Seq<char>, last: bool) -> Seq<char> {
    if top {
        Seq::empty()
    } else if last {
        prefix + "    "@
    } else {
        prefix + "│   "@
    }
}

/// The rows (pid, display text) that the tree walk lays out for `pid` and its
/// subtree, depth first, and the set of pids seen afterwards. A pid already seen
/// gives no row, so each pid is laid out at most once.
pub open spec fn walk_rows(
    s: Seq<Proc>,
    ch: Map<i32, Vec<i32>>,
    pid: i32,
    top: bool,
    prefix: Seq<char>,
    last: bool,
    seen: Set<i32>,
) -> (Seq<(i32, Seq<char>)>, Set<i32>)
    decreases unvisited(s, seen), 0nat, 0nat,
{
    if seen.contains(pid) || !has_pid(s, pid) {
        (Seq::empty(), seen)
    } else {
        proof {
            lemma_unvisited_insert(s, seen, pid);
        }
        let row = (pid, prefix + connector_text(top, last) + proc_of(s, pid).name@);
        let rest = walk_kids(
            s,
            ch,
            kids(ch, pid),
            0,
            child_prefix_text(top, prefix, last),
            seen.insert(pid),
        );
        (seq![row] + rest.0, rest.1)
    }
}

/// The rows laid out for the children `ks[i..]` of one parent, in order.
pub open spec fn walk_kids(
    s: Seq<Proc>,
    ch: Map<i32, Vec<i32>>,
    ks: Seq<i32>,
    i: int,
    prefix: Seq<char>,
    seen: Set<i32>,
) -> (Seq<(i32, Seq<char>)>, Set<i32>)
    decreases unvisited(s, seen), 1nat, ks.len() - i,
{
    if i < 0 || i >= ks.len() {
        (Seq::empty(), seen)
    } else {
        let first = walk_rows(s, ch, ks[i], false, prefix, i == ks.len() - 1, seen);
        let next = if seen.subset_of(first.1) {
            first.1
        } else {
            seen
        };
        proof {
            lemma_unvisited_subset(s, seen, next);
        }
        let rest = walk_kids(s, ch, ks, i + 1, prefix, next);
        (first.0 + rest.0, rest.1)
    }
}

/// A row as the specifications see it: the pid and the display text.
pub open spec fn row_view(r: (i32, String)) -> (i32, Seq<char>) {
    (r.0, r.1@)
}

/// The rows of a list as the specifications see them.
pub open spec fn rows_view(v: Seq<(i32, String)>) -> Seq<(i32, Seq<char>)> {
    v.map_values(|r: (i32, String)| row_view(r))
}

/// The walk of one subtree only ever adds to the set of seen pids.
pub proof fn lemma_walk_rows_grows(
    s: Seq<Proc>,
    ch: Map<i32, Vec<i32>>,
    pid: i32,
    top: bool,
    prefix: Seq<char>,
    last: bool,
    seen: Set<i32>,
)
    ensures
        seen.subset_of(walk_rows(s, ch, pid, top, prefix, last, seen).1),
    decreases unvisited(s, seen), 0nat, 0nat,
{
    if !(seen.contains(pid) || !has_pid(s, pid)) {
        lemma_unvisited_insert(s, seen, pid);
        lemma_walk_kids_grows(
            s,
            ch,
            kids(ch, pid),
            0,
            child_prefix_text(top, prefix, last),
            seen.insert(pid),
        );
    }
}

/// The walk of a children list only ever adds to the set of seen pids.
pub proof fn lemma_walk_kids_grows(
    s: Seq<Proc>,
    ch: Map<i32, Vec<i32>>,
    ks: Seq<i32>,
    i: int,
    prefix: Seq<char>,
    seen: Set<i32>,
)
    ensures
        seen.subset_of(walk_kids(s, ch, ks, i, prefix, seen).1),
    decreases unvisited(s, seen), 1nat, ks.len() - i,
{
    if 0 <= i < ks.len() {
        lemma_walk_rows_grows(s, ch, ks[i], false, prefix, i == ks.len() - 1, seen);
        let first = walk_rows(s, ch, ks[i], false, prefix, i == ks.len() - 1, seen);
        lemma_unvisited_subset(s, seen, first.1);
        lemma_walk_kids_grows(s, ch, ks, i + 1, prefix, first.1);
    }
}

/// The branch drawn before a name.
fn connector(depth: usize, last: bool) -> (r: &'static str)
    ensures
        r@ == connector_text(depth == 0, last),
{
    proof {
        reveal_strlit("");
    }
    if depth == 0 {
        ""
    } else if last {
        "└── "
    } else {
        "├── "
    }
}

/// The indentation handed down to the children of a row.
fn child_prefix(depth: usize, prefix: &str, last: bool) -> (r: String)
    ensures
        r@ == child_prefix_text(depth == 0, prefix@, last),
{
    if depth == 0 {
        String::new()
    } else {
        let mut r = String::from_str(prefix);
        if last {
            r.append("    ");
        } else {
            r.append("│   ");
        }
        r
    }
}

/// Lays out `pid` and its subtree as rows (pid, indented name) in depth-first
/// order, skipping pids already in `seen`.
pub fn walk_tree(
    pid: i32,
    depth: usize,
    prefix: &str,
    last: bool,
    procs: &ProcMap,
    children: &HashMap<i32, Vec<i32>>,
    seen: &mut HashSet<i32>,
    out: &mut Vec<(i32, String)>,
)
    requires
        procs.wf(),
        !old(seen)@.contains(pid) ==> has_pid(procs@, pid) && children_known(procs@, children@),
    ensures
        rows_view(final(out)@) == rows_view(old(out)@) + walk_rows(
            procs@,
            children@,
            pid,
            depth == 0,
            prefix@,
            last,
            old(seen)@,
        ).0,
        final(seen)@ == walk_rows(procs@, children@, pid, depth == 0, prefix@, last, old(seen)@).1,
    decreases unvisited(procs@, old(seen)@),
{
    let ghost s = procs@;
    let ghost ch = children@;
    let ghost seen0 = seen@;
    let ghost out0 = out@;
    if !seen.insert(pid) {
        return;
    }
    let p = match procs.get(pid) {
        Some(p) => p,
        None => {
            return;
        },
    };
    let mut display = String::from_str(prefix);
    display.append(connector(depth, last));
    display.append(p.name.as_str());
    out.push((pid, display));
    proof {
        lemma_unvisited_insert(s, seen0, pid);
        assert(rows_view(out@) =~= rows_view(out0) + seq![
            (pid, prefix@ + connector_text(depth == 0, last) + proc_of(s, pid).name@),
        ]);
    }
    let ghost head = rows_view(out@);
    let ghost seen1 = seen@;
    match children.get(&pid) {
        Some(ks) => {
            let cp = child_prefix(depth, prefix, last);
            let child_depth = depth.saturating_add(1);
            let ghost whole = walk_kids(s, ch, ks@, 0, cp@, seen1);
            let mut i: usize = 0;
            while i < ks.len()
                invariant
                    s == procs@,
                    ch == children@,
                    procs.wf(),
                    children_known(s, ch),
                    ch.contains_key(pid),
                    ks@ == ch[pid]@,
                    child_depth != 0,
                    i <= ks@.len(),
                    seen1.subset_of(seen@),
                    seen0 == old(seen)@,
                    unvisited(s, seen1) < unvisited(s, seen0),
                    whole == walk_kids(s, ch, ks@, 0, cp@, seen1),
                    rows_view(out@) + walk_kids(s, ch, ks@, i as int, cp@, seen@).0 == head
                        + whole.0,
                    walk_kids(s, ch, ks@, i as int, cp@, seen@).1 == whole.1,
                decreases ks.len() - i,
            {
                let ghost seen_i = seen@;
                let ghost out_i = rows_view(out@);
                proof {
                    lemma_unvisited_subset(s, seen1, seen_i);
                    assert(has_pid(s, ch[pid]@[i as int]));
                    assert(unvisited(procs@, seen@) < unvisited(procs@, seen0));
                }
                walk_tree(ks[i], child_depth, cp.as_str(), i == ks.len() - 1, procs, children, seen, out);
                proof {
                    lemma_walk_rows_grows(s, ch, ks@[i as int], false, cp@, i == ks.len() - 1, seen_i);
                    let first = walk_rows(s, ch, ks@[i as int], false, cp@, i == ks.len() - 1, seen_i);
                    assert(walk_kids(s, ch, ks@, i as int, cp@, seen_i) == (
                        first.0 + walk_kids(s, ch, ks@, i + 1, cp@, first.1).0,
                        walk_kids(s, ch, ks@, i + 1, cp@, first.1).1,
                    ));
                    assert(out_i + (first.0 + walk_kids(s, ch, ks@, i + 1, cp@, first.1).0)
                        =~= (out_i + first.0) + walk_kids(s, ch, ks@, i + 1, cp@, first.1).0);
                }
                i += 1;
            }
            proof {
                assert(walk_kids(s, ch, ks@, i as int, cp@, seen@).0 =~= Seq::empty());
                assert(rows_view(out@) =~= head + whole.0);
                assert(kids(ch, pid) == ks@);
            }
        },
        None => {
            proof {
                assert(kids(ch, pid) =~= Seq::<i32>::empty());
                assert(walk_kids(s, ch, kids(ch, pid), 0, child_prefix_text(depth == 0, prefix@, last), seen1).0 =~= Seq::empty());
            }
        },
    }
}

/// The texts held by a search cache.
pub open spec fn cache_view(c: Map<i32, String>) -> Map<i32, Seq<char>> {
    c.map_values(|t: String| t@)
}

/// The search text of `pid` (its own text joined by single spaces with the
/// non-empty search texts of its children), with the cache and the seen set
/// afterwards. A cached pid gives its cached text; a pid already seen but not
/// cached gives the empty text.
pub open spec fn search_text(
    s: Seq<Proc>,
    ch: Map<i32, Vec<i32>>,
    pid: i32,
    cache: Map<i32, Seq<char>>,
    seen: Set<i32>,
) -> (Seq<char>, Map<i32, Seq<char>>, Set<i32>)
    decreases unvisited(s, seen), 0nat, 0nat,
{
    if cache.contains_key(pid) {
        (cache[pid], cache, seen)
    } else if seen.contains(pid) || !has_pid(s, pid) {
        (Seq::empty(), cache, seen)
    } else {
        proof {
            lemma_unvisited_insert(s, seen, pid);
        }
        let rest = search_kids(s, ch, kids(ch, pid), 0, cache, seen.insert(pid));
        let text = join(seq![proc_of(s, pid).own@] + rest.0, seq![' ']);
        (text, rest.1.insert(pid, text), rest.2)
    }
}

/// The non-empty search texts of the children `ks[i..]`, in order.
pub open spec fn search_kids(
    s: Seq<Proc>,
    ch: Map<i32, Vec<i32>>,
    ks: Seq<i32>,
    i: int,
    cache: Map<i32, Seq<char>>,
    seen: Set<i32>,
) -> (Seq<Seq<char>>, Map<i32, Seq<char>>, Set<i32>)
    decreases unvisited(s, seen), 1nat, ks.len() - i,
{
    if i < 0 || i >= ks.len() {
        (Seq::empty(), cache, seen)
    } else {
        let first = search_text(s, ch, ks[i], cache, seen);
        let next = if seen.subset_of(first.2) {
            first.2
        } else {
            seen
        };
        proof {
            lemma_unvisited_subset(s, seen, next);
        }
        let rest = search_kids(s, ch, ks, i + 1, first.1, next);
        let mine = if first.0.len() > 0 {
            seq![first.0]
        } else {
            Seq::empty()
        };
        (mine + rest.0, rest.1, rest.2)
    }
}

/// Computing one search text only ever adds to the set of seen pids.
pub proof fn lemma_search_text_grows(
    s: Seq<Proc>,
    ch: Map<i32, Vec<i32>>,
    pid: i32,
    cache: Map<i32, Seq<char>>,
    seen: Set<i32>,
)
    ensures
        seen.subset_of(search_text(s, ch, pid, cache, seen).2),
    decreases unvisited(s, seen), 0nat, 0nat,
{
    if !cache.contains_key(pid) && !(seen.contains(pid) || !has_pid(s, pid)) {
        lemma_unvisited_insert(s, seen, pid);
        lemma_search_kids_grows(s, ch, kids(ch, pid), 0, cache, seen.insert(pid));
    }
}

/// Computing the texts of a children list only ever adds to the set of seen pids.
pub proof fn lemma_search_kids_grows(
    s: Seq<Proc>,
    ch: Map<i32, Vec<i32>>,
    ks: Seq<i32>,
    i: int,
    cache: Map<i32, Seq<char>>,
    seen: Set<i32>,
)
    ensures
        seen.subset_of(search_kids(s, ch, ks, i, cache, seen).2),
    decreases unvisited(s, seen), 1nat, ks.len() - i,
{
    if 0 <= i < ks.len() {
        lemma_search_text_grows(s, ch, ks[i], cache, seen);
        let first = search_text(s, ch, ks[i], cache, seen);
        lemma_unvisited_subset(s, seen, first.2);
        lemma_search_kids_grows(s, ch, ks, i + 1, first.1, first.2);
    }
}

/// The search text of `pid`: its own text followed by the search texts of its
/// children, memoised in `cache`; a pid met again while being computed gives
/// the empty text.
pub fn build_search(
    pid: i32,
    procs: &ProcMap,
    children: &HashMap<i32, Vec<i32>>,
    cache: &mut HashMap<i32, String>,
    seen: &mut HashSet<i32>,
) -> (text: String)
    requires
        procs.wf(),
        !old(cache)@.contains_key(pid) && !old(seen)@.contains(pid) ==> has_pid(procs@, pid)
            && children_known(procs@, children@),
    ensures
        (text@, cache_view(final(cache)@), final(seen)@) == search_text(
            procs@,
            children@,
            pid,
            cache_view(old(cache)@),
            old(seen)@,
        ),
    decreases unvisited(procs@, old(seen)@),
{
    let ghost s = procs@;
    let ghost ch = children@;
    let ghost seen0 = seen@;
    if let Some(t) = cache.get(&pid) {
        return t.clone();
    }
    proof {
        assert(!cache_view(cache@).contains_key(pid));
    }
    if !seen.insert(pid) {
        return String::new();
    }
    let own = match procs.get(pid) {
        Some(p) => p.own.clone(),
        None => {
            return String::new();
        },
    };
    proof {
        lemma_unvisited_insert(s, seen0, pid);
    }
    let mut parts: Vec<String> = Vec::new();
    parts.push(own);
    let ghost seen1 = seen@;
    let ghost cache1 = cache_view(cache@);
    let ghost whole = search_kids(s, ch, kids(ch, pid), 0, cache1, seen1);
    proof {
        assert(texts(parts@) =~= seq![proc_of(s, pid).own@]);
    }
    match children.get(&pid) {
        Some(ks) => {
            let mut i: usize = 0;
            while i < ks.len()
                invariant
                    s == procs@,
                    ch == children@,
                    procs.wf(),
                    children_known(s, ch),
                    ch.contains_key(pid),
                    ks@ == ch[pid]@,
                    kids(ch, pid) == ks@,
                    i <= ks@.len(),
                    seen1.subset_of(seen@),
                    seen0 == old(seen)@,
                    unvisited(s, seen1) < unvisited(s, seen0),
                    whole == search_kids(s, ch, ks@, 0, cache1, seen1),
                    texts(parts@) + search_kids(
                        s,
                        ch,
                        ks@,
                        i as int,
                        cache_view(cache@),
                        seen@,
                    ).0 == seq![proc_of(s, pid).own@] + whole.0,
                    search_kids(s, ch, ks@, i as int, cache_view(cache@), seen@).1 == whole.1,
                    search_kids(s, ch, ks@, i as int, cache_view(cache@), seen@).2 == whole.2,
                decreases ks.len() - i,
            {
                let ghost seen_i = seen@;
                let ghost cache_i = cache_view(cache@);
                let ghost parts_i = texts(parts@);
                proof {
                    lemma_unvisited_subset(s, seen1, seen_i);
                    assert(has_pid(s, ch[pid]@[i as int]));
                    assert(unvisited(procs@, seen@) < unvisited(procs@, seen0));
                }
                let t = build_search(ks[i], procs, children, cache, seen);
                proof {
                    lemma_search_text_grows(s, ch, ks@[i as int], cache_i, seen_i);
                    let first = search_text(s, ch, ks@[i as int], cache_i, seen_i);
                    let rest = search_kids(s, ch, ks@, i + 1, first.1, first.2);
                    assert(search_kids(s, ch, ks@, i as int, cache_i, seen_i) == (
                        (if first.0.len() > 0 {
                            seq![first.0]
                        } else {
                            Seq::empty()
                        }) + rest.0,
                        rest.1,
                        rest.2,
                    ));
                }
                if !t.as_str().is_empty() {
                    let ghost tv = t@;
                    parts.push(t);
                    proof {
                        let first = search_text(s, ch, ks@[i as int], cache_i, seen_i);
                        let rest = search_kids(s, ch, ks@, i + 1, first.1, first.2);
                        assert(texts(parts@) =~= parts_i.push(tv));
                        assert(parts_i + (seq![tv] + rest.0) =~= parts_i.push(tv) + rest.0);
                    }
                } else {
                    proof {
                        let first = search_text(s, ch, ks@[i as int], cache_i, seen_i);
                        let rest = search_kids(s, ch, ks@, i + 1, first.1, first.2);
                        assert(Seq::<Seq<char>>::empty() + rest.0 =~= rest.0);
                    }
                }
                i += 1;
            }
            proof {
                assert(search_kids(s, ch, ks@, i as int, cache_view(cache@), seen@).0 =~= Seq::empty());
                assert(texts(parts@) =~= seq![proc_of(s, pid).own@] + whole.0);
            }
        },
        None => {
            proof {
                assert(kids(ch, pid) =~= Seq::<i32>::empty());
                assert(texts(parts@) =~= seq![proc_of(s, pid).own@] + whole.0);
            }
        },
    }
    let text = join_strings(&parts, " ");
    proof {
        reveal_strlit(" ");
        assert(" "@ =~= seq![' ']);
    }
    let ghost cache_before = cache@;
    cache.insert(pid, text.clone());
    proof {
        assert(cache_view(cache@) =~= cache_view(cache_before).insert(pid, text@));
    }
    text
}

/// The pid reached from `start` by following the parent link `k` times.
pub open spec fn ancestor(s: Seq<Proc>, start: i32, k: nat) -> i32
    decreases k,
{
    if k == 0 {
        start
    } else {
        proc_of(s, ancestor(s, start, (k - 1) as nat)).ppid
    }
}

/// `x` is `start` or one of its ancestors, reached without leaving the table.
pub open spec fn on_chain(s: Seq<Proc>, start: i32, x: i32) -> bool {
    exists|k: nat|
        #![trigger ancestor(s, start, k)]
        ancestor(s, start, k) == x && forall|j: nat|
            j <= k ==> #[trigger] has_pid(s, ancestor(s, start, j))
}

/// Two equal points of the chain continue alike.
proof fn lemma_ancestor_shift(s: Seq<Proc>, start: i32, a: nat, b: nat, t: nat)
    requires
        ancestor(s, start, a) == ancestor(s, start, b),
    ensures
        ancestor(s, start, a + t) == ancestor(s, start, b + t),
    decreases t,
{
    if t > 0 {
        lemma_ancestor_shift(s, start, a, b, (t - 1) as nat);
        assert(ancestor(s, start, a + t) == proc_of(s, ancestor(s, start, (a + t - 1) as nat)).ppid);
        assert(ancestor(s, start, b + t) == proc_of(s, ancestor(s, start, (b + t - 1) as nat)).ppid);
    }
}

/// Once the chain returns to an earlier point, every later point is an earlier one.
proof fn lemma_ancestor_cycle(s: Seq<Proc>, start: i32, j0: nat, k: nat, m: nat)
    requires
        j0 < k <= m,
        ancestor(s, start, k) == ancestor(s, start, j0),
    ensures
        exists|j: nat| j < k && ancestor(s, start, j) == ancestor(s, start, m),
    decreases m,
{
    lemma_ancestor_shift(s, start, k, j0, (m - k) as nat);
    let m2 = (j0 + (m - k)) as nat;
    if m2 >= k {
        lemma_ancestor_cycle(s, start, j0, k, m2);
    } else {
        assert(ancestor(s, start, m2) == ancestor(s, start, m));
    }
}

/// The pids of the chain from `self_pid` up through its ancestors, stopping at
/// the first pid that is not in the table or that repeats.
pub fn protected_set(procs: &ProcMap, self_pid: i32) -> (protected: HashSet<i32>)
    requires
        procs.wf(),
    ensures
        forall|x: i32| #[trigger] protected@.contains(x) <==> on_chain(procs@, self_pid, x),
{
    let ghost s = procs@;
    let mut protected: HashSet<i32> = HashSet::new();
    let mut cur = self_pid;
    let ghost mut k: nat = 0;
    loop
        invariant
            s == procs@,
            procs.wf(),
            cur == ancestor(s, self_pid, k),
            forall|j: nat| j < k ==> #[trigger] has_pid(s, ancestor(s, self_pid, j)),
            forall|x: i32|
                #[trigger] protected@.contains(x) <==> exists|j: nat|
                    j < k && #[trigger] ancestor(s, self_pid, j) == x,
        ensures
            forall|x: i32| #[trigger] protected@.contains(x) <==> on_chain(s, self_pid, x),
        decreases unvisited(s, protected@),
    {
        if !procs.contains_key(cur) {
            proof {
                assert forall|x: i32| on_chain(s, self_pid, x) implies #[trigger] protected@.contains(x) by {
                    let m = choose|m: nat|
                        #![trigger ancestor(s, self_pid, m)]
                        ancestor(s, self_pid, m) == x && forall|j: nat|
                            j <= m ==> #[trigger] has_pid(s, ancestor(s, self_pid, j));
                    if m >= k {
                        assert(has_pid(s, ancestor(s, self_pid, k)));
                    }
                }
                assert forall|x: i32| #[trigger] protected@.contains(x) implies on_chain(s, self_pid, x) by {
                    let j = choose|j: nat| j < k && #[trigger] ancestor(s, self_pid, j) == x;
                    assert(forall|i: nat| i <= j ==> #[trigger] has_pid(s, ancestor(s, self_pid, i)));
                }
            }
            break;
        }
        let ghost before = protected@;
        if !protected.insert(cur) {
            proof {
                let j0 = choose|j: nat| j < k && #[trigger] ancestor(s, self_pid, j) == cur;
                assert forall|x: i32| on_chain(s, self_pid, x) implies #[trigger] protected@.contains(x) by {
                    let m = choose|m: nat|
                        #![trigger ancestor(s, self_pid, m)]
                        ancestor(s, self_pid, m) == x && forall|j: nat|
                            j <= m ==> #[trigger] has_pid(s, ancestor(s, self_pid, j));
                    if m >= k {
                        if m == k {
                            assert(ancestor(s, self_pid, j0) == x);
                        } else {
                            lemma_ancestor_cycle(s, self_pid, j0, k, m);
                        }
                    }
                }
                assert forall|x: i32| #[trigger] protected@.contains(x) implies on_chain(s, self_pid, x) by {
                    let j = choose|j: nat| j < k && #[trigger] ancestor(s, self_pid, j) == x;
                    assert(forall|i: nat| i <= j ==> #[trigger] has_pid(s, ancestor(s, self_pid, i)));
                }
            }
            break;
        }
        proof {
            lemma_unvisited_insert(s, before, cur);
            assert forall|x: i32|
                #[trigger] protected@.contains(x) <==> exists|j: nat|
                    j < k + 1 && #[trigger] ancestor(s, self_pid, j) == x by {
                if protected@.contains(x) && x != cur {
                    let j = choose|j: nat| j < k && #[trigger] ancestor(s, self_pid, j) == x;
                    assert(j < k + 1);
                }
                if exists|j: nat| j < k + 1 && #[trigger] ancestor(s, self_pid, j) == x {
                    let j = choose|j: nat| j < k + 1 && #[trigger] ancestor(s, self_pid, j) == x;
                    if j < k {
                        assert(before.contains(x));
                    }
                }
            }
        }
        let next = match procs.get(cur) {
            Some(p) => p.ppid,
            None => cur,
        };
        proof {
            assert(ancestor(s, self_pid, k + 1) == proc_of(s, ancestor(s, self_pid, k)).ppid);
            k = k + 1;
        }
        cur = next;
    }
    protected
}

/// Every root is a pid of the table.
pub proof fn lemma_roots_listed(s: Seq<Proc>, t: Seq<Proc>, j: int)
    requires
        t.len() <= s.len(),
        t == s.take(t.len() as int),
        0 <= j < roots_of_in(s, t).len(),
    ensures
        has_pid(s, roots_of_in(s, t)[j]),
    decreases t.len(),
{
    let rest = roots_of_in(s, t.drop_last());
    assert(t.drop_last() == s.take(t.len() - 1));
    if j < rest.len() {
        lemma_roots_listed(s, t.drop_last(), j);
    } else {
        assert(s[t.len() - 1] == t.last());
    }
}

/// The pids of the first entries `t` of the table `s` whose parent is not in
/// `s`, in pid order: the tops of the displayed trees.
pub open spec fn roots_of_in(s: Seq<Proc>, t: Seq<Proc>) -> Seq<i32>
    decreases t.len(),
{
    if t.len() == 0 {
        Seq::empty()
    } else {
        let rest = roots_of_in(s, t.drop_last());
        if !has_pid(s, t.last().ppid) {
            rest.push(t.last().pid)
        } else {
            rest
        }
    }
}

/// The roots of the table, in pid order.
pub fn root_pids(procs: &ProcMap) -> (roots: Vec<i32>)
    requires
        procs.wf(),
    ensures
        roots@ == roots_of_in(procs@, procs@),
        forall|j: int| 0 <= j < roots@.len() ==> has_pid(procs@, #[trigger] roots@[j]),
{
    let mut roots: Vec<i32> = Vec::new();
    let n = procs.len();
    let mut i: usize = 0;
    while i < n
        invariant
            procs.wf(),
            n == procs@.len(),
            i <= n,
            roots@ == roots_of_in(procs@, procs@.take(i as int)),
        decreases n - i,
    {
        assert(procs@.take(i + 1).drop_last() =~= procs@.take(i as int));
        let p = procs.entry(i);
        if !procs.contains_key(p.ppid) {
            roots.push(p.pid);
        }
        i += 1;
    }
    assert(procs@.take(n as int) =~= procs@);
    proof {
        assert forall|j: int| 0 <= j < roots@.len() implies has_pid(procs@, #[trigger] roots@[j]) by {
            lemma_roots_listed(procs@, procs@, j);
        }
    }
    roots
}

/// The pids of the table, in pid order.
pub open spec fn all_pids(s: Seq<Proc>) -> Seq<i32> {
    s.map_values(|p: Proc| p.pid)
}

/// Where the tree walks start: every root first, then every pid in pid order,
/// so that a process whose parent links loop (and nothing under it reaches a
/// root) is laid out too, at the top level, once it is met.
pub open spec fn start_pids(s: Seq<Proc>) -> Seq<i32> {
    roots_of_in(s, s) + all_pids(s)
}

/// The pids the tree walks start from: the roots, then every pid.
pub fn walk_starts(procs: &ProcMap) -> (starts: Vec<i32>)
    requires
        procs.wf(),
    ensures
        starts@ == start_pids(procs@),
        forall|j: int| 0 <= j < starts@.len() ==> has_pid(procs@, #[trigger] starts@[j]),
{
    let mut starts = root_pids(procs);
    let ghost roots = starts@;
    let n = procs.len();
    let mut i: usize = 0;
    while i < n
        invariant
            procs.wf(),
            n == procs@.len(),
            i <= n,
            roots == roots_of_in(procs@, procs@),
            forall|j: int| 0 <= j < roots.len() ==> has_pid(procs@, #[trigger] roots[j]),
            starts@ == roots + all_pids(procs@).take(i as int),
        decreases n - i,
    {
        starts.push(procs.entry(i).pid);
        assert(all_pids(procs@).take(i + 1) =~= all_pids(procs@).take(i as int).push(procs@[i as int].pid));
        i += 1;
    }
    assert(all_pids(procs@).take(n as int) =~= all_pids(procs@));
    proof {
        assert forall|j: int| 0 <= j < starts@.len() implies has_pid(procs@, #[trigger] starts@[j]) by {
            if j >= roots.len() {
                assert(starts@[j] == procs@[j - roots.len()].pid);
            } else {
                assert(starts@[j] == roots[j]);
            }
        }
    }
    starts
}

/// The rows of the whole display: the walk of each root in turn (at the top
/// level, drawn as a last child), threading the seen set from one to the next.
pub open spec fn walk_forest(
    s: Seq<Proc>,
    ch: Map<i32, Vec<i32>>,
    roots: Seq<i32>,
    i: int,
    seen: Set<i32>,
) -> (Seq<(i32, Seq<char>)>, Set<i32>)
    decreases roots.len() - i,
{
    if i < 0 || i >= roots.len() {
        (Seq::empty(), seen)
    } else {
        let first = walk_rows(s, ch, roots[i], true, Seq::empty(), true, seen);
        let rest = walk_forest(s, ch, roots, i + 1, first.1);
        (first.0 + rest.0, rest.1)
    }
}

/// The search cache after computing the search text of each root in turn,
/// threading the cache and the seen set from one to the next.
pub open spec fn search_forest(
    s: Seq<Proc>,
    ch: Map<i32, Vec<i32>>,
    roots: Seq<i32>,
    i: int,
    cache: Map<i32, Seq<char>>,
    seen: Set<i32>,
) -> (Map<i32, Seq<char>>, Set<i32>)
    decreases roots.len() - i,
{
    if i < 0 || i >= roots.len() {
        (cache, seen)
    } else {
        let first = search_text(s, ch, roots[i], cache, seen);
        search_forest(s, ch, roots, i + 1, first.1, first.2)
    }
}

/// Lays out the rows of every tree, root after root.
pub fn layout_rows(procs: &ProcMap, children: &HashMap<i32, Vec<i32>>, roots: &Vec<i32>) -> (rows:
    Vec<(i32, String)>)
    requires
        procs.wf(),
        children_known(procs@, children@),
        forall|j: int| 0 <= j < roots@.len() ==> has_pid(procs@, #[trigger] roots@[j]),
    ensures
        rows_view(rows@) == walk_forest(procs@, children@, roots@, 0, Set::empty()).0,
{
    let mut rows: Vec<(i32, String)> = Vec::new();
    let mut seen: HashSet<i32> = HashSet::new();
    let ghost whole = walk_forest(procs@, children@, roots@, 0, Set::empty());
    proof {
        reveal_strlit("");
        assert(rows_view(rows@) =~= Seq::empty());
    }
    let mut i: usize = 0;
    while i < roots.len()
        invariant
            procs.wf(),
            children_known(procs@, children@),
            forall|j: int| 0 <= j < roots@.len() ==> has_pid(procs@, #[trigger] roots@[j]),
            i <= roots@.len(),
            ""@ == Seq::<char>::empty(),
            whole == walk_forest(procs@, children@, roots@, 0, Set::empty()),
            rows_view(rows@) + walk_forest(procs@, children@, roots@, i as int, seen@).0 == whole.0,
        decreases roots.len() - i,
    {
        let ghost before = rows_view(rows@);
        let ghost seen_i = seen@;
        walk_tree(roots[i], 0, "", true, procs, children, &mut seen, &mut rows);
        proof {
            let first = walk_rows(procs@, children@, roots@[i as int], true, Seq::empty(), true, seen_i);
            let rest = walk_forest(procs@, children@, roots@, i + 1, first.1);
            assert(before + (first.0 + rest.0) =~= (before + first.0) + rest.0);
        }
        i += 1;
    }
    assert(rows_view(rows@) =~= whole.0);
    rows
}

/// Computes the search text of every tree, root after root, and returns the cache
/// that holds the text of each process reached.
pub fn search_texts(procs: &ProcMap, children: &HashMap<i32, Vec<i32>>, roots: &Vec<i32>) -> (cache:
    HashMap<i32, String>)
    requires
        procs.wf(),
        children_known(procs@, children@),
        forall|j: int| 0 <= j < roots@.len() ==> has_pid(procs@, #[trigger] roots@[j]),
    ensures
        cache_view(cache@) == search_forest(procs@, children@, roots@, 0, Map::empty(), Set::empty()).0,
{
    let mut cache: HashMap<i32, String> = HashMap::new();
    let mut seen: HashSet<i32> = HashSet::new();
    let ghost whole = search_forest(procs@, children@, roots@, 0, Map::empty(), Set::empty());
    assert(cache_view(cache@) =~= Map::empty());
    let mut i: usize = 0;
    while i < roots.len()
        invariant
            procs.wf(),
            children_known(procs@, children@),
            forall|j: int| 0 <= j < roots@.len() ==> has_pid(procs@, #[trigger] roots@[j]),
            i <= roots@.len(),
            whole == search_forest(procs@, children@, roots@, 0, Map::empty(), Set::empty()),
            search_forest(procs@, children@, roots@, i as int, cache_view(cache@), seen@) == whole,
        decreases roots.len() - i,
    {
        let _ = build_search(roots[i], procs, children, &mut cache, &mut seen);
        i += 1;
    }
    cache
}

} // verus!
