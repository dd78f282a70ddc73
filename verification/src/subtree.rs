//! What the subtree search texts hold: for every process whose ancestor chain
//! ends at a displayed root, the search text of each of its children lies
//! inside its own.
use vstd::prelude::*;
use crate::procs::{has_pid, lemma_pid_index_unique, pids_increasing, proc_of, Proc};
use crate::text::{ascii_lower, ascii_text, contains_text, is_ascii_char, join, occurs_at};
use crate::tree::{
    ancestor, child_pids, children_of, kids, lemma_child_pids, lemma_unvisited_insert,
    lemma_unvisited_subset, on_chain, roots_of_in, search_forest, start_pids, search_kids, search_text,
    unvisited,
};

verus! {

/// Following the parent link `a` times and then `b` times is following it `a + b` times.
pub proof fn lemma_ancestor_add(s: Seq<Proc>, x: i32, a: nat, b: nat)
    ensures
        ancestor(s, x, a + b) == ancestor(s, ancestor(s, x, a), b),
    decreases b,
{
    if b > 0 {
        lemma_ancestor_add(s, x, a, (b - 1) as nat);
        assert(ancestor(s, x, a + b) == proc_of(s, ancestor(s, x, (a + b - 1) as nat)).ppid);
    }
}

/// The chain from `x` stays in the table for `n` steps and then reaches a pid
/// that is not listed: `ancestor(s, x, n)` is the top of a displayed tree.
pub open spec fn rooted_at(s: Seq<Proc>, x: i32, n: nat) -> bool {
    &&& forall|j: nat| j <= n ==> #[trigger] has_pid(s, ancestor(s, x, j))
    &&& !has_pid(s, ancestor(s, x, n + 1))
}

/// The chain of `x` ends at a displayed root (it does not run into a cycle).
pub open spec fn rooted(s: Seq<Proc>, x: i32) -> bool {
    exists|n: nat| rooted_at(s, x, n)
}

/// A listed child of a rooted process is rooted, one step further from its root.
pub proof fn lemma_rooted_child(s: Seq<Proc>, p: i32, n: nat, x: i32)
    requires
        rooted_at(s, p, n),
        has_pid(s, x),
        proc_of(s, x).ppid == p,
    ensures
        rooted_at(s, x, n + 1),
{
    assert(ancestor(s, x, 0) == x);
    assert(ancestor(s, x, 1) == p);
    assert forall|j: nat| j <= n + 1 implies #[trigger] has_pid(s, ancestor(s, x, j)) by {
        if j > 0 {
            lemma_ancestor_add(s, x, 1, (j - 1) as nat);
            assert(has_pid(s, ancestor(s, p, (j - 1) as nat)));
        }
    }
    lemma_ancestor_add(s, x, 1, n + 1);
}

/// The listed parent of a rooted process is rooted, one step nearer its root.
pub proof fn lemma_rooted_parent(s: Seq<Proc>, x: i32, n: nat)
    requires
        rooted_at(s, x, n),
        has_pid(s, proc_of(s, x).ppid),
    ensures
        n >= 1,
        rooted_at(s, proc_of(s, x).ppid, (n - 1) as nat),
{
    let p = proc_of(s, x).ppid;
    assert(ancestor(s, x, 0) == x);
    assert(ancestor(s, x, 1) == p);
    if n == 0 {
        assert(has_pid(s, ancestor(s, x, 0 + 1)));
    }
    assert forall|j: nat| j <= (n - 1) as nat implies #[trigger] has_pid(s, ancestor(s, p, j)) by {
        lemma_ancestor_add(s, x, 1, j);
        assert(has_pid(s, ancestor(s, x, 1 + j)));
    }
    lemma_ancestor_add(s, x, 1, n);
}

/// Following the chain of `q` comes back to `q` every `m + 1` steps when the
/// parent of its `m`-th point is `q` again.
proof fn lemma_chain_period(s: Seq<Proc>, q: i32, m: nat, t: nat)
    requires
        ancestor(s, q, m + 1) == q,
        forall|j: nat| j <= m ==> #[trigger] has_pid(s, ancestor(s, q, j)),
    ensures
        has_pid(s, ancestor(s, q, t)),
    decreases t,
{
    if t > m {
        let u = (t - (m + 1)) as nat;
        lemma_chain_period(s, q, m, u);
        lemma_ancestor_add(s, q, m + 1, u);
        assert(u + (m + 1) == t);
    }
}

/// No process of a rooted chain is its own ancestor: a child of a rooted `q`
/// is not on the chain of `q`.
pub proof fn lemma_rooted_no_cycle(s: Seq<Proc>, q: i32, k: i32)
    requires
        rooted(s, q),
        on_chain(s, q, k),
    ensures
        proc_of(s, k).ppid != q,
{
    if proc_of(s, k).ppid == q {
    let n = choose|n: nat| rooted_at(s, q, n);
    let m = choose|m: nat|
        #![trigger ancestor(s, q, m)]
        ancestor(s, q, m) == k && forall|j: nat| j <= m ==> #[trigger] has_pid(s, ancestor(s, q, j));
    assert(ancestor(s, q, m + 1) == proc_of(s, ancestor(s, q, m)).ppid);
    lemma_chain_period(s, q, m, n + 1);
    }
}

/// A listed process whose parent's chain reaches `y` has a chain reaching `y` too.
pub proof fn lemma_chain_extend(s: Seq<Proc>, x: i32, y: i32)
    requires
        has_pid(s, x),
        on_chain(s, proc_of(s, x).ppid, y),
    ensures
        on_chain(s, x, y),
{
    let p = proc_of(s, x).ppid;
    let m = choose|m: nat|
        #![trigger ancestor(s, p, m)]
        ancestor(s, p, m) == y && forall|j: nat| j <= m ==> #[trigger] has_pid(s, ancestor(s, p, j));
    assert(ancestor(s, x, 0) == x);
    assert(ancestor(s, x, 1) == p);
    lemma_ancestor_add(s, x, 1, m);
    assert forall|j: nat| j <= m + 1 implies #[trigger] has_pid(s, ancestor(s, x, j)) by {
        if j > 0 {
            lemma_ancestor_add(s, x, 1, (j - 1) as nat);
            assert(has_pid(s, ancestor(s, p, (j - 1) as nat)));
        }
    }
    assert(ancestor(s, x, m + 1) == y);
}

/// A pid listed among the children of `p` is listed, and its parent is `p`.
pub proof fn lemma_kid_facts(s: Seq<Proc>, ch: Map<i32, Vec<i32>>, p: i32, j: int)
    requires
        pids_increasing(s),
        children_of(s, ch),
        0 <= j < kids(ch, p).len(),
    ensures
        has_pid(s, kids(ch, p)[j]),
        proc_of(s, kids(ch, p)[j]).ppid == p,
{
    assert(ch.contains_key(p));
    assert(kids(ch, p) == child_pids(s, p));
    lemma_child_pids(s, p, j);
    let i = choose|i: int|
        0 <= i < s.len() && s[i].pid == child_pids(s, p)[j] && s[i].ppid == p;
    lemma_pid_index_unique(s, i);
}

/// Every entry naming `parent` as its parent is among the children of `parent`.
pub proof fn lemma_in_child_pids(s: Seq<Proc>, parent: i32, i: int)
    requires
        0 <= i < s.len(),
        s[i].ppid == parent,
    ensures
        child_pids(s, parent).contains(s[i].pid),
    decreases s.len(),
{
    if i < s.len() - 1 {
        lemma_in_child_pids(s.drop_last(), parent, i);
        let rest = child_pids(s.drop_last(), parent);
        let k = choose|k: int| 0 <= k < rest.len() && rest[k] == s[i].pid;
        assert(child_pids(s, parent)[k] == s[i].pid);
    } else {
        let c = child_pids(s, parent);
        assert(c[c.len() - 1] == s[i].pid);
    }
}

/// A text holds every one of the parts it joins.
pub proof fn lemma_join_contains(parts: Seq<Seq<char>>, sep: Seq<char>, t: int)
    requires
        0 <= t < parts.len(),
    ensures
        contains_text(join(parts, sep), parts[t]),
    decreases parts.len(),
{
    let whole = join(parts, sep);
    if parts.len() == 1 {
        assert(whole.subrange(0, parts[t].len() as int) =~= parts[t]);
        assert(occurs_at(whole, parts[t], 0));
    } else {
        let front = join(parts.drop_last(), sep);
        if t == parts.len() - 1 {
            let at: int = (front.len() + sep.len()) as int;
            assert(whole.subrange(at, at + parts[t].len()) =~= parts[t]);
            assert(occurs_at(whole, parts[t], at));
        } else {
            lemma_join_contains(parts.drop_last(), sep, t);
            assert(parts.drop_last()[t] == parts[t]);
            let i = choose|i: int| occurs_at(front, parts[t], i);
            assert(whole.subrange(i, i + parts[t].len()) =~= front.subrange(i, i + parts[t].len()));
            assert(occurs_at(whole, parts[t], i));
        }
    }
}

/// A text inside a text inside `a` is inside `a`.
pub proof fn lemma_contains_trans(a: Seq<char>, b: Seq<char>, c: Seq<char>)
    requires
        contains_text(a, b),
        contains_text(b, c),
    ensures
        contains_text(a, c),
{
    let i = choose|i: int| occurs_at(a, b, i);
    let j = choose|j: int| occurs_at(b, c, j);
    assert(a.subrange(i + j, i + j + c.len()) =~= c) by {
        assert forall|k: int| 0 <= k < c.len() implies a.subrange(i + j, i + j + c.len())[k] == c[k] by {
            assert(a.subrange(i, i + b.len())[j + k] == b[j + k]);
            assert(b.subrange(j, j + c.len())[k] == c[k]);
        }
    }
    assert(occurs_at(a, c, i + j));
}

/// Every text holds the empty text.
pub proof fn lemma_contains_empty(a: Seq<char>, e: Seq<char>)
    requires
        e.len() == 0,
    ensures
        contains_text(a, e),
{
    assert(a.subrange(0, 0) =~= e);
    assert(occurs_at(a, e, 0));
}

/// `y` is marked seen but has no cached text yet: its text is being computed.
pub open spec fn pending(cache: Map<i32, Seq<char>>, seen: Set<i32>, y: i32) -> bool {
    seen.contains(y) && !cache.contains_key(y)
}

/// Every cached rooted process has each of its children cached, with the
/// child's text inside its own.
pub open spec fn settled(s: Seq<Proc>, ch: Map<i32, Vec<i32>>, cache: Map<i32, Seq<char>>) -> bool {
    forall|q: i32, j: int|
        #![trigger cache.contains_key(q), kids(ch, q)[j]]
        cache.contains_key(q) && rooted(s, q) && 0 <= j < kids(ch, q).len() ==> cache.contains_key(
            kids(ch, q)[j],
        ) && contains_text(cache[q], cache[kids(ch, q)[j]])
}

/// A state of the search computation that only holds texts of listed, seen
/// processes, and is settled.
pub open spec fn sound(s: Seq<Proc>, ch: Map<i32, Vec<i32>>, cache: Map<i32, Seq<char>>, seen: Set<i32>) -> bool {
    &&& settled(s, ch, cache)
    &&& forall|q: i32| #[trigger] cache.contains_key(q) ==> seen.contains(q) && has_pid(s, q)
}

/// `c2` keeps every entry of `c1`.
pub open spec fn extends(c1: Map<i32, Seq<char>>, c2: Map<i32, Seq<char>>) -> bool {
    forall|q: i32| #[trigger] c1.contains_key(q) ==> c2.contains_key(q) && c2[q] == c1[q]
}

/// The same pids are being computed in both states.
pub open spec fn same_pending(
    c1: Map<i32, Seq<char>>,
    s1: Set<i32>,
    c2: Map<i32, Seq<char>>,
    s2: Set<i32>,
) -> bool {
    forall|y: i32|
        #![trigger pending(c1, s1, y)]
        #![trigger pending(c2, s2, y)]
        pending(c1, s1, y) == pending(c2, s2, y)
}

/// Computing one search text keeps the state sound, keeps every cached text,
/// leaves the same pids being computed, and caches the text of `pid` whenever
/// `pid` is listed and not itself being computed; the text returned is then the
/// cached one.
pub proof fn lemma_search_text_facts(
    s: Seq<Proc>,
    ch: Map<i32, Vec<i32>>,
    pid: i32,
    cache: Map<i32, Seq<char>>,
    seen: Set<i32>,
)
    requires
        pids_increasing(s),
        children_of(s, ch),
        sound(s, ch, cache, seen),
        forall|y: i32| #[trigger] pending(cache, seen, y) ==> on_chain(s, proc_of(s, pid).ppid, y),
    ensures
        ({
            let r = search_text(s, ch, pid, cache, seen);
            &&& sound(s, ch, r.1, r.2)
            &&& extends(cache, r.1)
            &&& same_pending(cache, seen, r.1, r.2)
            &&& r.1.contains_key(pid) ==> r.0 == r.1[pid]
            &&& has_pid(s, pid) && !pending(cache, seen, pid) ==> r.1.contains_key(pid)
        }),
    decreases unvisited(s, seen), 0nat, 0nat,
{
    let r = search_text(s, ch, pid, cache, seen);
    if cache.contains_key(pid) {
    } else if seen.contains(pid) || !has_pid(s, pid) {
    } else {
        lemma_unvisited_insert(s, seen, pid);
        let seen1 = seen.insert(pid);
        let ks = kids(ch, pid);
        assert forall|y: i32| #[trigger] pending(cache, seen1, y) implies on_chain(s, pid, y) by {
            if y == pid {
                assert(ancestor(s, pid, 0) == pid);
                assert forall|j: nat| j <= 0 implies #[trigger] has_pid(s, ancestor(s, pid, j)) by {}
            } else {
                assert(pending(cache, seen, y));
                lemma_chain_extend(s, pid, y);
            }
        }
        lemma_search_kids_facts(s, ch, pid, ks, 0, cache, seen1);
        let rest = search_kids(s, ch, ks, 0, cache, seen1);
        let text = join(seq![proc_of(s, pid).own@] + rest.0, seq![' ']);
        assert(r == (text, rest.1.insert(pid, text), rest.2));
        assert(pending(cache, seen1, pid));
        assert(pending(rest.1, rest.2, pid));
        assert forall|q: i32, j: int|
            #![trigger r.1.contains_key(q), kids(ch, q)[j]]
            r.1.contains_key(q) && rooted(s, q) && 0 <= j < kids(ch, q).len() implies r.1.contains_key(
                kids(ch, q)[j],
            ) && contains_text(r.1[q], r.1[kids(ch, q)[j]]) by {
            let k = kids(ch, q)[j];
            if q == pid {
                assert(rest.1.contains_key(k));
                let kt = rest.1[k];
                if kt.len() == 0 {
                    lemma_contains_empty(text, kt);
                } else {
                    let t = choose|t: int| 0 <= t < rest.0.len() && rest.0[t] == kt;
                    let parts = seq![proc_of(s, pid).own@] + rest.0;
                    assert(parts[t + 1] == kt);
                    lemma_join_contains(parts, seq![' '], t + 1);
                }
            } else {
                assert(rest.1.contains_key(q));
                assert(rest.1.contains_key(k) && contains_text(rest.1[q], rest.1[k]));
            }
        }
        assert forall|y: i32|
            #![trigger pending(cache, seen, y)]
            #![trigger pending(r.1, r.2, y)]
            pending(cache, seen, y) == pending(r.1, r.2, y) by {
            if y != pid {
                assert(pending(cache, seen1, y) == pending(rest.1, rest.2, y));
                assert(pending(cache, seen1, y) == pending(cache, seen, y));
            }
        }
        assert forall|q: i32| #[trigger] cache.contains_key(q) implies r.1.contains_key(q) && r.1[q]
            == cache[q] by {
            assert(rest.1.contains_key(q) && rest.1[q] == cache[q]);
        }
    }
}

/// Computing the texts of the children `ks[i..]` of `p` keeps the state sound,
/// keeps every cached text and leaves the same pids being computed; when `p`
/// is rooted, each of those children ends up cached, and its text, unless
/// empty, is among the texts returned.
pub proof fn lemma_search_kids_facts(
    s: Seq<Proc>,
    ch: Map<i32, Vec<i32>>,
    p: i32,
    ks: Seq<i32>,
    i: int,
    cache: Map<i32, Seq<char>>,
    seen: Set<i32>,
)
    requires
        pids_increasing(s),
        children_of(s, ch),
        ks == kids(ch, p),
        0 <= i,
        sound(s, ch, cache, seen),
        forall|y: i32| #[trigger] pending(cache, seen, y) ==> on_chain(s, p, y),
    ensures
        ({
            let r = search_kids(s, ch, ks, i, cache, seen);
            &&& sound(s, ch, r.1, r.2)
            &&& extends(cache, r.1)
            &&& same_pending(cache, seen, r.1, r.2)
            &&& rooted(s, p) ==> forall|j: int|
                i <= j < ks.len() ==> r.1.contains_key(#[trigger] ks[j]) && (r.1[ks[j]].len() == 0
                    || r.0.contains(r.1[ks[j]]))
        }),
    decreases unvisited(s, seen), 1nat, ks.len() - i,
{
    if i < ks.len() {
        let k = ks[i];
        lemma_kid_facts(s, ch, p, i);
        lemma_search_text_facts(s, ch, k, cache, seen);
        crate::tree::lemma_search_text_grows(s, ch, k, cache, seen);
        let first = search_text(s, ch, k, cache, seen);
        lemma_unvisited_subset(s, seen, first.2);
        assert forall|y: i32| #[trigger] pending(first.1, first.2, y) implies on_chain(s, p, y) by {
            assert(pending(cache, seen, y));
        }
        lemma_search_kids_facts(s, ch, p, ks, i + 1, first.1, first.2);
        let rest = search_kids(s, ch, ks, i + 1, first.1, first.2);
        let mine = if first.0.len() > 0 {
            seq![first.0]
        } else {
            Seq::empty()
        };
        let r = search_kids(s, ch, ks, i, cache, seen);
        assert(r == (mine + rest.0, rest.1, rest.2));
        assert forall|y: i32|
            #![trigger pending(cache, seen, y)]
            #![trigger pending(r.1, r.2, y)]
            pending(cache, seen, y) == pending(r.1, r.2, y) by {
            assert(pending(cache, seen, y) == pending(first.1, first.2, y));
            assert(pending(first.1, first.2, y) == pending(rest.1, rest.2, y));
        }
        assert forall|q: i32| #[trigger] cache.contains_key(q) implies r.1.contains_key(q) && r.1[q]
            == cache[q] by {
            assert(first.1.contains_key(q) && first.1[q] == cache[q]);
        }
        if rooted(s, p) {
            assert forall|j: int| i <= j < ks.len() implies r.1.contains_key(#[trigger] ks[j]) && (
            r.1[ks[j]].len() == 0 || r.0.contains(r.1[ks[j]])) by {
                if j == i {
                    if pending(cache, seen, k) {
                        lemma_rooted_no_cycle(s, p, k);
                    }
                    assert(first.1.contains_key(k));
                    assert(rest.1[k] == first.0);
                    if first.0.len() > 0 {
                        assert(r.0[0] == first.0);
                    }
                } else {
                    if rest.1[ks[j]].len() > 0 {
                        let t = choose|t: int| 0 <= t < rest.0.len() && rest.0[t] == rest.1[ks[j]];
                        assert(r.0[mine.len() + t] == rest.0[t]);
                    }
                }
            }
        }
    }
}

/// Computing the texts of the roots `roots[i..]` from a state with nothing
/// being computed keeps it sound and keeps every cached text, ends with nothing
/// being computed, and caches the text of every listed root among them.
pub proof fn lemma_search_forest_facts(
    s: Seq<Proc>,
    ch: Map<i32, Vec<i32>>,
    roots: Seq<i32>,
    i: int,
    cache: Map<i32, Seq<char>>,
    seen: Set<i32>,
)
    requires
        pids_increasing(s),
        children_of(s, ch),
        0 <= i,
        sound(s, ch, cache, seen),
        forall|y: i32| !#[trigger] pending(cache, seen, y),
    ensures
        ({
            let r = search_forest(s, ch, roots, i, cache, seen);
            &&& sound(s, ch, r.0, r.1)
            &&& extends(cache, r.0)
            &&& forall|y: i32| !#[trigger] pending(r.0, r.1, y)
            &&& forall|j: int|
                i <= j < roots.len() && has_pid(s, #[trigger] roots[j]) ==> r.0.contains_key(roots[j])
        }),
    decreases roots.len() - i,
{
    if i < roots.len() {
        lemma_search_text_facts(s, ch, roots[i], cache, seen);
        let first = search_text(s, ch, roots[i], cache, seen);
        assert forall|y: i32| !#[trigger] pending(first.1, first.2, y) by {
            assert(!pending(cache, seen, y));
        }
        lemma_search_forest_facts(s, ch, roots, i + 1, first.1, first.2);
        let r = search_forest(s, ch, roots, i + 1, first.1, first.2);
        assert forall|q: i32| #[trigger] cache.contains_key(q) implies r.0.contains_key(q) && r.0[q]
            == cache[q] by {
            assert(first.1.contains_key(q) && first.1[q] == cache[q]);
        }
        assert(!pending(cache, seen, roots[i]));
    }
}

/// Every listed process whose parent is not listed is among the roots.
pub proof fn lemma_root_listed(s: Seq<Proc>, t: Seq<Proc>, i: int)
    requires
        0 <= i < t.len(),
        !has_pid(s, t[i].ppid),
    ensures
        roots_of_in(s, t).contains(t[i].pid),
    decreases t.len(),
{
    let r = roots_of_in(s, t);
    if i < t.len() - 1 {
        lemma_root_listed(s, t.drop_last(), i);
        let rest = roots_of_in(s, t.drop_last());
        let k = choose|k: int| 0 <= k < rest.len() && rest[k] == t[i].pid;
        assert(r[k] == t[i].pid);
    } else {
        assert(r[r.len() - 1] == t[i].pid);
    }
}

/// In a settled cache that holds every root, every rooted process is cached.
pub proof fn lemma_rooted_cached(
    s: Seq<Proc>,
    ch: Map<i32, Vec<i32>>,
    cache: Map<i32, Seq<char>>,
    x: i32,
    n: nat,
)
    requires
        pids_increasing(s),
        children_of(s, ch),
        settled(s, ch, cache),
        forall|r: i32|
            #![trigger roots_of_in(s, s).contains(r)]
            roots_of_in(s, s).contains(r) && has_pid(s, r) ==> cache.contains_key(r),
        rooted_at(s, x, n),
    ensures
        cache.contains_key(x),
    decreases n,
{
    assert(ancestor(s, x, 0) == x);
    assert(has_pid(s, x));
    let i = crate::procs::pid_index(s, x);
    lemma_pid_index_unique(s, i);
    assert(ancestor(s, x, 1) == proc_of(s, x).ppid);
    if n == 0 {
        lemma_root_listed(s, s, i);
    } else {
        let p = proc_of(s, x).ppid;
        assert(has_pid(s, ancestor(s, x, 1)));
        lemma_rooted_parent(s, x, n);
        lemma_rooted_cached(s, ch, cache, p, (n - 1) as nat);
        lemma_in_child_pids(s, p, i);
        let c = child_pids(s, p);
        let j = choose|j: int| 0 <= j < c.len() && c[j] == x;
        assert(ch.contains_key(p));
        assert(kids(ch, p)[j] == x);
        assert(rooted(s, p));
        assert(cache.contains_key(kids(ch, p)[j]));
    }
}

/// After the search texts of all the roots have been computed, a rooted process
/// with a listed parent has its text cached, so has its parent, and the
/// parent's text holds the child's.
pub proof fn lemma_parent_text_holds_child(s: Seq<Proc>, ch: Map<i32, Vec<i32>>, x: i32, n: nat)
    requires
        pids_increasing(s),
        children_of(s, ch),
        rooted_at(s, x, n),
        has_pid(s, proc_of(s, x).ppid),
    ensures
        ({
            let c = search_forest(s, ch, start_pids(s), 0, Map::empty(), Set::empty()).0;
            let p = proc_of(s, x).ppid;
            &&& c.contains_key(x)
            &&& c.contains_key(p)
            &&& contains_text(c[p], c[x])
        }),
{
    let roots = roots_of_in(s, s);
    let starts = start_pids(s);
    let c = search_forest(s, ch, starts, 0, Map::empty(), Set::empty()).0;
    let p = proc_of(s, x).ppid;
    lemma_search_forest_facts(s, ch, starts, 0, Map::empty(), Set::empty());
    assert forall|r: i32|
        #![trigger roots_of_in(s, s).contains(r)]
        roots_of_in(s, s).contains(r) && has_pid(s, r) implies c.contains_key(r) by {
        let j = choose|j: int| 0 <= j < roots.len() && roots[j] == r;
        assert(starts[j] == roots[j]);
        assert(has_pid(s, starts[j]));
    }
    lemma_rooted_cached(s, ch, c, x, n);
    lemma_rooted_parent(s, x, n);
    lemma_rooted_cached(s, ch, c, p, (n - 1) as nat);
    let i = crate::procs::pid_index(s, x);
    assert(ancestor(s, x, 0) == x);
    assert(has_pid(s, x));
    lemma_pid_index_unique(s, i);
    lemma_in_child_pids(s, p, i);
    let cp = child_pids(s, p);
    let j = choose|j: int| 0 <= j < cp.len() && cp[j] == x;
    assert(ch.contains_key(p));
    assert(kids(ch, p)[j] == x);
    assert(rooted(s, p));
    assert(c.contains_key(kids(ch, p)[j]));
}

/// Lowering `A`-`Z` keeps every occurrence of one text in another.
pub proof fn lemma_ascii_lower_contains(a: Seq<char>, b: Seq<char>)
    requires
        contains_text(a, b),
    ensures
        contains_text(ascii_lower(a), ascii_lower(b)),
{
    let i = choose|i: int| occurs_at(a, b, i);
    assert(ascii_lower(a).subrange(i, i + b.len()) =~= ascii_lower(b)) by {
        assert forall|k: int| 0 <= k < b.len() implies ascii_lower(a).subrange(i, i + b.len())[k]
            == ascii_lower(b)[k] by {
            assert(a.subrange(i, i + b.len())[k] == b[k]);
        }
    }
    assert(occurs_at(ascii_lower(a), ascii_lower(b), i));
}

/// A text inside an ASCII text is ASCII.
pub proof fn lemma_ascii_inside(a: Seq<char>, b: Seq<char>)
    requires
        ascii_text(a),
        contains_text(a, b),
    ensures
        ascii_text(b),
{
    let i = choose|i: int| occurs_at(a, b, i);
    assert forall|k: int| 0 <= k < b.len() implies is_ascii_char(#[trigger] b[k]) by {
        assert(a.subrange(i, i + b.len())[k] == b[k]);
        assert(is_ascii_char(a[i + k]));
    }
}

/// Joining ASCII parts with an ASCII separator gives an ASCII text.
pub proof fn lemma_join_ascii(parts: Seq<Seq<char>>, sep: Seq<char>)
    requires
        forall|i: int| 0 <= i < parts.len() ==> ascii_text(#[trigger] parts[i]),
        ascii_text(sep),
    ensures
        ascii_text(join(parts, sep)),
    decreases parts.len(),
{
    if parts.len() > 1 {
        assert forall|i: int| 0 <= i < parts.drop_last().len() implies ascii_text(
            #[trigger] parts.drop_last()[i],
        ) by {
            assert(parts.drop_last()[i] == parts[i]);
        }
        lemma_join_ascii(parts.drop_last(), sep);
        let a = join(parts.drop_last(), sep);
        let b = a + sep + parts.last();
        assert(ascii_text(parts[parts.len() - 1]));
        assert forall|k: int| 0 <= k < b.len() implies is_ascii_char(#[trigger] b[k]) by {
            if k < a.len() {
                assert(is_ascii_char(a[k]));
            } else if k < a.len() + sep.len() {
                assert(is_ascii_char(sep[k - a.len()]));
            } else {
                assert(is_ascii_char(parts[parts.len() - 1][k - a.len() - sep.len()]));
            }
        }
    } else if parts.len() == 1 {
        assert(ascii_text(parts[0]));
    }
}

/// Every listed process has an ASCII own text.
pub open spec fn ascii_owns(s: Seq<Proc>) -> bool {
    forall|pid: i32| has_pid(s, pid) ==> ascii_text(#[trigger] proc_of(s, pid).own@)
}

/// Every text of the cache is ASCII.
pub open spec fn ascii_cache(cache: Map<i32, Seq<char>>) -> bool {
    forall|q: i32| #[trigger] cache.contains_key(q) ==> ascii_text(cache[q])
}

/// With ASCII own texts, one search text and every text cached on the way are ASCII.
pub proof fn lemma_search_text_ascii(
    s: Seq<Proc>,
    ch: Map<i32, Vec<i32>>,
    pid: i32,
    cache: Map<i32, Seq<char>>,
    seen: Set<i32>,
)
    requires
        ascii_owns(s),
        ascii_cache(cache),
    ensures
        ({
            let r = search_text(s, ch, pid, cache, seen);
            ascii_text(r.0) && ascii_cache(r.1)
        }),
    decreases unvisited(s, seen), 0nat, 0nat,
{
    if !cache.contains_key(pid) && !(seen.contains(pid) || !has_pid(s, pid)) {
        lemma_unvisited_insert(s, seen, pid);
        let ks = kids(ch, pid);
        lemma_search_kids_ascii(s, ch, ks, 0, cache, seen.insert(pid));
        let rest = search_kids(s, ch, ks, 0, cache, seen.insert(pid));
        let parts = seq![proc_of(s, pid).own@] + rest.0;
        assert forall|i: int| 0 <= i < parts.len() implies ascii_text(#[trigger] parts[i]) by {
            if i > 0 {
                assert(parts[i] == rest.0[i - 1]);
            }
        }
        assert(ascii_text(seq![' ']));
        lemma_join_ascii(parts, seq![' ']);
    } else if !cache.contains_key(pid) {
        assert(ascii_text(Seq::<char>::empty()));
    }
}

/// With ASCII own texts, the search texts of a children list and every text
/// cached on the way are ASCII.
pub proof fn lemma_search_kids_ascii(
    s: Seq<Proc>,
    ch: Map<i32, Vec<i32>>,
    ks: Seq<i32>,
    i: int,
    cache: Map<i32, Seq<char>>,
    seen: Set<i32>,
)
    requires
        ascii_owns(s),
        ascii_cache(cache),
    ensures
        ({
            let r = search_kids(s, ch, ks, i, cache, seen);
            &&& forall|k: int| 0 <= k < r.0.len() ==> ascii_text(#[trigger] r.0[k])
            &&& ascii_cache(r.1)
        }),
    decreases unvisited(s, seen), 1nat, ks.len() - i,
{
    if 0 <= i < ks.len() {
        lemma_search_text_ascii(s, ch, ks[i], cache, seen);
        crate::tree::lemma_search_text_grows(s, ch, ks[i], cache, seen);
        let first = search_text(s, ch, ks[i], cache, seen);
        lemma_unvisited_subset(s, seen, first.2);
        lemma_search_kids_ascii(s, ch, ks, i + 1, first.1, first.2);
        let rest = search_kids(s, ch, ks, i + 1, first.1, first.2);
        let mine = if first.0.len() > 0 {
            seq![first.0]
        } else {
            Seq::empty()
        };
        let r = search_kids(s, ch, ks, i, cache, seen);
        assert(r.0 == mine + rest.0);
        assert forall|k: int| 0 <= k < r.0.len() implies ascii_text(#[trigger] r.0[k]) by {
            if k >= mine.len() {
                assert(r.0[k] == rest.0[k - mine.len()]);
            }
        }
    }
}

/// With ASCII own texts, every text the search over the starts `starts[i..]` caches is ASCII.
pub proof fn lemma_search_forest_ascii(
    s: Seq<Proc>,
    ch: Map<i32, Vec<i32>>,
    starts: Seq<i32>,
    i: int,
    cache: Map<i32, Seq<char>>,
    seen: Set<i32>,
)
    requires
        ascii_owns(s),
        ascii_cache(cache),
    ensures
        ascii_cache(search_forest(s, ch, starts, i, cache, seen).0),
    decreases starts.len() - i,
{
    if 0 <= i < starts.len() {
        lemma_search_text_ascii(s, ch, starts[i], cache, seen);
        let first = search_text(s, ch, starts[i], cache, seen);
        lemma_search_forest_ascii(s, ch, starts, i + 1, first.1, first.2);
    }
}

} // verus!
