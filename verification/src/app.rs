//! The browser's state: the process tree, the filtered list, the cursor, the
//! selection, and what each step of the interaction does to them.
use vstd::prelude::*;
use std::collections::HashMap;
use std::collections::HashSet;
use crate::cpu::{cpu_rates_of, cpu_times_of, sample_cpu};
use crate::filter::all_match;
use crate::procs::{has_pid, proc_of, Proc, ProcMap};
use crate::text::{
    decimal, i32_to_string, join, join_strings, pop_char, push_char, signed_decimal, split_whitespace,
    texts, usize_to_string, words,
};
use crate::tree::{
    build_children, cache_view, children_known, children_of, layout_rows, on_chain, protected_set,
    rows_view, start_pids, walk_starts, search_forest, search_texts, walk_forest,
};
use vstd::std_specs::hash::spec_hash_keys_iter;
use vstd::std_specs::iter::IteratorSpec;

verus! {

broadcast use vstd::std_specs::hash::group_hash_axioms;

/// One line of the visible list.
pub struct Row {
    pub pid: i32,
    /// The indented process name.
    pub display: String,
    /// Not protected and a direct match of the search (or selected, in the selection view).
    pub killable: bool,
    /// Part of the user's own session chain.
    pub protected: bool,
}

/// A row as the specifications see it: pid, display text, killable, protected.
pub open spec fn row_spec(r: Row) -> (i32, Seq<char>, bool, bool) {
    (r.pid, r.display@, r.killable, r.protected)
}

/// The rows of a list as the specifications see them.
pub open spec fn rows_spec(v: Seq<Row>) -> Seq<(i32, Seq<char>, bool, bool)> {
    v.map_values(|r: Row| row_spec(r))
}

/// Browsing, or asking to confirm the kill of the listed pids.
pub enum Mode {
    Normal,
    Confirm(Vec<i32>),
}

/// The whole state of the browser.
pub struct App {
    /// Every process the user may see, keyed by pid.
    pub procs: ProcMap,
    /// Each parent pid mapped to its children, in pid order.
    pub children: HashMap<i32, Vec<i32>>,
    /// Every row of the tree in display order: (pid, indented name).
    pub full_rows: Vec<(i32, String)>,
    /// The rows that pass the current filter, in tree order.
    pub visible: Vec<Row>,
    /// The user's own session chain, which may not be killed.
    pub protected: HashSet<i32>,
    /// The search input.
    pub input: String,
    /// The highlighted position in `visible`.
    pub cursor: usize,
    /// The pid of the highlighted row, followed across rebuilds.
    pub cursor_pid: i32,
    /// The pids selected for killing.
    pub selected: HashSet<i32>,
    /// The status message.
    pub message: String,
    pub mode: Mode,
    /// Only the selected processes and their ancestors are listed.
    pub selection_view: bool,
    /// The CPU time of each process at the last refresh, in hundredths of a second.
    pub cpu_times: HashMap<i32, u64>,
    /// The CPU use of each process between the last two refreshes, in percent.
    pub cpu_rates: HashMap<i32, u64>,
}

/// The pids on the ancestor chain of some selected process, themselves included.
pub open spec fn kept_for_selection(s: Seq<Proc>, selected: Set<i32>, pid: i32) -> bool {
    exists|q: i32| #[trigger] selected.contains(q) && on_chain(s, q, pid)
}

/// What the visible list is computed from.
pub struct ListFilter {
    pub procs: Seq<Proc>,
    pub input: Seq<char>,
    pub protected: Set<i32>,
    pub selected: Set<i32>,
    pub selection_view: bool,
}

/// The filter inputs of a browser state.
pub open spec fn list_filter(a: App) -> ListFilter {
    ListFilter {
        procs: a.procs@,
        input: a.input@,
        protected: a.protected@,
        selected: a.selected@,
        selection_view: a.selection_view,
    }
}

/// Whether the listed process `pid` passes the filter: in the selection view when
/// it is selected or an ancestor of a selected process, else when there are no
/// terms or its subtree search text matches every term.
pub open spec fn row_shown(f: ListFilter, pid: i32) -> bool {
    let terms = words(f.input);
    has_pid(f.procs, pid) && if f.selection_view {
        kept_for_selection(f.procs, f.selected, pid)
    } else {
        terms.len() == 0 || all_match(proc_of(f.procs, pid).search@, terms)
    }
}

/// Whether a shown row may be selected: it is not protected, and in the selection
/// view it is selected, else there are no terms or its own text matches every term.
pub open spec fn row_killable(f: ListFilter, pid: i32) -> bool {
    let terms = words(f.input);
    !f.protected.contains(pid) && if f.selection_view {
        f.selected.contains(pid)
    } else {
        terms.len() == 0 || all_match(proc_of(f.procs, pid).own@, terms)
    }
}

/// The visible rows for the tree rows `rows`, in order.
pub open spec fn visible_spec(f: ListFilter, rows: Seq<(i32, Seq<char>)>) -> Seq<
    (i32, Seq<char>, bool, bool),
>
    decreases rows.len(),
{
    if rows.len() == 0 {
        Seq::empty()
    } else {
        let rest = visible_spec(f, rows.drop_last());
        let r = rows.last();
        if row_shown(f, r.0) {
            rest.push((r.0, r.1, row_killable(f, r.0), f.protected.contains(r.0)))
        } else {
            rest
        }
    }
}

/// The first position of `v` holding a row with this pid.
pub open spec fn first_with_pid(v: Seq<(i32, Seq<char>, bool, bool)>, pid: i32) -> Option<int>
    decreases v.len(),
{
    if v.len() == 0 {
        None
    } else {
        match first_with_pid(v.drop_last(), pid) {
            Some(i) => Some(i),
            None => if v.last().0 == pid {
                Some(v.len() - 1)
            } else {
                None
            },
        }
    }
}

/// The first position of `v` holding a killable row.
pub open spec fn first_killable(v: Seq<(i32, Seq<char>, bool, bool)>) -> Option<int>
    decreases v.len(),
{
    if v.len() == 0 {
        None
    } else {
        match first_killable(v.drop_last()) {
            Some(i) => Some(i),
            None => if v.last().2 {
                Some(v.len() - 1)
            } else {
                None
            },
        }
    }
}

/// The pids of `selected` that are still in the table.
pub open spec fn still_present(s: Seq<Proc>, selected: Set<i32>) -> Set<i32> {
    Set::new(|p: i32| selected.contains(p) && has_pid(s, p))
}

/// The pids kept in the selection view: every selected process and its ancestors.
fn selection_keep(procs: &ProcMap, selected: &HashSet<i32>) -> (keep: HashSet<i32>)
    requires
        procs.wf(),
    ensures
        forall|x: i32| #[trigger] keep@.contains(x) <==> kept_for_selection(procs@, selected@, x),
{
    let ghost sq = spec_hash_keys_iter(selected).remaining();
    let mut keep: HashSet<i32> = HashSet::new();
    for q in it: selected.iter()
        invariant
            procs.wf(),
            it.seq() == sq,
            sq.unref().to_set() == selected@,
            forall|x: i32|
                #[trigger] keep@.contains(x) <==> exists|j: int|
                    0 <= j < it.index() && on_chain(procs@, *sq[j], x),
    {
        let ghost idx = it.index();
        let chain = protected_set(procs, *q);
        let ghost before = keep@;
        let ghost cq = spec_hash_keys_iter(&chain).remaining();
        for x in jt: chain.iter()
            invariant
                jt.seq() == cq,
                cq.unref().to_set() == chain@,
                forall|y: i32|
                    #[trigger] keep@.contains(y) <==> (before.contains(y) || exists|j: int|
                        0 <= j < jt.index() && *cq[j] == y),
        {
            keep.insert(*x);
        }
        proof {
            assert forall|y: i32| #[trigger] keep@.contains(y) <==> exists|j: int|
                0 <= j < idx + 1 && on_chain(procs@, *sq[j], y) by {
                if keep@.contains(y) && !before.contains(y) {
                    let j = choose|j: int| 0 <= j < cq.len() && *cq[j] == y;
                    assert(cq.unref()[j] == y);
                    assert(chain@.contains(y));
                    assert(on_chain(procs@, *sq[idx], y));
                }
                if !before.contains(y) && exists|j: int| 0 <= j < idx + 1 && on_chain(procs@, *sq[j], y) {
                    assert(on_chain(procs@, *q, y));
                    assert(chain@.contains(y));
                    assert(cq.unref().to_set().contains(y));
                    let j = choose|j: int| 0 <= j < cq.unref().len() && cq.unref()[j] == y;
                    assert(*cq[j] == y);
                }
            }
        }
    }
    proof {
        assert forall|x: i32| #[trigger] keep@.contains(x) <==> kept_for_selection(procs@, selected@, x) by {
            if keep@.contains(x) {
                let j = choose|j: int| 0 <= j < sq.len() && on_chain(procs@, *sq[j], x);
                assert(sq.unref()[j] == *sq[j]);
                assert(selected@.contains(*sq[j]));
            }
            if kept_for_selection(procs@, selected@, x) {
                let q = choose|q: i32| #[trigger] selected@.contains(q) && on_chain(procs@, q, x);
                assert(sq.unref().to_set().contains(q));
                let j = choose|j: int| 0 <= j < sq.unref().len() && sq.unref()[j] == q;
                assert(*sq[j] == q);
            }
        }
    }
    keep
}

/// The selected pids that are still in the table.
fn retain_present(procs: &ProcMap, selected: &HashSet<i32>) -> (kept: HashSet<i32>)
    requires
        procs.wf(),
    ensures
        kept@ == still_present(procs@, selected@),
{
    let ghost sq = spec_hash_keys_iter(selected).remaining();
    let mut kept: HashSet<i32> = HashSet::new();
    for q in it: selected.iter()
        invariant
            procs.wf(),
            it.seq() == sq,
            sq.unref().to_set() == selected@,
            forall|x: i32|
                #[trigger] kept@.contains(x) <==> exists|j: int|
                    0 <= j < it.index() && *sq[j] == x && has_pid(procs@, x),
    {
        if procs.contains_key(*q) {
            kept.insert(*q);
        }
    }
    proof {
        assert forall|x: i32| #[trigger] kept@.contains(x) <==> still_present(procs@, selected@).contains(x) by {
            if kept@.contains(x) {
                let j = choose|j: int| 0 <= j < sq.len() && *sq[j] == x && has_pid(procs@, x);
                assert(sq.unref()[j] == x);
            }
            if still_present(procs@, selected@).contains(x) {
                assert(sq.unref().to_set().contains(x));
                let j = choose|j: int| 0 <= j < sq.unref().len() && sq.unref()[j] == x;
                assert(*sq[j] == x);
            }
        }
        assert(kept@ =~= still_present(procs@, selected@));
    }
    kept
}

/// `x` limited to the range `lo..=hi`.
pub open spec fn clamp(x: int, lo: int, hi: int) -> int {
    if x < lo {
        lo
    } else if x > hi {
        hi
    } else {
        x
    }
}

/// The message shown when a protected row is to be selected.
pub open spec fn protected_message() -> Seq<char> {
    "part of your own session — can't kill"@
}

/// The pids that a kill would target from the selection: selected, not
/// protected, and still in the table.
pub open spec fn selected_targets(a: App) -> Set<i32> {
    Set::new(
        |p: i32| a.selected@.contains(p) && !a.protected@.contains(p) && has_pid(a.procs@, p),
    )
}

/// The kill falls back to the highlighted row when nothing selected can be killed:
/// its pid unless it is protected, else nothing.
pub open spec fn cursor_target(a: App) -> Seq<i32> {
    if a.cursor < a.visible@.len() && !a.visible@[a.cursor as int].protected {
        seq![a.visible@[a.cursor as int].pid]
    } else {
        Seq::empty()
    }
}

/// `after` is `before` with the visible rows recomputed from the tree rows and
/// the filter, the cursor kept on the same pid when it is still listed (else
/// moved to the first killable row, or the top), and the selected pids that are
/// gone forgotten. Nothing else changes.
pub open spec fn rebuilt(before: App, after: App) -> bool {
    let v = rows_spec(after.visible@);
    &&& v == visible_spec(list_filter(before), rows_view(before.full_rows@))
    &&& match first_with_pid(v, before.cursor_pid) {
        Some(i) => after.cursor == i && after.cursor_pid == before.cursor_pid,
        None => after.cursor == (match first_killable(v) {
            Some(k) => k,
            None => 0,
        }) && after.cursor_pid == (if after.cursor < v.len() {
            v[after.cursor as int].0
        } else {
            0
        }),
    }
    &&& after.selected@ == still_present(before.procs@, before.selected@)
    &&& after.procs == before.procs
    &&& after.children@ == before.children@
    &&& after.full_rows@ == before.full_rows@
    &&& after.protected@ == before.protected@
    &&& after.input@ == before.input@
    &&& after.message@ == before.message@
    &&& after.mode == before.mode
    &&& after.selection_view == before.selection_view
    &&& after.cpu_times@ == before.cpu_times@
    &&& after.cpu_rates@ == before.cpu_rates@
}

/// `t` is the table `s` with the search text of each process replaced by its
/// text in `cache`, where it has one.
pub open spec fn searches_applied(s: Seq<Proc>, cache: Map<i32, Seq<char>>, t: Seq<Proc>) -> bool {
    &&& t.len() == s.len()
    &&& forall|i: int|
        0 <= i < s.len() ==> #[trigger] t[i] == (Proc { search: t[i].search, ..s[i] }) && t[i].search@
            == (if cache.contains_key(s[i].pid) {
            cache[s[i].pid]
        } else {
            s[i].search@
        })
}

/// `after` is `before` reloaded with the table `s` of the processes listed now,
/// `elapsed_ms` milliseconds after the previous listing: the children lists, the
/// protected chain of `self_pid`, the tree rows (exactly one for each listed
/// process) and the search texts are rebuilt from `s`, the CPU times are sampled anew and the CPU rates computed from the
/// previous sample, and then the visible list is rebuilt as `rebuilt` says.
pub open spec fn refreshed(s: Seq<Proc>, self_pid: i32, elapsed_ms: u64, before: App, after: App) -> bool {
    let ch = after.children@;
    let roots = start_pids(s);
    &&& children_of(s, ch)
    &&& children_known(s, ch)
    &&& forall|x: i32| #[trigger] after.protected@.contains(x) <==> on_chain(s, self_pid, x)
    &&& rows_view(after.full_rows@) == walk_forest(s, ch, roots, 0, Set::empty()).0
    &&& forall|x: i32|
        has_pid(s, x) <==> exists|j: int|
            0 <= j < after.full_rows@.len() && #[trigger] after.full_rows@[j].0 == x
    &&& forall|a: int, b: int|
        0 <= a < b < after.full_rows@.len() ==> after.full_rows@[a].0 != after.full_rows@[b].0
    &&& searches_applied(
        s,
        search_forest(s, ch, roots, 0, Map::empty(), Set::empty()).0,
        after.procs@,
    )
    &&& rebuilt(
        (App {
            visible: before.visible,
            cursor: before.cursor,
            cursor_pid: before.cursor_pid,
            selected: before.selected,
            ..after
        }),
        after,
    )
    &&& after.cpu_times@ == cpu_times_of(s)
    &&& after.cpu_rates@ == cpu_rates_of(before.cpu_times@, cpu_times_of(s), elapsed_ms)
    &&& after.input@ == before.input@
    &&& after.message@ == before.message@
    &&& after.mode == before.mode
    &&& after.selection_view == before.selection_view
}

/// The key of a key event.
#[derive(Clone, Copy)]
pub enum Key {
    Char(char),
    Esc,
    Backspace,
    Up,
    Down,
    Tab,
    Enter,
    Other,
}

/// A key event.
#[derive(Clone, Copy)]
pub struct KeyInput {
    pub key: Key,
    /// The modifiers include Control.
    pub ctrl: bool,
    /// The modifiers are Control and nothing else.
    pub ctrl_only: bool,
    /// The key went down (releases and repeats are ignored).
    pub press: bool,
}

/// What the caller must do after a key: nothing, quit, reload the process
/// table, or kill the listed pids (then report and reload).
pub enum Action {
    Nothing,
    Quit,
    Refresh,
    Kill(Vec<i32>),
}

/// The message shown when Enter finds nothing to kill.
pub open spec fn nothing_message() -> Seq<char> {
    "nothing selectable here"@
}

/// `t` is what a kill would target from state `a` (see `kill_targets`).
pub open spec fn targets_for(a: App, t: Seq<i32>) -> bool {
    &&& t.no_duplicates()
    &&& if selected_targets(a) =~= Set::<i32>::empty() {
        t == cursor_target(a)
    } else {
        t.to_set() == selected_targets(a)
    }
}

/// The key is the character `c` pressed with Control alone.
pub open spec fn ctrl_char(k: KeyInput, c: char) -> bool {
    k.ctrl_only && k.key == Key::Char(c)
}

/// What one key does in browsing mode; `after` is the new state and `act` what the caller must do.
pub open spec fn normal_key_step(before: App, after: App, k: KeyInput, act: Action) -> bool {
    if ctrl_char(k, 'c') {
        after == before && act is Quit
    } else if k.key is Esc {
        if before.selection_view {
            rebuilt((App { selection_view: false, ..before }), after) && act is Nothing
        } else {
            after == before && act is Quit
        }
    } else if ctrl_char(k, 'r') {
        after == before && act is Refresh
    } else if ctrl_char(k, 'u') {
        after.input@.len() == 0 && rebuilt((App { input: after.input, ..before }), after)
            && act is Nothing
    } else if ctrl_char(k, 'l') {
        rebuilt((App { selection_view: true, ..before }), after) && act is Nothing
    } else if k.key is Char && !k.ctrl {
        after.input@ == before.input@.push(k.key->Char_0) && rebuilt(
            (App { input: after.input, ..before }),
            after,
        ) && act is Nothing
    } else if k.key is Backspace {
        after.input@ == (if before.input@.len() > 0 {
            before.input@.drop_last()
        } else {
            before.input@
        }) && rebuilt((App { input: after.input, ..before }), after) && act is Nothing
    } else if k.key is Up {
        moved(before, after, -1) && act is Nothing
    } else if k.key is Down {
        moved(before, after, 1) && act is Nothing
    } else if k.key is Tab {
        toggled(before, after) && act is Nothing
    } else if k.key is Enter {
        act is Nothing && match after.mode {
            Mode::Confirm(t) => t@.len() > 0 && targets_for(before, t@) && after == (App {
                mode: after.mode,
                ..before
            }),
            Mode::Normal => targets_for(before, Seq::empty()) && after.message@
                == nothing_message() && after == (App { message: after.message, ..before }),
        }
    } else {
        after == before && act is Nothing
    }
}

/// What one key does; `after` is the new state and `act` what the caller must do.
/// In the confirmation, `y` or `Y` hands over the pids to kill; any other key cancels.
pub open spec fn key_step(before: App, after: App, k: KeyInput, act: Action) -> bool {
    if !k.press {
        after == before && act is Nothing
    } else {
        match before.mode {
            Mode::Normal => normal_key_step(before, after, k, act),
            Mode::Confirm(t) => after == (App { mode: Mode::Normal, ..before }) && if k.key
                == Key::Char('y') || k.key == Key::Char('Y') {
                act == Action::Kill(t)
            } else {
                act is Nothing
            },
        }
    }
}

/// The status message after a kill: how many processes were killed, then the
/// failures, if any, separated by "; ".
pub open spec fn kill_message(killed: nat, failed: Seq<Seq<char>>) -> Seq<char> {
    "SIGKILLed "@ + decimal(killed) + " process(es)"@ + if failed.len() == 0 {
        Seq::empty()
    } else {
        " — failed: "@ + join(failed, "; "@)
    }
}

/// The report of one failed kill: "<pid>: <detail>".
pub open spec fn kill_failure_text(pid: i32, detail: Seq<char>) -> Seq<char> {
    signed_decimal(pid as int) + ": "@ + detail
}

/// The report of one failed kill: "<pid>: <detail>".
pub fn kill_failure(pid: i32, detail: &str) -> (r: String)
    ensures
        r@ == kill_failure_text(pid, detail@),
{
    let mut r = i32_to_string(pid);
    r.append(": ");
    r.append(detail);
    r
}

/// Whether the key is the character `c`.
fn key_is_char(key: Key, c: char) -> (b: bool)
    ensures
        b == (key == Key::Char(c)),
{
    match key {
        Key::Char(d) => d == c,
        _ => false,
    }
}

/// `after` is `before` with the cursor moved by `delta` rows and stopped at
/// either end of the list (at the top of an empty list), following the pid of
/// the row it lands on. Nothing else changes.
pub open spec fn moved(before: App, after: App, delta: int) -> bool {
    &&& if before.visible@.len() == 0 {
        after.cursor == 0 && after.cursor_pid == 0
    } else {
        after.cursor == clamp(before.cursor + delta, 0, before.visible@.len() - 1)
            && after.cursor_pid == before.visible@[after.cursor as int].pid
    }
    &&& after.visible@ == before.visible@
    &&& after.procs == before.procs
    &&& after.children@ == before.children@
    &&& after.full_rows@ == before.full_rows@
    &&& after.protected@ == before.protected@
    &&& after.selected@ == before.selected@
    &&& after.input@ == before.input@
    &&& after.message@ == before.message@
    &&& after.mode == before.mode
    &&& after.selection_view == before.selection_view
    &&& after.cpu_times@ == before.cpu_times@
    &&& after.cpu_rates@ == before.cpu_rates@
}

/// `after` is `before` with the highlighted row selected or unselected; a
/// protected row is refused with a message. Nothing else changes.
pub open spec fn toggled(before: App, after: App) -> bool {
    &&& if before.cursor < before.visible@.len() {
        let r = before.visible@[before.cursor as int];
        if r.protected {
            after.message@ == protected_message() && after.selected@ == before.selected@
        } else {
            after.message@.len() == 0 && after.selected@ == (if before.selected@.contains(r.pid) {
                before.selected@.remove(r.pid)
            } else {
                before.selected@.insert(r.pid)
            })
        }
    } else {
        after.message@ == before.message@ && after.selected@ == before.selected@
    }
    &&& after.visible@ == before.visible@
    &&& after.cursor == before.cursor
    &&& after.cursor_pid == before.cursor_pid
    &&& after.procs == before.procs
    &&& after.children@ == before.children@
    &&& after.full_rows@ == before.full_rows@
    &&& after.protected@ == before.protected@
    &&& after.input@ == before.input@
    &&& after.mode == before.mode
    &&& after.selection_view == before.selection_view
    &&& after.cpu_times@ == before.cpu_times@
    &&& after.cpu_rates@ == before.cpu_rates@
}

impl App {
    /// The table is ordered by pid, and the cursor is on a row of the visible
    /// list (at the top when the list is empty).
    pub open spec fn wf(&self) -> bool {
        &&& self.procs.wf()
        &&& (self.visible@.len() == 0 ==> self.cursor == 0)
        &&& (self.visible@.len() > 0 ==> self.cursor < self.visible@.len())
    }

    /// A browser with no processes, no input and nothing selected.
    pub fn new() -> (a: App)
        ensures
            a.procs@.len() == 0,
            a.procs.wf(),
            a.full_rows@.len() == 0,
            a.visible@.len() == 0,
            a.input@.len() == 0,
            a.cursor == 0,
            a.cursor_pid == 0,
            a.selected@ == Set::<i32>::empty(),
            a.protected@ == Set::<i32>::empty(),
            a.message@.len() == 0,
            a.mode is Normal,
            !a.selection_view,
            a.cpu_times@ == Map::<i32, u64>::empty(),
            a.cpu_rates@ == Map::<i32, u64>::empty(),
            a.wf(),
    {
        App {
            procs: ProcMap::new(),
            children: HashMap::new(),
            full_rows: Vec::new(),
            visible: Vec::new(),
            protected: HashSet::new(),
            input: String::new(),
            cursor: 0,
            cursor_pid: 0,
            selected: HashSet::new(),
            message: String::new(),
            mode: Mode::Normal,
            selection_view: false,
            cpu_times: HashMap::new(),
            cpu_rates: HashMap::new(),
        }
    }

    /// The search terms: the white-space separated words of the input.
    pub fn terms(&self) -> (t: Vec<String>)
        ensures
            texts(t@) == words(self.input@),
    {
        split_whitespace(self.input.as_str())
    }

    /// Reloads the browser from a freshly listed process table, taken
    /// `elapsed_ms` milliseconds after the previous one: rebuilds the children
    /// lists, the protected chain of `self_pid` (this program's own pid), the
    /// tree rows and the search texts, samples the CPU times and rates, then
    /// rebuilds the visible list.
    pub fn refresh(&mut self, procs: ProcMap, self_pid: i32, elapsed_ms: u64)
        requires
            procs.wf(),
        ensures
            final(self).wf(),
            refreshed(procs@, self_pid, elapsed_ms, *old(self), *final(self)),
    {
        let ghost s = procs@;
        let (times, rates) = sample_cpu(&procs, &self.cpu_times, elapsed_ms);
        let children = build_children(&procs);
        let protected = protected_set(&procs, self_pid);
        let roots = walk_starts(&procs);
        let cache = search_texts(&procs, &children, &roots);
        let full_rows = layout_rows(&procs, &children, &roots);
        self.procs = procs;
        self.children = children;
        self.protected = protected;
        self.full_rows = full_rows;
        self.cpu_times = times;
        self.cpu_rates = rates;
        let ghost cv = cache_view(cache@);
        let ghost loaded = *self;
        let n = self.procs.len();
        let mut i: usize = 0;
        while i < n
            invariant
                self.procs.wf(),
                *self == (App { procs: self.procs, ..loaded }),
                n == s.len(),
                self.procs@.len() == n,
                i <= n,
                cv == cache_view(cache@),
                forall|k: int| 0 <= k < n ==> #[trigger] self.procs@[k].pid == s[k].pid,
                forall|k: int|
                    0 <= k < i ==> #[trigger] self.procs@[k] == (Proc {
                        search: self.procs@[k].search,
                        ..s[k]
                    }) && self.procs@[k].search@ == (if cv.contains_key(s[k].pid) {
                        cv[s[k].pid]
                    } else {
                        s[k].search@
                    }),
                forall|k: int| i <= k < n ==> #[trigger] self.procs@[k] == s[k],
            decreases n - i,
        {
            let pid = self.procs.entry(i).pid;
            match cache.get(&pid) {
                Some(t) => {
                    let ghost before = self.procs@;
                    self.procs.set_search(pid, t.clone());
                    proof {
                        assert forall|k: int| 0 <= k < n && k != i implies before[k].pid != pid by {
                            if k < i {
                                assert(before[k].pid < before[i as int].pid);
                            } else {
                                assert(before[i as int].pid < before[k].pid);
                            }
                        }
                    }
                },
                None => {},
            }
            i += 1;
        }
        self.rebuild_visible();
        proof {
            let rows = crate::laws::tree_rows(s, self.children@);
            assert(rows_view(self.full_rows@) == rows);
            assert forall|j: int| 0 <= j < self.full_rows@.len() implies #[trigger] self.full_rows@[j].0
                == rows[j].0 by {
                assert(rows_view(self.full_rows@)[j] == (self.full_rows@[j].0, self.full_rows@[j].1@));
            }
            assert forall|x: i32|
                has_pid(s, x) <==> exists|j: int|
                    0 <= j < self.full_rows@.len() && #[trigger] self.full_rows@[j].0 == x by {
                if has_pid(s, x) {
                    crate::laws::law_every_process_has_a_row(s, self.children@, x);
                    let j = choose|j: int| 0 <= j < rows.len() && rows[j].0 == x;
                    assert(self.full_rows@[j].0 == x);
                }
                if exists|j: int| 0 <= j < self.full_rows@.len() && #[trigger] self.full_rows@[j].0 == x {
                    let j = choose|j: int| 0 <= j < self.full_rows@.len() && #[trigger] self.full_rows@[j].0 == x;
                    crate::laws::law_tree_rows(s, self.children@, j, j);
                }
            }
            assert forall|a: int, b: int|
                0 <= a < b < self.full_rows@.len() implies self.full_rows@[a].0 != self.full_rows@[b].0 by {
                crate::laws::law_tree_rows(s, self.children@, a, b);
            }
        }
    }

    /// Records the outcome of a kill: the killed pids leave the selection and the
    /// message reports the count and the failures.
    pub fn record_kills(&mut self, killed: &Vec<i32>, failed: &Vec<String>)
        requires
            old(self).wf(),
        ensures
            final(self).wf(),
            final(self).selected@ == old(self).selected@.difference(killed@.to_set()),
            final(self).message@ == kill_message(killed@.len(), texts(failed@)),
            *final(self) == (App { selected: final(self).selected, message: final(self).message, ..*old(self) }),
    {
        let ghost sel0 = self.selected@;
        let ghost a0 = *self;
        let mut i: usize = 0;
        while i < killed.len()
            invariant
                *self == (App { selected: self.selected, ..a0 }),
                i <= killed.len(),
                self.selected@ == sel0.difference(killed@.take(i as int).to_set()),
            decreases killed.len() - i,
        {
            self.selected.remove(&killed[i]);
            proof {
                assert(killed@.take(i + 1) =~= killed@.take(i as int).push(killed@[i as int]));
                killed@.take(i as int).lemma_push_to_set_commute(killed@[i as int]);
                assert(self.selected@ =~= sel0.difference(killed@.take(i + 1).to_set()));
            }
            i += 1;
        }
        assert(killed@.take(killed.len() as int) =~= killed@);
        let mut msg = String::from_str("SIGKILLed ");
        msg.append(usize_to_string(killed.len()).as_str());
        msg.append(" process(es)");
        if failed.len() > 0 {
            msg.append(" — failed: ");
            msg.append(join_strings(failed, "; ").as_str());
        }
        proof {
            if failed@.len() == 0 {
                assert(msg@ =~= kill_message(killed@.len(), texts(failed@)));
            }
        }
        self.message = msg;
    }

    /// Applies one key event and says what the caller must do next.
    pub fn handle_key(&mut self, k: KeyInput) -> (act: Action)
        requires
            old(self).wf(),
        ensures
            final(self).wf(),
            key_step(*old(self), *final(self), k, act),
    {
        if !k.press {
            return Action::Nothing;
        }
        if let Mode::Confirm(_) = &self.mode {
            let mut prev = Mode::Normal;
            std::mem::swap(&mut self.mode, &mut prev);
            let yes = match k.key {
                Key::Char(c) => c == 'y' || c == 'Y',
                _ => false,
            };
            return match prev {
                Mode::Confirm(t) => if yes {
                    Action::Kill(t)
                } else {
                    Action::Nothing
                },
                Mode::Normal => Action::Nothing,
            };
        }
        if k.ctrl_only && key_is_char(k.key, 'c') {
            Action::Quit
        } else if let Key::Esc = k.key {
            if self.selection_view {
                self.selection_view = false;
                self.rebuild_visible();
                Action::Nothing
            } else {
                Action::Quit
            }
        } else if k.ctrl_only && key_is_char(k.key, 'r') {
            Action::Refresh
        } else if k.ctrl_only && key_is_char(k.key, 'u') {
            self.input = String::new();
            self.rebuild_visible();
            Action::Nothing
        } else if k.ctrl_only && key_is_char(k.key, 'l') {
            self.selection_view = true;
            self.rebuild_visible();
            Action::Nothing
        } else if let (Key::Char(c), false) = (k.key, k.ctrl) {
            push_char(&mut self.input, c);
            self.rebuild_visible();
            Action::Nothing
        } else if let Key::Backspace = k.key {
            let _ = pop_char(&mut self.input);
            self.rebuild_visible();
            Action::Nothing
        } else if let Key::Up = k.key {
            self.step_cursor(true);
            Action::Nothing
        } else if let Key::Down = k.key {
            self.step_cursor(false);
            Action::Nothing
        } else if let Key::Tab = k.key {
            self.toggle_select();
            Action::Nothing
        } else if let Key::Enter = k.key {
            let targets = self.kill_targets();
            if targets.len() == 0 {
                self.message = String::from_str("nothing selectable here");
            } else {
                self.mode = Mode::Confirm(targets);
            }
            Action::Nothing
        } else {
            Action::Nothing
        }
    }

    /// Recomputes the visible rows from the tree rows and the filter, keeps the
    /// cursor on the same pid when it is still listed (else on the first killable
    /// row, or the top), and forgets selected pids that are gone.
    pub fn rebuild_visible(&mut self)
        requires
            old(self).procs.wf(),
        ensures
            rebuilt(*old(self), *final(self)),
            final(self).wf(),
    {
        let ghost a = *self;
        let terms = self.terms();
        let keep = if self.selection_view {
            selection_keep(&self.procs, &self.selected)
        } else {
            HashSet::new()
        };
        let mut visible: Vec<Row> = Vec::new();
        let n = self.full_rows.len();
        let mut i: usize = 0;
        while i < n
            invariant
                a == *self,
                self.procs.wf(),
                n == self.full_rows@.len(),
                i <= n,
                texts(terms@) == words(self.input@),
                self.selection_view ==> forall|x: i32|
                    #[trigger] keep@.contains(x) <==> kept_for_selection(self.procs@, self.selected@, x),
                rows_spec(visible@) == visible_spec(list_filter(a), rows_view(self.full_rows@).take(i as int)),
            decreases n - i,
        {
            let ghost pre = rows_view(self.full_rows@).take(i as int);
            let ghost post = rows_view(self.full_rows@).take(i + 1);
            assert(post.drop_last() =~= pre);
            let pid = self.full_rows[i].0;
            assert(post.last() == (pid, self.full_rows@[i as int].1@));
            let p = match self.procs.get(pid) {
                Some(p) => p,
                None => {
                    i += 1;
                    continue;
                },
            };
            let vis = if self.selection_view {
                keep.contains(&pid)
            } else {
                terms.len() == 0 || crate::filter::matches(p.search.as_str(), terms.as_slice())
            };
            if !vis {
                i += 1;
                continue;
            }
            let is_protected = self.protected.contains(&pid);
            let killable = !is_protected && if self.selection_view {
                self.selected.contains(&pid)
            } else {
                terms.len() == 0 || crate::filter::matches(p.own.as_str(), terms.as_slice())
            };
            let display = self.full_rows[i].1.clone();
            let ghost before = rows_spec(visible@);
            visible.push(Row { pid, display, killable, protected: is_protected });
            assert(rows_spec(visible@) =~= before.push(row_spec(visible@.last())));
            i += 1;
        }
        assert(rows_view(self.full_rows@).take(n as int) =~= rows_view(self.full_rows@));
        let ghost vs = rows_spec(visible@);
        let mut found: Option<usize> = None;
        let mut j: usize = 0;
        while j < visible.len()
            invariant
                vs == rows_spec(visible@),
                self.cursor_pid == a.cursor_pid,
                j <= visible.len(),
                first_with_pid(vs.take(j as int), a.cursor_pid) == (match found {
                    Some(k) => Some(k as int),
                    None => None::<int>,
                }),
                found is Some ==> found->0 < j,
            decreases visible.len() - j,
        {
            assert(vs.take(j + 1).drop_last() =~= vs.take(j as int));
            if found.is_none() && visible[j].pid == self.cursor_pid {
                found = Some(j);
            }
            j += 1;
        }
        assert(vs.take(visible.len() as int) =~= vs);
        match found {
            Some(k) => {
                self.cursor = k;
            },
            None => {
                let mut first: Option<usize> = None;
                let mut j: usize = 0;
                while j < visible.len()
                    invariant
                        vs == rows_spec(visible@),
                        j <= visible.len(),
                        first_killable(vs.take(j as int)) == (match first {
                            Some(k) => Some(k as int),
                            None => None::<int>,
                        }),
                        first is Some ==> first->0 < j,
                    decreases visible.len() - j,
                {
                    assert(vs.take(j + 1).drop_last() =~= vs.take(j as int));
                    if first.is_none() && visible[j].killable {
                        first = Some(j);
                    }
                    j += 1;
                }
                assert(vs.take(visible.len() as int) =~= vs);
                self.cursor = match first {
                    Some(k) => k,
                    None => 0,
                };
                self.cursor_pid = if self.cursor < visible.len() {
                    visible[self.cursor].pid
                } else {
                    0
                };
            },
        }
        self.selected = retain_present(&self.procs, &self.selected);
        self.visible = visible;
    }

    /// Moves the cursor one row up or down, stopping at either end of the list.
    fn step_cursor(&mut self, up: bool)
        ensures
            moved(*old(self), *final(self), if up { -1 } else { 1 }),
    {
        let n = self.visible.len();
        if n == 0 {
            self.cursor = 0;
            self.cursor_pid = 0;
            return;
        }
        let c = if up {
            if self.cursor == 0 {
                0
            } else if self.cursor - 1 > n - 1 {
                n - 1
            } else {
                self.cursor - 1
            }
        } else {
            if self.cursor >= n - 1 {
                n - 1
            } else {
                self.cursor + 1
            }
        };
        self.cursor = c;
        self.cursor_pid = self.visible[c].pid;
    }

    /// Moves the cursor by `delta` rows, stopping at either end of the list.
    pub fn move_cursor(&mut self, delta: i32)
        requires
            old(self).visible@.len() <= i32::MAX,
            old(self).cursor <= i32::MAX,
            i32::MIN <= old(self).cursor + delta <= i32::MAX,
        ensures
            moved(*old(self), *final(self), delta as int),
    {
        if self.visible.len() == 0 {
            self.cursor = 0;
            self.cursor_pid = 0;
            return;
        }
        let len = self.visible.len() as i32;
        let target = self.cursor as i32 + delta;
        let c = if target < 0 {
            0
        } else if target > len - 1 {
            len - 1
        } else {
            target
        };
        self.cursor = c as usize;
        self.cursor_pid = self.visible[self.cursor].pid;
    }

    /// Selects or unselects the highlighted row; a protected row is refused with a message.
    pub fn toggle_select(&mut self)
        ensures
            toggled(*old(self), *final(self)),
    {
        if self.cursor < self.visible.len() {
            let pid = self.visible[self.cursor].pid;
            if self.visible[self.cursor].protected {
                self.message = String::from_str("part of your own session — can't kill");
            } else {
                if self.selected.contains(&pid) {
                    self.selected.remove(&pid);
                } else {
                    self.selected.insert(pid);
                }
                self.message = String::new();
            }
        }
    }

    /// The pids a kill would target: the selected ones that are not protected and
    /// still present (in the selection's iteration order), or failing those the
    /// highlighted row unless it is protected.
    pub fn kill_targets(&self) -> (t: Vec<i32>)
        requires
            self.procs.wf(),
        ensures
            t@.no_duplicates(),
            if selected_targets(*self) =~= Set::<i32>::empty() {
                t@ == cursor_target(*self)
            } else {
                t@.to_set() == selected_targets(*self)
            },
    {
        let ghost sq = spec_hash_keys_iter(&self.selected).remaining();
        let mut targets: Vec<i32> = Vec::new();
        for q in it: self.selected.iter()
            invariant
                self.procs.wf(),
                it.seq() == sq,
                sq.unref().to_set() == self.selected@,
                sq.no_duplicates(),
                targets@.no_duplicates(),
                forall|x: i32|
                    #[trigger] targets@.contains(x) <==> exists|j: int|
                        0 <= j < it.index() && *sq[j] == x && selected_targets(*self).contains(x),
        {
            let p = *q;
            let ghost idx = it.index();
            let ghost before = targets@;
            if !self.protected.contains(&p) && self.procs.contains_key(p) {
                proof {
                    assert(sq.unref().to_set().contains(p)) by {
                        assert(sq.unref()[it.index()] == p);
                    }
                    assert(selected_targets(*self).contains(p));
                    assert(!targets@.contains(p)) by {
                        if targets@.contains(p) {
                            let j = choose|j: int| 0 <= j < it.index() && *sq[j] == p && selected_targets(*self).contains(p);
                            assert(sq[j] == sq[it.index()]);
                        }
                    }
                }
                targets.push(p);
                assert(targets@ == before.push(p));
            } else {
                assert(targets@ == before);
                assert(!selected_targets(*self).contains(p));
            }
            proof {
                assert(*sq[idx] == p);
                assert forall|x: i32| #[trigger] targets@.contains(x) implies exists|j: int|
                    0 <= j < idx + 1 && *sq[j] == x && selected_targets(*self).contains(x) by {
                    if before.contains(x) {
                        let j = choose|j: int| 0 <= j < idx && *sq[j] == x && selected_targets(*self).contains(x);
                        assert(0 <= j < idx + 1 && *sq[j] == x && selected_targets(*self).contains(x));
                    } else {
                        assert(x == p);
                        assert(0 <= idx < idx + 1 && *sq[idx] == x && selected_targets(*self).contains(x));
                    }
                }
                assert forall|x: i32| (exists|j: int|
                    0 <= j < idx + 1 && *sq[j] == x && selected_targets(*self).contains(x)) implies #[trigger] targets@.contains(x) by {
                    let j = choose|j: int| 0 <= j < idx + 1 && *sq[j] == x && selected_targets(*self).contains(x);
                    if j < idx {
                        assert(before.contains(x));
                        let k = choose|k: int| 0 <= k < before.len() && before[k] == x;
                        assert(targets@[k] == x);
                    } else {
                        assert(x == p);
                        assert(targets@[targets@.len() - 1] == p);
                    }
                }
            }
        }
        proof {
            assert forall|x: i32| #[trigger] targets@.contains(x) <==> selected_targets(*self).contains(x) by {
                if selected_targets(*self).contains(x) {
                    assert(sq.unref().to_set().contains(x));
                    let j = choose|j: int| 0 <= j < sq.unref().len() && sq.unref()[j] == x;
                    assert(*sq[j] == x);
                }
            }
            assert(targets@.to_set() =~= selected_targets(*self));
        }
        if targets.len() == 0 {
            proof {
                assert(selected_targets(*self) =~= Set::<i32>::empty()) by {
                    assert forall|x: i32| !selected_targets(*self).contains(x) by {
                        if selected_targets(*self).contains(x) {
                            assert(targets@.contains(x));
                        }
                    }
                }
            }
            if self.cursor < self.visible.len() {
                if !self.visible[self.cursor].protected {
                    targets.push(self.visible[self.cursor].pid);
                }
            }
            assert(targets@ =~= cursor_target(*self));
        } else {
            assert(targets@.contains(targets@[0]));
            assert(!(selected_targets(*self) =~= Set::<i32>::empty()));
        }
        targets
    }
}

} // verus!
