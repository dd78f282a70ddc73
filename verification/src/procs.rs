//! The process table: one record per process, kept ordered by pid.
use vstd::prelude::*;

verus! {

/// One process as listed by `ps`, with the texts derived from it.
pub struct Proc {
    pub pid: i32,
    pub ppid: i32,
    pub user: String,
    pub cpu: String,
    pub mem: String,
    pub etime: String,
    /// The CPU time used so far, as `ps` prints it.
    pub time: String,
    pub command: String,
    /// The executable's base name.
    pub name: String,
    /// "<pid> <name>": what a search term is matched against for this row alone.
    pub own: String,
    /// `own` of this process followed by the `own` texts of its whole subtree.
    pub search: String,
}

/// Entries ordered by strictly increasing pid (so no pid occurs twice).
pub open spec fn pids_increasing(s: Seq<Proc>) -> bool {
    forall|i: int, j: int| 0 <= i < j < s.len() ==> s[i].pid < s[j].pid
}

/// Some entry of `s` has this pid.
pub open spec fn has_pid(s: Seq<Proc>, pid: i32) -> bool {
    exists|i: int| 0 <= i < s.len() && s[i].pid == pid
}

/// The position of the entry with this pid.
pub open spec fn pid_index(s: Seq<Proc>, pid: i32) -> int {
    choose|i: int| 0 <= i < s.len() && s[i].pid == pid
}

/// The entry with this pid.
pub open spec fn proc_of(s: Seq<Proc>, pid: i32) -> Proc {
    s[pid_index(s, pid)]
}

/// The set of pids present in `s`.
pub open spec fn pid_set(s: Seq<Proc>) -> Set<i32> {
    Set::new(|pid: i32| has_pid(s, pid))
}

/// The table seen as a map from pid to record.
pub open spec fn proc_map(s: Seq<Proc>) -> Map<i32, Proc> {
    Map::new(|pid: i32| has_pid(s, pid), |pid: i32| proc_of(s, pid))
}

/// In an increasing table the entry with a given pid is at one position only.
pub proof fn lemma_pid_index_unique(s: Seq<Proc>, i: int)
    requires
        pids_increasing(s),
        0 <= i < s.len(),
    ensures
        has_pid(s, s[i].pid),
        pid_index(s, s[i].pid) == i,
        proc_of(s, s[i].pid) == s[i],
{
    let k = pid_index(s, s[i].pid);
    assert(0 <= k < s.len() && s[k].pid == s[i].pid);
    if k < i {
        assert(s[k].pid < s[i].pid);
    } else if k > i {
        assert(s[i].pid < s[k].pid);
    }
}

/// The pids of an increasing table form a finite set no larger than the table.
pub proof fn lemma_pid_set_finite(s: Seq<Proc>)
    ensures
        pid_set(s).finite(),
        pid_set(s).len() <= s.len(),
{
    let m = s.map_values(|p: Proc| p.pid);
    assert(pid_set(s) =~= m.to_set()) by {
        assert forall|pid: i32| pid_set(s).contains(pid) implies m.to_set().contains(pid) by {
            let i = pid_index(s, pid);
            assert(m[i] == pid);
        }
        assert forall|pid: i32| m.to_set().contains(pid) implies pid_set(s).contains(pid) by {
            let i = choose|i: int| 0 <= i < m.len() && m[i] == pid;
            assert(s[i].pid == pid);
        }
    }
    m.lemma_cardinality_of_set();
}

/// A table of processes keyed and ordered by pid.
pub struct ProcMap {
    entries: Vec<Proc>,
}

impl View for ProcMap {
    type V = Seq<Proc>;

    closed spec fn view(&self) -> Seq<Proc> {
        self.entries@
    }
}

impl ProcMap {
    /// The table's entries are ordered by strictly increasing pid.
    pub open spec fn wf(&self) -> bool {
        pids_increasing(self@)
    }

    /// An empty table.
    pub fn new() -> (m: ProcMap)
        ensures
            m@ == Seq::<Proc>::empty(),
            m.wf(),
    {
        ProcMap { entries: Vec::new() }
    }

    /// The number of processes.
    pub fn len(&self) -> (n: usize)
        ensures
            n == self@.len(),
    {
        self.entries.len()
    }

    /// The entry at position `i` in pid order.
    pub fn entry(&self, i: usize) -> (p: &Proc)
        requires
            i < self@.len(),
        ensures
            *p == self@[i as int],
    {
        &self.entries[i]
    }

    /// The first position whose pid is not below `pid`.
    fn lower_bound(&self, pid: i32) -> (k: usize)
        requires
            self.wf(),
        ensures
            k <= self@.len(),
            forall|i: int| 0 <= i < k ==> self@[i].pid < pid,
            forall|i: int| k <= i < self@.len() ==> self@[i].pid >= pid,
    {
        let mut lo: usize = 0;
        let mut hi: usize = self.entries.len();
        while lo < hi
            invariant
                lo <= hi <= self.entries@.len(),
                pids_increasing(self.entries@),
                forall|i: int| 0 <= i < lo ==> self.entries@[i].pid < pid,
                forall|i: int| hi <= i < self.entries@.len() ==> self.entries@[i].pid >= pid,
            decreases hi - lo,
        {
            let mid = lo + (hi - lo) / 2;
            if self.entries[mid].pid < pid {
                lo = mid + 1;
            } else {
                hi = mid;
            }
        }
        lo
    }

    /// The position of the entry with this pid, if there is one.
    pub fn index_of(&self, pid: i32) -> (r: Option<usize>)
        requires
            self.wf(),
        ensures
            match r {
                Some(i) => i < self@.len() && self@[i as int].pid == pid && has_pid(self@, pid)
                    && pid_index(self@, pid) == i,
                None => !has_pid(self@, pid),
            },
    {
        let k = self.lower_bound(pid);
        if k < self.entries.len() && self.entries[k].pid == pid {
            proof {
                lemma_pid_index_unique(self@, k as int);
            }
            Some(k)
        } else {
            assert(!has_pid(self@, pid)) by {
                if has_pid(self@, pid) {
                    let i = choose|i: int| 0 <= i < self@.len() && self@[i].pid == pid;
                    if i > k {
                        assert(self@[k as int].pid < self@[i].pid);
                    }
                }
            }
            None
        }
    }

    /// Whether a process with this pid is present.
    pub fn contains_key(&self, pid: i32) -> (b: bool)
        requires
            self.wf(),
        ensures
            b == has_pid(self@, pid),
    {
        self.index_of(pid).is_some()
    }

    /// The record with this pid, if there is one.
    pub fn get(&self, pid: i32) -> (r: Option<&Proc>)
        requires
            self.wf(),
        ensures
            match r {
                Some(p) => has_pid(self@, pid) && *p == proc_of(self@, pid),
                None => !has_pid(self@, pid),
            },
    {
        match self.index_of(pid) {
            Some(i) => Some(&self.entries[i]),
            None => None,
        }
    }

    /// Adds a record, replacing the one with the same pid if there is one.
    pub fn insert(&mut self, p: Proc)
        requires
            old(self).wf(),
        ensures
            final(self).wf(),
            proc_map(final(self)@) == proc_map(old(self)@).insert(p.pid, p),
    {
        let ghost old_s = self.entries@;
        let ghost pid = p.pid;
        let k = self.lower_bound(p.pid);
        if k < self.entries.len() && self.entries[k].pid == p.pid {
            self.entries.set(k, p);
            proof {
                let s = self.entries@;
                assert(pids_increasing(s)) by {
                    assert forall|i: int, j: int| 0 <= i < j < s.len() implies s[i].pid < s[j].pid by {
                        assert(old_s[i].pid < old_s[j].pid);
                    }
                }
                assert(proc_map(s) =~= proc_map(old_s).insert(pid, s[k as int])) by {
                    assert forall|q: i32| has_pid(s, q) <==> (has_pid(old_s, q) || q == pid) by {
                        if has_pid(s, q) {
                            let i = choose|i: int| 0 <= i < s.len() && s[i].pid == q;
                            assert(old_s[i].pid == q);
                        }
                        if has_pid(old_s, q) {
                            let i = choose|i: int| 0 <= i < old_s.len() && old_s[i].pid == q;
                            assert(s[i].pid == q);
                        }
                        if q == pid {
                            assert(s[k as int].pid == q);
                        }
                    }
                    assert forall|q: i32| #[trigger] has_pid(s, q) implies proc_of(s, q) == (if q
                        == pid {
                        s[k as int]
                    } else {
                        proc_of(old_s, q)
                    }) by {
                        let i = pid_index(s, q);
                        lemma_pid_index_unique(s, i);
                        if q != pid {
                            lemma_pid_index_unique(old_s, i);
                        } else {
                            lemma_pid_index_unique(s, k as int);
                        }
                    }
                }
            }
        } else {
            self.entries.insert(k, p);
            proof {
                let s = self.entries@;
                assert(pids_increasing(s)) by {
                    assert forall|i: int, j: int| 0 <= i < j < s.len() implies s[i].pid < s[j].pid by {
                        if j < k {
                            assert(old_s[i].pid < old_s[j].pid);
                        } else if j == k {
                        } else if i < k {
                            assert(old_s[j - 1].pid >= pid);
                        } else if i == k {
                            assert(old_s[j - 1].pid >= pid);
                            assert(old_s[j - 1].pid != pid) by {
                                if k < old_s.len() {
                                    if j - 1 > k {
                                        assert(old_s[k as int].pid < old_s[j - 1].pid);
                                    }
                                }
                            }
                        } else {
                            assert(old_s[i - 1].pid < old_s[j - 1].pid);
                        }
                    }
                }
                assert(proc_map(s) =~= proc_map(old_s).insert(pid, s[k as int])) by {
                    assert forall|q: i32| has_pid(s, q) <==> (has_pid(old_s, q) || q == pid) by {
                        if has_pid(s, q) {
                            let i = choose|i: int| 0 <= i < s.len() && s[i].pid == q;
                            if i < k {
                                assert(old_s[i].pid == q);
                            } else if i > k {
                                assert(old_s[i - 1].pid == q);
                            }
                        }
                        if has_pid(old_s, q) {
                            let i = choose|i: int| 0 <= i < old_s.len() && old_s[i].pid == q;
                            if i < k {
                                assert(s[i].pid == q);
                            } else {
                                assert(s[i + 1].pid == q);
                            }
                        }
                        if q == pid {
                            assert(s[k as int].pid == q);
                        }
                    }
                    assert forall|q: i32| #[trigger] has_pid(s, q) implies proc_of(s, q) == (if q
                        == pid {
                        s[k as int]
                    } else {
                        proc_of(old_s, q)
                    }) by {
                        let i = pid_index(s, q);
                        lemma_pid_index_unique(s, i);
                        if q != pid {
                            if i < k {
                                lemma_pid_index_unique(old_s, i);
                            } else {
                                lemma_pid_index_unique(old_s, i - 1);
                            }
                        } else {
                            lemma_pid_index_unique(s, k as int);
                        }
                    }
                }
            }
        }
    }

    /// Replaces the search text of the process with this pid, if it is present.
    pub fn set_search(&mut self, pid: i32, text: String)
        requires
            old(self).wf(),
        ensures
            final(self).wf(),
            final(self)@.len() == old(self)@.len(),
            forall|i: int|
                0 <= i < old(self)@.len() ==> #[trigger] final(self)@[i] == (if old(self)@[i].pid
                    == pid {
                    Proc { search: text, ..old(self)@[i] }
                } else {
                    old(self)@[i]
                }),
    {
        match self.index_of(pid) {
            Some(i) => {
                let ghost old_s = self.entries@;
                self.entries[i].search = text;
                proof {
                    assert forall|j: int| 0 <= j < old_s.len() && j != i implies old_s[j].pid
                        != pid by {
                        if j < i {
                            assert(old_s[j].pid < old_s[i as int].pid);
                        } else {
                            assert(old_s[i as int].pid < old_s[j].pid);
                        }
                    }
                }
            },
            None => {
                assert forall|i: int| 0 <= i < self@.len() implies self@[i].pid != pid by {
                    if self@[i].pid == pid {
                        assert(has_pid(self@, pid));
                    }
                }
            },
        }
    }
}

} // verus!
