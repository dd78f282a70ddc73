//! Reading the process listing: the name of a process from its command line,
//! and the table built from the lines that `ps` prints.
use vstd::prelude::*;
use crate::procs::{has_pid, proc_map, proc_of, Proc, ProcMap};
use crate::text::{
    after_last_slash, base_name, i32_to_string, join, join_strings, lines, lines_of, parse_i32,
    parse_i32_text, parse_u32, parse_u32_text, replace_char, replace_char_text, signed_decimal,
    split_char, split_on, split_whitespace, texts, trim, trim_text, words,
};

verus! {

/// Asks the file system whether a path exists (`std::path::Path::exists`).
/// The answer depends on the machine and the moment; nothing is stated of it.
#[verifier::external_body]
fn path_exists(path: &str) -> bool {
    std::path::Path::new(path).exists()
}

/// The longest leading run of tokens, joined by spaces, that was found to be a
/// path: scanning `i = 1, 2, ...`, a prefix found to exist replaces the best so
/// far, and the scan stops at the first prefix not found once a non-empty best
/// exists, or when the answers `probes` run out.
pub open spec fn best_prefix(toks: Seq<Seq<char>>, probes: Seq<bool>, i: int, best: Seq<char>) -> Seq<
    char,
>
    decreases toks.len() + 1 - i,
{
    if i < 1 || i > toks.len() || i > probes.len() {
        best
    } else if probes[i - 1] {
        best_prefix(toks, probes, i + 1, join(toks.take(i), seq![' ']))
    } else if best.len() > 0 {
        best
    } else {
        best_prefix(toks, probes, i + 1, best)
    }
}

/// The name of a process whose command line is `command`, given the answers
/// `probes[k]` to "does the path made of the first k+1 space-separated tokens
/// exist": the part after the last `/` of the best existing prefix, or of the
/// first token when no prefix exists.
pub open spec fn name_from_probes(command: Seq<char>, probes: Seq<bool>) -> Seq<char> {
    let toks = split_on(command, ' ');
    let best = best_prefix(toks, probes, 1, Seq::empty());
    base_name(
        if best.len() == 0 {
            toks[0]
        } else {
            best
        },
    )
}

/// `name` is the process name of `command` for some answers of the file system.
pub open spec fn possible_name(command: Seq<char>, name: Seq<char>) -> bool {
    exists|probes: Seq<bool>|
        complete_scan(split_on(command, ' ').len(), probes) && name == name_from_probes(
            command,
            probes,
        )
}

/// The answers of a finished scan over `n` token prefixes: one answer per
/// prefix asked, shortest first, asking every prefix unless it stopped at a
/// prefix found missing after an earlier one was found to exist.
pub open spec fn complete_scan(n: nat, probes: Seq<bool>) -> bool {
    probes.len() == n || (probes.len() < n && probes.len() >= 2 && !probes.last()
        && probes.drop_last().contains(true))
}

/// The process name of `command` given the answers `probes` of the file system.
pub fn name_from_probes_exec(command: &str, probes: &Vec<bool>) -> (name: String)
    ensures
        name@ == name_from_probes(command@, probes@),
{
    let toks = split_char(command, ' ');
    let ghost t = texts(toks@);
    let n = toks.len();
    let mut best = String::new();
    let mut cand = String::new();
    let mut j: usize = 0;
    while j < n
        invariant_except_break
            cand@ == join(t.take(j as int), seq![' ']),
        invariant
            t == texts(toks@),
            n == t.len(),
            n >= 1,
            j <= n,
            best_prefix(t, probes@, 1, Seq::empty()) == best_prefix(t, probes@, j + 1, best@),
        ensures
            best_prefix(t, probes@, 1, Seq::empty()) == best@,
        decreases n - j,
    {
        if j >= probes.len() {
            break;
        }
        if j > 0 {
            cand.append(" ");
        }
        cand.append(toks[j].as_str());
        proof {
            reveal_strlit(" ");
            assert(t.take(j + 1).drop_last() =~= t.take(j as int));
            assert(t.take(j + 1).last() == t[j as int]);
            if j == 0 {
                assert(cand@ =~= join(t.take(1), seq![' ']));
            } else {
                assert(cand@ =~= join(t.take(j + 1), seq![' ']));
            }
        }
        if probes[j] {
            best = cand.clone();
        } else if !best.as_str().is_empty() {
            break;
        }
        j += 1;
    }
    let chosen = if best.as_str().is_empty() {
        toks[0].clone()
    } else {
        best
    };
    after_last_slash(chosen.as_str())
}

/// The path tried as the first `k` space-separated tokens of a command: those
/// tokens joined by single spaces.
pub fn prefix_candidate(toks: &Vec<String>, k: usize) -> (c: String)
    requires
        1 <= k <= toks.len(),
    ensures
        c@ == join(texts(toks@).take(k as int), seq![' ']),
{
    let ghost t = texts(toks@);
    let mut c = String::new();
    let mut j: usize = 0;
    while j < k
        invariant
            t == texts(toks@),
            k <= toks.len(),
            j <= k,
            c@ == join(t.take(j as int), seq![' ']),
        decreases k - j,
    {
        if j > 0 {
            c.append(" ");
        }
        c.append(toks[j].as_str());
        proof {
            reveal_strlit(" ");
            assert(t.take(j + 1).drop_last() =~= t.take(j as int));
            assert(t.take(j + 1).last() == t[j as int]);
            if j == 0 {
                assert(c@ =~= join(t.take(1), seq![' ']));
            } else {
                assert(c@ =~= join(t.take(j + 1), seq![' ']));
            }
        }
        j += 1;
    }
    c
}

/// The name of the process whose command line is `command`, asking `probe`
/// whether each path exists: the paths asked about are the first few prefixes
/// built by `prefix_candidate`, shortest first, and the answers `probes` got
/// for them give the name as `name_from_probes` says.
pub fn proc_name_by<F: Fn(String) -> bool>(command: &str, probe: &F) -> (name: String)
    requires
        forall|s: String| call_requires(*probe, (s,)),
    ensures
        exists|probes: Seq<bool>, paths: Seq<String>|
            #![trigger name_from_probes(command@, probes), paths.len()]
            {
                &&& complete_scan(split_on(command@, ' ').len(), probes)
                &&& paths.len() == probes.len()
                &&& name@ == name_from_probes(command@, probes)
                &&& forall|i: int|
                    0 <= i < probes.len() ==> #[trigger] paths[i]@ == join(
                        split_on(command@, ' ').take(i + 1),
                        seq![' '],
                    ) && call_ensures(*probe, (paths[i],), probes[i])
            },
{
    let toks = split_char(command, ' ');
    let ghost t = split_on(command@, ' ');
    let ghost mut paths: Seq<String> = Seq::empty();
    let mut probes: Vec<bool> = Vec::new();
    let mut found = false;
    let mut stop = false;
    let mut i: usize = 0;
    while i < toks.len() && !stop
        invariant
            probes@.len() == i,
            paths.len() == i,
            t == split_on(command@, ' '),
            texts(toks@) == t,
            forall|s: String| call_requires(*probe, (s,)),
            i <= toks.len(),
            found ==> exists|k: int| 0 <= k < i && probes@[k],
            stop ==> i < toks.len() ==> i >= 2 && !probes@[i - 1] && exists|k: int|
                0 <= k < i - 1 && probes@[k],
            stop ==> i >= 1,
            forall|j: int|
                0 <= j < i ==> #[trigger] paths[j]@ == join(t.take(j + 1), seq![' '])
                    && call_ensures(*probe, (paths[j],), probes@[j]),
        decreases toks.len() - i,
    {
        let cand = prefix_candidate(&toks, i + 1);
        let empty = cand.as_str().is_empty();
        let ghost c = cand;
        let e = probe(cand);
        let ghost old_probes = probes@;
        let ghost old_paths = paths;
        probes.push(e);
        proof {
            paths = paths.push(c);
            assert(call_ensures(*probe, (c,), e));
            assert forall|j: int| 0 <= j < i + 1 implies #[trigger] paths[j]@ == join(
                t.take(j + 1),
                seq![' '],
            ) && call_ensures(*probe, (paths[j],), probes@[j]) by {
                if j < i {
                    assert(paths[j] == old_paths[j]);
                    assert(probes@[j] == old_probes[j]);
                    assert(old_paths[j]@ == join(t.take(j + 1), seq![' ']));
                } else {
                    assert(paths[j] == c);
                    assert(probes@[j] == e);
                }
            }
        }
        if e {
            found = !empty;
            assert(probes@[i as int]);
        } else if found {
            stop = true;
            let ghost k = choose|k: int| 0 <= k < i && old_probes[k];
            assert(probes@[k]);
        }
        proof {
            if found && !e {
                let k = choose|k: int| 0 <= k < i && old_probes[k];
                assert(probes@[k]);
            }
        }
        i += 1;
    }
    let name = name_from_probes_exec(command, &probes);
    proof {
        assert(probes@.len() <= t.len());
        assert(name_from_probes(command@, probes@) == name@);
        assert(paths.len() == probes@.len());
        assert forall|k: int| 0 <= k < probes@.len() implies #[trigger] paths[k]@ == join(
            split_on(command@, ' ').take(k + 1),
            seq![' '],
        ) && call_ensures(*probe, (paths[k],), probes@[k]) by {
            assert(0 <= k < i);
        }
        let pr = probes@;
        assert(toks@.len() == t.len());
        if i < toks.len() {
            let k = choose|k: int| 0 <= k < i - 1 && probes@[k];
            assert(pr.last() == probes@[i - 1]);
            assert(pr.drop_last()[k]);
        }
        assert(complete_scan(t.len(), pr));
        assert(pr.len() <= split_on(command@, ' ').len());
        assert(paths.len() == pr.len());
        assert(name@ == name_from_probes(command@, pr));
        assert(forall|k: int|
            0 <= k < pr.len() ==> #[trigger] paths[k]@ == join(
                split_on(command@, ' ').take(k + 1),
                seq![' '],
            ) && call_ensures(*probe, (paths[k],), pr[k]));
        assert({
            &&& complete_scan(split_on(command@, ' ').len(), pr)
            &&& paths.len() == pr.len()
            &&& name@ == name_from_probes(command@, pr)
            &&& forall|k: int|
                0 <= k < pr.len() ==> #[trigger] paths[k]@ == join(
                    split_on(command@, ' ').take(k + 1),
                    seq![' '],
                ) && call_ensures(*probe, (paths[k],), pr[k])
        });
        assert(exists|probes: Seq<bool>, ps: Seq<String>|
            #![trigger name_from_probes(command@, probes), ps.len()]
            {
                &&& complete_scan(split_on(command@, ' ').len(), probes)
                &&& ps.len() == probes.len()
                &&& name@ == name_from_probes(command@, probes)
                &&& forall|i: int|
                    0 <= i < probes.len() ==> #[trigger] ps[i]@ == join(
                        split_on(command@, ' ').take(i + 1),
                        seq![' '],
                    ) && call_ensures(*probe, (ps[i],), probes[i])
            });
    }
    name
}

/// The name of the process whose command line is `command`: the part after the
/// last `/` of the longest run of leading space-separated tokens that names an
/// existing path (commands may hold paths with spaces), else of the first token.
/// The paths asked about are the prefixes built by `prefix_candidate`, as
/// `proc_name_by` says.
pub fn proc_name(command: &str) -> (name: String)
    ensures
        possible_name(command@, name@),
{
    let probe = |s: String| -> (b: bool) { path_exists(s.as_str()) };
    proc_name_by(command, &probe)
}

/// The fields of one accepted line of the listing.
pub struct PsLine {
    pub pid: i32,
    pub ppid: i32,
    pub user: Seq<char>,
    pub cpu: Seq<char>,
    pub mem: Seq<char>,
    pub etime: Seq<char>,
    pub time: Seq<char>,
    pub command: Seq<char>,
}

/// One line `pid ppid user %cpu %mem etime time command...` of the listing:
/// accepted when it has at least eight words, the first is a pid, and the user
/// is `me` (any user when `is_root`). A ppid that does not read as a number
/// counts as 0; the command is the words from the eighth on, joined by spaces,
/// with tabs made spaces.
pub open spec fn ps_line(line: Seq<char>, is_root: bool, me: Seq<char>) -> Option<PsLine> {
    let toks = words(line);
    if toks.len() < 8 {
        None
    } else {
        match parse_i32_text(toks[0]) {
            None => None,
            Some(pid) => if !is_root && toks[2] != me {
                None
            } else {
                Some(
                    PsLine {
                        pid,
                        ppid: match parse_i32_text(toks[1]) {
                            Some(p) => p,
                            None => 0,
                        },
                        user: toks[2],
                        cpu: toks[3],
                        mem: toks[4],
                        etime: toks[5],
                        time: toks[6],
                        command: replace_char_text(join(toks.skip(7), seq![' ']), '\t', ' '),
                    },
                )
            },
        }
    }
}

/// The accepted lines keyed by pid; a later line replaces an earlier one with the same pid.
pub open spec fn ps_table(ls: Seq<Seq<char>>, is_root: bool, me: Seq<char>) -> Map<i32, PsLine>
    decreases ls.len(),
{
    if ls.len() == 0 {
        Map::empty()
    } else {
        let t = ps_table(ls.drop_last(), is_root, me);
        match ps_line(ls.last(), is_root, me) {
            Some(l) => t.insert(l.pid, l),
            None => t,
        }
    }
}

/// The record `p` holds the fields of line `l`, a process name of its command,
/// the own text "<pid> <name>", and an empty search text.
pub open spec fn proc_from_line(p: Proc, l: PsLine) -> bool {
    &&& p.pid == l.pid
    &&& p.ppid == l.ppid
    &&& p.user@ == l.user
    &&& p.cpu@ == l.cpu
    &&& p.mem@ == l.mem
    &&& p.etime@ == l.etime
    &&& p.time@ == l.time
    &&& p.command@ == l.command
    &&& possible_name(l.command, p.name@)
    &&& p.own@ == signed_decimal(l.pid as int) + seq![' '] + p.name@
    &&& p.search@.len() == 0
}

/// The record for one line of the listing, if the line is accepted.
fn parse_line(line: &str, is_root: bool, me: &str) -> (r: Option<Proc>)
    ensures
        match ps_line(line@, is_root, me@) {
            Some(l) => r is Some && proc_from_line(r->0, l),
            None => r is None,
        },
{
    let toks = split_whitespace(line);
    let ghost t = texts(toks@);
    if toks.len() < 8 {
        return None;
    }
    let pid = match parse_i32(toks[0].as_str()) {
        Some(p) => p,
        None => {
            return None;
        },
    };
    let user = toks[2].clone();
    if !is_root && !(user == String::from_str(me)) {
        return None;
    }
    let ppid = match parse_i32(toks[1].as_str()) {
        Some(p) => p,
        None => 0,
    };
    let mut rest: Vec<String> = Vec::new();
    let mut k: usize = 7;
    while k < toks.len()
        invariant
            t == texts(toks@),
            7 <= k <= toks.len(),
            texts(rest@) == t.subrange(7, k as int),
        decreases toks.len() - k,
    {
        let ghost before = texts(rest@);
        rest.push(toks[k].clone());
        assert(texts(rest@) =~= before.push(t[k as int]));
        assert(t.subrange(7, k + 1) =~= t.subrange(7, k as int).push(t[k as int]));
        k += 1;
    }
    assert(t.subrange(7, toks.len() as int) =~= t.skip(7));
    let joined = join_strings(&rest, " ");
    proof {
        reveal_strlit(" ");
        assert(" "@ =~= seq![' ']);
    }
    let command = replace_char(joined.as_str(), '\t', ' ');
    let name = proc_name(command.as_str());
    let mut own = i32_to_string(pid);
    own.append(" ");
    own.append(name.as_str());
    Some(
        Proc {
            pid,
            ppid,
            user,
            cpu: toks[3].clone(),
            mem: toks[4].clone(),
            etime: toks[5].clone(),
            time: toks[6].clone(),
            command,
            name,
            own,
            search: String::new(),
        },
    )
}

/// Builds the process table from the output of
/// `ps -axo pid=,ppid=,user=,%cpu=,%mem=,etime=,time=,command=`: one record per accepted
/// line (see `ps_line`), the last one winning for a repeated pid.
pub fn parse_ps(text: &str, is_root: bool, me: &str) -> (procs: ProcMap)
    ensures
        procs.wf(),
        forall|pid: i32|
            #[trigger] has_pid(procs@, pid) <==> ps_table(lines_of(text@), is_root, me@).contains_key(
                pid,
            ),
        forall|pid: i32|
            #[trigger] has_pid(procs@, pid) ==> proc_from_line(
                proc_of(procs@, pid),
                ps_table(lines_of(text@), is_root, me@)[pid],
            ),
{
    let ls = lines(text);
    let ghost l = texts(ls@);
    let mut procs = ProcMap::new();
    let mut i: usize = 0;
    while i < ls.len()
        invariant
            l == texts(ls@),
            i <= ls.len(),
            procs.wf(),
            forall|pid: i32|
                #[trigger] has_pid(procs@, pid) <==> ps_table(l.take(i as int), is_root, me@).contains_key(pid),
            forall|pid: i32|
                #[trigger] has_pid(procs@, pid) ==> proc_from_line(
                    proc_of(procs@, pid),
                    ps_table(l.take(i as int), is_root, me@)[pid],
                ),
        decreases ls.len() - i,
    {
        assert(l.take(i + 1).drop_last() =~= l.take(i as int));
        assert(l.take(i + 1).last() == ls@[i as int]@);
        match parse_line(ls[i].as_str(), is_root, me) {
            Some(p) => {
                let ghost before = procs@;
                let ghost pv = p;
                procs.insert(p);
                proof {
                    assert forall|pid: i32| #[trigger] has_pid(procs@, pid) <==> (has_pid(before, pid) || pid == pv.pid) by {
                        assert(proc_map(procs@).dom().contains(pid) == has_pid(procs@, pid));
                        assert(proc_map(before).dom().contains(pid) == has_pid(before, pid));
                    }
                    assert forall|pid: i32| #[trigger] has_pid(procs@, pid) implies proc_of(procs@, pid) == (if pid == pv.pid { pv } else { proc_of(before, pid) }) by {
                        assert(proc_map(procs@)[pid] == proc_of(procs@, pid));
                        if pid != pv.pid {
                            assert(proc_map(before)[pid] == proc_of(before, pid));
                        }
                    }
                }
            },
            None => {},
        }
        i += 1;
    }
    assert(l.take(ls.len() as int) =~= l);
    procs
}

/// The user id printed by `id -u`; text that is not a number counts as `u32::MAX`.
pub fn parse_uid(text: &str) -> (uid: u32)
    ensures
        uid == match parse_u32_text(trim_text(text@)) {
            Some(u) => u,
            None => u32::MAX,
        },
{
    let t = trim(text);
    match parse_u32(t.as_str()) {
        Some(u) => u,
        None => u32::MAX,
    }
}

/// A decimal numeral is ASCII.
proof fn lemma_decimal_ascii(n: nat)
    ensures
        crate::text::ascii_text(crate::text::decimal(n)),
    decreases n,
{
    let d = crate::text::decimal(n);
    if n >= 10 {
        lemma_decimal_ascii(n / 10);
        assert forall|k: int| 0 <= k < d.len() implies crate::text::is_ascii_char(#[trigger] d[k]) by {
            if k < d.len() - 1 {
                assert(d[k] == crate::text::decimal(n / 10)[k]);
            }
        }
    }
}

/// The own text that a listing gives a process ("<pid> <name>") is ASCII when
/// its name is: so a table read by `parse_ps` from a listing whose process names
/// are ASCII has ASCII own texts throughout.
pub proof fn lemma_own_text_ascii(pid: i32, name: Seq<char>)
    requires
        crate::text::ascii_text(name),
    ensures
        crate::text::ascii_text(signed_decimal(pid as int) + seq![' '] + name),
{
    let n: nat = if pid < 0 {
        (-(pid as int)) as nat
    } else {
        pid as nat
    };
    lemma_decimal_ascii(n);
    let a = signed_decimal(pid as int);
    let b = a + seq![' '] + name;
    assert(crate::text::ascii_text(a)) by {
        if pid < 0 {
            assert forall|k: int| 0 <= k < a.len() implies crate::text::is_ascii_char(#[trigger] a[k]) by {
                if k > 0 {
                    assert(a[k] == crate::text::decimal(n)[k - 1]);
                }
            }
        }
    }
    assert forall|k: int| 0 <= k < b.len() implies crate::text::is_ascii_char(#[trigger] b[k]) by {
        if k < a.len() {
            assert(b[k] == a[k]);
        } else if k > a.len() {
            assert(b[k] == name[k - a.len() - 1]);
        }
    }
}

/// Prefixes found missing before anything was found leave the scan where it was.
proof fn lemma_scan_skips_missing(toks: Seq<Seq<char>>, probes: Seq<bool>, i: int, k: int)
    requires
        1 <= i <= k,
        k <= toks.len() + 1,
        k <= probes.len() + 1,
        forall|j: int| i - 1 <= j < k - 1 ==> !probes[j],
    ensures
        best_prefix(toks, probes, i, Seq::empty()) == best_prefix(toks, probes, k, Seq::empty()),
    decreases k - i,
{
    if i < k {
        lemma_scan_skips_missing(toks, probes, i + 1, k);
    }
}

/// The name follows the file system's answers: when none of the prefixes
/// asked about exists, the name is the base name of the first token; when
/// the first `k` tokens are the only prefix asked about that exists, the name
/// is the base name of that prefix, the part after its last `/`.
pub proof fn law_name_from_answers(command: Seq<char>, probes: Seq<bool>, k: int)
    requires
        probes.len() <= split_on(command, ' ').len(),
    ensures
        (forall|j: int| 0 <= j < probes.len() ==> !probes[j]) ==> name_from_probes(command, probes)
            == base_name(split_on(command, ' ')[0]),
        1 <= k <= probes.len() && probes[k - 1] && (forall|j: int|
            0 <= j < probes.len() && j != k - 1 ==> !probes[j]) && join(
            split_on(command, ' ').take(k),
            seq![' '],
        ).len() > 0 ==> name_from_probes(command, probes) == base_name(
            join(split_on(command, ' ').take(k), seq![' ']),
        ),
{
    let toks = split_on(command, ' ');
    if forall|j: int| 0 <= j < probes.len() ==> !probes[j] {
        lemma_scan_skips_missing(toks, probes, 1, probes.len() + 1int);
    }
    if 1 <= k <= probes.len() && probes[k - 1] && (forall|j: int|
        0 <= j < probes.len() && j != k - 1 ==> !probes[j]) && join(toks.take(k), seq![' ']).len()
        > 0 {
        lemma_scan_skips_missing(toks, probes, 1, k);
        let b = join(toks.take(k), seq![' ']);
        if k < probes.len() {
            assert(best_prefix(toks, probes, k + 1, b) == b);
        } else {
            assert(best_prefix(toks, probes, k + 1, b) == b);
        }
    }
}

} // verus!
