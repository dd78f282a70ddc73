//! Live CPU usage: the CPU time that `ps` reports for each process, and the
//! rate at which it grew between two listings, with the colour level it is
//! shown in.
use vstd::prelude::*;
use std::collections::HashMap;
use crate::procs::{has_pid, lemma_pid_index_unique, pids_increasing, proc_of, Proc, ProcMap};
use crate::text::{
    chars_of, digits_value, lemma_split_on_nonempty, read_digits, small_digits, split_char,
    split_on, texts,
};

verus! {

broadcast use vstd::std_specs::hash::group_hash_axioms;

/// The CPU time written by `t`, in hundredths of a second, as `ps` prints its
/// `time` column: an optional `D-` day count, then two or three `:`-separated
/// fields (`M:S` or `H:M:S`), the last of which may carry one or two digits of
/// fraction after a `.`. Every number is a run of digits worth at most 2^32.
pub open spec fn cpu_time_centis(t: Seq<char>) -> Option<int> {
    let dp = split_on(t, '-');
    let cp = split_on(dp.last(), ':');
    let sp = split_on(cp.last(), '.');
    if dp.len() > 2 || (dp.len() == 2 && !small_digits(dp[0])) || cp.len() < 2 || cp.len() > 3 || (
    cp.len() == 3 && !small_digits(cp[0])) || !small_digits(cp[cp.len() - 2]) || sp.len() > 2
        || !small_digits(sp[0]) || (sp.len() == 2 && !(sp[1].len() <= 2 && small_digits(sp[1]))) {
        None
    } else {
        let days = if dp.len() == 2 {
            digits_value(dp[0])
        } else {
            0
        };
        let hours = if cp.len() == 3 {
            digits_value(cp[0])
        } else {
            0
        };
        let centis = if sp.len() == 1 {
            0
        } else if sp[1].len() == 1 {
            digits_value(sp[1]) * 10
        } else {
            digits_value(sp[1])
        };
        Some(
            (((days * 24 + hours) * 60 + digits_value(cp[cp.len() - 2])) * 60 + digits_value(sp[0]))
                * 100 + centis,
        )
    }
}

/// A number of digits read from a one- or two-digit fraction is below 100.
proof fn lemma_fraction_small(d: Seq<char>)
    requires
        small_digits(d),
        d.len() <= 2,
    ensures
        digits_value(d) < 100,
        d.len() == 1 ==> digits_value(d) < 10,
{
    let a = d.drop_last();
    assert(crate::text::is_digit(d[d.len() - 1]));
    assert(d.last() == d[d.len() - 1]);
    if d.len() == 1 {
        assert(digits_value(a) == 0);
    } else {
        assert(crate::text::is_digit(d[0]));
        assert(a.last() == d[0]);
        assert(a.drop_last().len() == 0);
        assert(digits_value(a.drop_last()) == 0);
        assert(digits_value(a) < 10);
    }
}

/// Reads the CPU time that `ps` prints, in hundredths of a second.
pub fn read_cpu_time(t: &str) -> (r: Option<u64>)
    ensures
        r == match cpu_time_centis(t@) {
            Some(v) => Some(v as u64),
            None => None::<u64>,
        },
        r matches Some(v) ==> cpu_time_centis(t@) == Some(v as int),
{
    let dp = split_char(t, '-');
    let ghost dps = split_on(t@, '-');
    assert(texts(dp@)[0] == dp@[0]@);
    if dp.len() > 2 {
        return None;
    }
    let days: u64 = if dp.len() == 2 {
        assert(texts(dp@)[0] == dps[0]);
        match read_digits(dp[0].as_str()) {
            Some(d) => d,
            None => {
                return None;
            },
        }
    } else {
        0
    };
    let clock = dp[dp.len() - 1].as_str();
    assert(clock@ == dps.last()) by {
        assert(texts(dp@)[dp.len() - 1] == dp@[dp.len() - 1]@);
    }
    let cp = split_char(clock, ':');
    let ghost cps = split_on(clock@, ':');
    if cp.len() < 2 || cp.len() > 3 {
        return None;
    }
    let hours: u64 = if cp.len() == 3 {
        assert(texts(cp@)[0] == cp@[0]@);
        match read_digits(cp[0].as_str()) {
            Some(h) => h,
            None => {
                return None;
            },
        }
    } else {
        0
    };
    assert(texts(cp@)[cp.len() - 2] == cp@[cp.len() - 2]@);
    let mins = match read_digits(cp[cp.len() - 2].as_str()) {
        Some(m) => m,
        None => {
            return None;
        },
    };
    let last = cp[cp.len() - 1].as_str();
    assert(last@ == cps.last()) by {
        assert(texts(cp@)[cp.len() - 1] == cp@[cp.len() - 1]@);
    }
    let sp = split_char(last, '.');
    let ghost sps = split_on(last@, '.');
    if sp.len() > 2 {
        return None;
    }
    assert(texts(sp@)[0] == sp@[0]@);
    let secs = match read_digits(sp[0].as_str()) {
        Some(s) => s,
        None => {
            return None;
        },
    };
    let centis: u64 = if sp.len() == 2 {
        assert(texts(sp@)[1] == sp@[1]@);
        let frac = sp[1].as_str();
        let n = chars_of(frac).len();
        if n > 2 {
            return None;
        }
        match read_digits(frac) {
            Some(f) => {
                proof {
                    lemma_fraction_small(frac@);
                }
                if n == 1 {
                    f * 10
                } else {
                    f
                }
            },
            None => {
                return None;
            },
        }
    } else {
        0
    };
    Some((((days * 24 + hours) * 60 + mins) * 60 + secs) * 100 + centis)
}

/// The CPU time of each listed process whose `time` reads, keyed by pid.
pub open spec fn cpu_times_of(s: Seq<Proc>) -> Map<i32, u64> {
    Map::new(
        |pid: i32| has_pid(s, pid) && cpu_time_centis(proc_of(s, pid).time@) is Some,
        |pid: i32| (cpu_time_centis(proc_of(s, pid).time@)->0) as u64,
    )
}

/// The CPU use, in percent of one core, of a process that used `delta`
/// hundredths of a second of CPU time in `elapsed_ms` milliseconds (rounded
/// down, and held at `u64::MAX`).
pub open spec fn rate_percent(delta: int, elapsed_ms: u64) -> u64 {
    let r = delta * 1000 / (elapsed_ms as int);
    if r > u64::MAX {
        u64::MAX
    } else {
        r as u64
    }
}

/// The rates of the processes sampled both `elapsed_ms` milliseconds ago
/// (`before`) and now (`now`), whose CPU time did not go down; none when no
/// time has passed.
pub open spec fn cpu_rates_of(before: Map<i32, u64>, now: Map<i32, u64>, elapsed_ms: u64) -> Map<i32, u64> {
    Map::new(
        |pid: i32|
            now.contains_key(pid) && before.contains_key(pid) && elapsed_ms > 0 && before[pid]
                <= now[pid],
        |pid: i32| rate_percent(now[pid] - before[pid], elapsed_ms),
    )
}

/// The CPU use of a process that used `delta` hundredths of a second of CPU
/// time in `elapsed_ms` milliseconds.
pub fn cpu_rate(delta: u64, elapsed_ms: u64) -> (r: u64)
    requires
        elapsed_ms > 0,
    ensures
        r == rate_percent(delta as int, elapsed_ms),
{
    let wide = (delta as u128) * 1000 / (elapsed_ms as u128);
    if wide > u64::MAX as u128 {
        u64::MAX
    } else {
        wide as u64
    }
}

/// Samples the CPU time of every listed process, and the rate of each one that
/// was also sampled `elapsed_ms` milliseconds ago in `before`: the new sample
/// first, the rates second.
pub fn sample_cpu(procs: &ProcMap, before: &HashMap<i32, u64>, elapsed_ms: u64) -> (r: (
    HashMap<i32, u64>,
    HashMap<i32, u64>,
))
    requires
        procs.wf(),
    ensures
        r.0@ == cpu_times_of(procs@),
        r.1@ == cpu_rates_of(before@, cpu_times_of(procs@), elapsed_ms),
{
    let ghost s = procs@;
    let mut now: HashMap<i32, u64> = HashMap::new();
    let mut rates: HashMap<i32, u64> = HashMap::new();
    let n = procs.len();
    let mut i: usize = 0;
    while i < n
        invariant
            s == procs@,
            pids_increasing(s),
            n == s.len(),
            i <= n,
            forall|pid: i32|
                #[trigger] now@.contains_key(pid) <==> exists|k: int|
                    0 <= k < i && s[k].pid == pid && cpu_time_centis(s[k].time@) is Some,
            forall|k: int|
                0 <= k < i && cpu_time_centis(#[trigger] s[k].time@) is Some ==> now@[s[k].pid] == (
                cpu_time_centis(s[k].time@)->0) as u64,
            forall|pid: i32|
                #[trigger] rates@.contains_key(pid) <==> now@.contains_key(pid) && before@.contains_key(
                    pid,
                ) && elapsed_ms > 0 && before@[pid] <= now@[pid],
            forall|pid: i32|
                #[trigger] rates@.contains_key(pid) ==> rates@[pid] == rate_percent(
                    now@[pid] - before@[pid],
                    elapsed_ms,
                ),
        decreases n - i,
    {
        let p = procs.entry(i);
        let pid = p.pid;
        proof {
            assert forall|k: int| 0 <= k < i implies s[k].pid != pid by {
                assert(s[k].pid < s[i as int].pid);
            }
        }
        match read_cpu_time(p.time.as_str()) {
            Some(c) => {
                now.insert(pid, c);
                match before.get(&pid) {
                    Some(b) => {
                        if elapsed_ms > 0 && *b <= c {
                            let r = cpu_rate(c - *b, elapsed_ms);
                            rates.insert(pid, r);
                        }
                    },
                    None => {},
                }
                proof {
                    assert forall|q: i32| #[trigger] now@.contains_key(q) <==> exists|k: int|
                        0 <= k < i + 1 && s[k].pid == q && cpu_time_centis(s[k].time@) is Some by {
                        if q == pid {
                            assert(s[i as int].pid == q);
                        }
                    }
                }
            },
            None => {
                proof {
                    assert forall|q: i32| #[trigger] now@.contains_key(q) <==> exists|k: int|
                        0 <= k < i + 1 && s[k].pid == q && cpu_time_centis(s[k].time@) is Some by {
                        if exists|k: int|
                            0 <= k < i + 1 && s[k].pid == q && cpu_time_centis(s[k].time@) is Some {
                            let k = choose|k: int|
                                0 <= k < i + 1 && s[k].pid == q && cpu_time_centis(s[k].time@) is Some;
                            assert(k != i);
                        }
                    }
                }
            },
        }
        i += 1;
    }
    proof {
        assert forall|pid: i32| #[trigger] now@.contains_key(pid) <==> cpu_times_of(s).contains_key(pid) by {
            if now@.contains_key(pid) {
                let k = choose|k: int| 0 <= k < n && s[k].pid == pid && cpu_time_centis(s[k].time@) is Some;
                lemma_pid_index_unique(s, k);
            }
            if cpu_times_of(s).contains_key(pid) {
                let k = crate::procs::pid_index(s, pid);
                lemma_pid_index_unique(s, k);
            }
        }
        assert forall|pid: i32| #[trigger] now@.contains_key(pid) implies now@[pid] == cpu_times_of(s)[pid] by {
            let k = choose|k: int| 0 <= k < n && s[k].pid == pid && cpu_time_centis(s[k].time@) is Some;
            lemma_pid_index_unique(s, k);
        }
        assert(now@ =~= cpu_times_of(s));
        assert(rates@ =~= cpu_rates_of(before@, cpu_times_of(s), elapsed_ms));
    }
    (now, rates)
}

/// How a CPU rate is coloured.
#[derive(Clone, Copy, PartialEq, Eq, Debug)]
pub enum CpuLevel {
    /// Below 25%.
    Calm,
    /// From 25% up to 80%: yellow.
    Busy,
    /// 80% or more: red.
    Hot,
}

/// The colour level of a rate: hot from 80%, busy from 25%.
pub open spec fn level_of(rate: u64) -> CpuLevel {
    if rate >= 80 {
        CpuLevel::Hot
    } else if rate >= 25 {
        CpuLevel::Busy
    } else {
        CpuLevel::Calm
    }
}

/// The colour level of a rate: hot from 80%, busy from 25%.
pub fn cpu_level(rate: u64) -> (l: CpuLevel)
    ensures
        l == level_of(rate),
{
    if rate >= 80 {
        CpuLevel::Hot
    } else if rate >= 25 {
        CpuLevel::Busy
    } else {
        CpuLevel::Calm
    }
}

/// `t` right-aligned in `width` columns (unchanged when it is as wide already).
pub open spec fn pad_left(t: Seq<char>, width: nat) -> Seq<char> {
    if t.len() >= width {
        t
    } else {
        Seq::new((width - t.len()) as nat, |i: int| ' ') + t
    }
}

/// The column shown for a known rate: the percentage, right-aligned in five columns.
pub open spec fn rate_text(rate: u64) -> Seq<char> {
    pad_left(crate::text::decimal(rate as nat) + "%"@, 5)
}

/// The column shown for a process without a rate.
pub open spec fn no_rate_text() -> Seq<char> {
    "    -"@
}

} // verus!
