//! The state of the process monitor between two refreshes: the process
//! table, the CPU accounting against the previous sample, and the user's
//! choices of search text, ordering and refresh interval.

use vstd::prelude::*;
use std::collections::HashMap;
use crate::procinfo::{Mode, ProcInfo, sat_add, sat_sub, wrap_add};
use crate::text::{
    chars_of, contains_chars, contains_seq, lowercase, string_of, to_lowercase, trim, trim_chars,
    views,
};
use crate::number::{decimal, decimal_chars};

verus! {

broadcast use vstd::std_specs::hash::group_hash_axioms;

/// The column that orders the process table.
#[derive(Clone, Copy, Debug, PartialEq, Eq, Structural)]
pub enum SortCol {
    Pid,
    Name,
    Ram,
    Cpu,
    VmSize,
    State,
}

/// The monitor's state. CPU usage is kept as clock ticks used since the
/// previous sample (`cpu_ticks`), to be read against the jiffies that
/// passed in the same time (`jiffies_delta`, never 0).
pub struct ProcMonitor {
    pub mode: Mode,
    pub procs: Vec<ProcInfo>,
    pub prev_cpu: HashMap<u32, (u64, u64)>,
    pub prev_jiffies: u64,
    pub cpu_ticks: HashMap<u32, u64>,
    pub jiffies_delta: u64,
    pub sort_col: SortCol,
    pub sort_asc: bool,
    pub search: String,
    pub interval_ms: u64,
    pub num_cpus: usize,
    pub total_ram_kb: u64,
}

/// The CPU ticks that process `p` used since the sample `prev`: in `Lite`,
/// the growth of `utime + stime` (modulo 2^64), 0 for a process not in the
/// sample; in `Full`, the growth of the saturated sum, where a process not in
/// the sample counts as having used nothing.
pub open spec fn ticks_for(mode: Mode, p: ProcInfo, prev: Map<u32, (u64, u64)>) -> u64 {
    match mode {
        Mode::Lite => if prev.contains_key(p.pid) {
            sat_sub(wrap_add(p.utime, p.stime), wrap_add(prev[p.pid].0, prev[p.pid].1))
        } else {
            0
        },
        Mode::Full => {
            let cur = sat_add(p.utime, p.stime);
            let before = if prev.contains_key(p.pid) {
                sat_add(prev[p.pid].0, prev[p.pid].1)
            } else {
                cur
            };
            sat_sub(cur, before)
        },
    }
}

/// The CPU sample that a list of processes leaves: each PID's user and
/// system time, the later entry winning for a repeated PID.
pub open spec fn sample_of(ps: Seq<ProcInfo>) -> Map<u32, (u64, u64)>
    decreases ps.len(),
{
    if ps.len() == 0 {
        Map::empty()
    } else {
        sample_of(ps.drop_last()).insert(ps.last().pid, (ps.last().utime, ps.last().stime))
    }
}

/// The CPU ticks of each PID of `ps` against the sample `prev`.
pub open spec fn ticks_of(mode: Mode, ps: Seq<ProcInfo>, prev: Map<u32, (u64, u64)>) -> Map<
    u32,
    u64,
>
    decreases ps.len(),
{
    if ps.len() == 0 {
        Map::empty()
    } else {
        ticks_of(mode, ps.drop_last(), prev).insert(ps.last().pid, ticks_for(mode, ps.last(), prev))
    }
}

/// The jiffy count that a refresh takes: the one read, or when `/proc/stat`
/// gave none, the previous count (`Lite`) or 0 (`Full`).
pub open spec fn jiffies_now(mode: Mode, prev: u64, read: Option<u64>) -> u64 {
    match read {
        Some(v) => v,
        None => match mode {
            Mode::Lite => prev,
            Mode::Full => 0,
        },
    }
}

/// The jiffies between two counts, at least 1.
pub open spec fn jiffies_between(prev: u64, cur: u64) -> u64 {
    if cur > prev {
        (cur - prev) as u64
    } else {
        1
    }
}

/// The sum of the resident sizes of `ps`, modulo 2^64.
pub open spec fn rss_sum(ps: Seq<ProcInfo>) -> u64
    decreases ps.len(),
{
    if ps.len() == 0 {
        0
    } else {
        wrap_add(rss_sum(ps.drop_last()), ps.last().rss_kb)
    }
}

/// The ordering column and direction after a click on `col`'s button.
pub open spec fn after_click(sort_col: SortCol, sort_asc: bool, col: SortCol) -> (SortCol, bool) {
    if sort_col == col {
        (col, !sort_asc)
    } else {
        (col, starts_ascending(col))
    }
}

/// The direction that a newly chosen column starts in: ascending for PID
/// and name, descending for the others.
pub open spec fn starts_ascending(col: SortCol) -> bool {
    col == SortCol::Pid || col == SortCol::Name
}

impl ProcMonitor {
    /// The monitor's invariant: CPU ticks are always read against a
    /// positive number of jiffies.
    pub open spec fn wf(&self) -> bool {
        self.jiffies_delta >= 1
    }

    /// A monitor with no processes yet, ordered by RAM (`Lite`) or CPU
    /// (`Full`), descending, refreshing every second.
    pub fn new(mode: Mode, num_cpus: usize, total_ram_kb: u64, jiffies: Option<u64>) -> (m: Self)
        ensures
            m.mode == mode,
            m.procs@.len() == 0,
            m.prev_cpu@ == Map::<u32, (u64, u64)>::empty(),
            m.cpu_ticks@ == Map::<u32, u64>::empty(),
            m.prev_jiffies == match jiffies {
                Some(v) => v,
                None => 0,
            },
            m.jiffies_delta == 1,
            m.sort_col == match mode {
                Mode::Lite => SortCol::Ram,
                Mode::Full => SortCol::Cpu,
            },
            !m.sort_asc,
            m.search@.len() == 0,
            m.interval_ms == 1000,
            m.num_cpus == num_cpus,
            m.total_ram_kb == total_ram_kb,
            m.wf(),
    {
        ProcMonitor {
            mode,
            procs: Vec::new(),
            prev_cpu: HashMap::new(),
            prev_jiffies: match jiffies {
                Some(v) => v,
                None => 0,
            },
            cpu_ticks: HashMap::new(),
            jiffies_delta: 1,
            sort_col: match mode {
                Mode::Lite => SortCol::Ram,
                Mode::Full => SortCol::Cpu,
            },
            sort_asc: false,
            search: String::new(),
            interval_ms: 1000,
            num_cpus,
            total_ram_kb,
        }
    }

    /// Takes a new sample: the processes read now and the jiffy count of
    /// `/proc/stat` (`None` when it could not be read). Each process's CPU
    /// ticks are measured against the previous sample, which the new one
    /// then replaces.
    pub fn refresh(&mut self, jiffies: Option<u64>, procs: Vec<ProcInfo>)
        ensures
            final(self).procs@ == procs@,
            final(self).prev_cpu@ == sample_of(procs@),
            final(self).cpu_ticks@ == ticks_of(old(self).mode, procs@, old(self).prev_cpu@),
            final(self).prev_jiffies == jiffies_now(
                old(self).mode,
                old(self).prev_jiffies,
                jiffies,
            ),
            final(self).jiffies_delta == jiffies_between(
                old(self).prev_jiffies,
                jiffies_now(old(self).mode, old(self).prev_jiffies, jiffies),
            ),
            final(self).mode == old(self).mode,
            final(self).sort_col == old(self).sort_col,
            final(self).sort_asc == old(self).sort_asc,
            final(self).search == old(self).search,
            final(self).interval_ms == old(self).interval_ms,
            final(self).num_cpus == old(self).num_cpus,
            final(self).total_ram_kb == old(self).total_ram_kb,
            final(self).wf(),
    {
        let cur = match jiffies {
            Some(v) => v,
            None => match self.mode {
                Mode::Lite => self.prev_jiffies,
                Mode::Full => 0,
            },
        };
        let delta = if cur > self.prev_jiffies {
            cur - self.prev_jiffies
        } else {
            1
        };
        let mut new_prev: HashMap<u32, (u64, u64)> = HashMap::new();
        let mut ticks: HashMap<u32, u64> = HashMap::new();
        let mut i: usize = 0;
        let ghost ps = procs@;
        assert(ps.take(0) =~= Seq::<ProcInfo>::empty());
        while i < procs.len()
            invariant
                i <= ps.len(),
                ps == procs@,
                new_prev@ == sample_of(ps.take(i as int)),
                ticks@ == ticks_of(self.mode, ps.take(i as int), self.prev_cpu@),
            decreases ps.len() - i,
        {
            let p = &procs[i];
            let t = self.ticks_since(p);
            new_prev.insert(p.pid, (p.utime, p.stime));
            ticks.insert(p.pid, t);
            assert(ps.take(i + 1).drop_last() =~= ps.take(i as int));
            assert(ps.take(i + 1).last() == ps[i as int]);
            i = i + 1;
        }
        assert(ps.take(ps.len() as int) =~= ps);
        self.procs = procs;
        self.prev_cpu = new_prev;
        self.prev_jiffies = cur;
        self.cpu_ticks = ticks;
        self.jiffies_delta = delta;
    }

    /// The CPU ticks that `p` used since the previous sample.
    pub fn ticks_since(&self, p: &ProcInfo) -> (r: u64)
        ensures
            r == ticks_for(self.mode, *p, self.prev_cpu@),
    {
        match self.mode {
            Mode::Lite => match self.prev_cpu.get(&p.pid) {
                Some(pair) => {
                    let prev_total = pair.0.wrapping_add(pair.1);
                    let cur_total = p.utime.wrapping_add(p.stime);
                    cur_total.saturating_sub(prev_total)
                },
                None => 0,
            },
            Mode::Full => {
                let cur = p.total_time();
                let before = match self.prev_cpu.get(&p.pid) {
                    Some(pair) => pair.0.saturating_add(pair.1),
                    None => cur,
                };
                cur.saturating_sub(before)
            },
        }
    }

    /// The CPU ticks recorded for `pid` at the last refresh, 0 when none.
    pub fn cpu_ticks_of(&self, pid: u32) -> (r: u64)
        ensures
            r == if self.cpu_ticks@.contains_key(pid) {
                self.cpu_ticks@[pid]
            } else {
                0
            },
    {
        match self.cpu_ticks.get(&pid) {
            Some(t) => *t,
            None => 0,
        }
    }

    /// The resident memory of all processes in kB, added modulo 2^64.
    pub fn ram_used_kb(&self) -> (r: u64)
        ensures
            r == rss_sum(self.procs@),
    {
        let mut sum: u64 = 0;
        let mut i: usize = 0;
        let ghost ps = self.procs@;
        assert(ps.take(0) =~= Seq::<ProcInfo>::empty());
        while i < self.procs.len()
            invariant
                i <= ps.len(),
                ps == self.procs@,
                sum == rss_sum(ps.take(i as int)),
            decreases ps.len() - i,
        {
            assert(ps.take(i + 1).drop_last() =~= ps.take(i as int));
            sum = sum.wrapping_add(self.procs[i].rss_kb);
            i = i + 1;
        }
        assert(ps.take(ps.len() as int) =~= ps);
        sum
    }

    /// A click on a column's button: the ordering column again flips the
    /// direction; another column becomes the ordering column, in its
    /// starting direction.
    pub fn click_sort(&mut self, col: SortCol)
        ensures
            (final(self).sort_col, final(self).sort_asc) == after_click(
                old(self).sort_col,
                old(self).sort_asc,
                col,
            ),
            final(self).mode == old(self).mode,
            final(self).procs@ == old(self).procs@,
            final(self).prev_cpu@ == old(self).prev_cpu@,
            final(self).cpu_ticks@ == old(self).cpu_ticks@,
            final(self).prev_jiffies == old(self).prev_jiffies,
            final(self).jiffies_delta == old(self).jiffies_delta,
            final(self).search == old(self).search,
            final(self).interval_ms == old(self).interval_ms,
            final(self).num_cpus == old(self).num_cpus,
            final(self).total_ram_kb == old(self).total_ram_kb,
    {
        if self.sort_col == col {
            self.sort_asc = !self.sort_asc;
        } else {
            self.sort_col = col;
            self.sort_asc = col == SortCol::Pid || col == SortCol::Name;
        }
    }

    /// The arrow shown after a column's button label: up or down on the
    /// ordering column, nothing on the others.
    pub fn sort_arrow(&self, col: SortCol) -> (r: &'static str)
        ensures
            r@ == if self.sort_col != col {
                ""@
            } else if self.sort_asc {
                " \u{25B2}"@
            } else {
                " \u{25BC}"@
            },
    {
        if self.sort_col == col {
            if self.sort_asc {
                " \u{25B2}"
            } else {
                " \u{25BC}"
            }
        } else {
            ""
        }
    }

    /// Whether a refresh is due after `elapsed_ms` milliseconds.
    pub fn refresh_due(&self, elapsed_ms: u128) -> (r: bool)
        ensures
            r == (elapsed_ms >= self.interval_ms),
    {
        elapsed_ms >= self.interval_ms as u128
    }
}


// ---------------------------------------------------------------------
// Laws of the sample and of the ordering buttons
// ---------------------------------------------------------------------

/// A second click on the ordering column undoes the first: the order is
/// back where it was.
pub proof fn law_second_click_undoes_first(sort_col: SortCol, sort_asc: bool)
    ensures
        ({
            let once = after_click(sort_col, sort_asc, sort_col);
            after_click(once.0, once.1, sort_col)
        }) == (sort_col, sort_asc),
{
}

/// A click on a column other than the ordering one makes it the ordering
/// column, ascending for PID and name and descending for RAM, CPU, virtual
/// size and state.
pub proof fn law_new_column_direction(sort_col: SortCol, sort_asc: bool, col: SortCol)
    requires
        sort_col != col,
    ensures
        after_click(sort_col, sort_asc, col).0 == col,
        after_click(sort_col, sort_asc, col).1 <==> (col == SortCol::Pid || col == SortCol::Name),
{
}

/// After a refresh, the sample holds exactly the PIDs of the processes
/// read, each with its last reading, and every one of them has a CPU
/// figure.
pub proof fn law_sample_covers_processes(mode: Mode, ps: Seq<ProcInfo>, prev: Map<u32, (u64, u64)>)
    ensures
        forall|pid: u32|
            sample_of(ps).contains_key(pid) <==> exists|i: int|
                0 <= i < ps.len() && #[trigger] ps[i].pid == pid,
        forall|pid: u32| sample_of(ps).contains_key(pid) <==> ticks_of(mode, ps, prev).contains_key(pid),
    decreases ps.len(),
{
    if ps.len() > 0 {
        law_sample_covers_processes(mode, ps.drop_last(), prev);
        assert forall|pid: u32|
            sample_of(ps).contains_key(pid) <==> exists|i: int|
                0 <= i < ps.len() && #[trigger] ps[i].pid == pid by {
            if sample_of(ps).contains_key(pid) && pid != ps.last().pid {
                assert(sample_of(ps.drop_last()).contains_key(pid));
                let i = choose|i: int| 0 <= i < ps.drop_last().len() && #[trigger] ps.drop_last()[i].pid == pid;
                assert(ps[i].pid == pid);
            }
            if exists|i: int| 0 <= i < ps.len() && #[trigger] ps[i].pid == pid {
                let i = choose|i: int| 0 <= i < ps.len() && #[trigger] ps[i].pid == pid;
                if i < ps.len() - 1 {
                    assert(ps.drop_last()[i].pid == pid);
                    assert(sample_of(ps.drop_last()).contains_key(pid));
                }
            }
        }
        assert forall|pid: u32| sample_of(ps).contains_key(pid) <==> ticks_of(mode, ps, prev).contains_key(pid) by {
            assert(sample_of(ps.drop_last()).contains_key(pid) <==> ticks_of(mode, ps.drop_last(), prev).contains_key(pid));
        }
    }
}

/// A process that the previous sample did not hold shows no CPU use, and
/// no process is charged more ticks than its total time.
pub proof fn law_cpu_ticks_bounds(mode: Mode, p: ProcInfo, prev: Map<u32, (u64, u64)>)
    ensures
        !prev.contains_key(p.pid) ==> ticks_for(mode, p, prev) == 0,
        ticks_for(mode, p, prev) <= match mode {
            Mode::Lite => wrap_add(p.utime, p.stime),
            Mode::Full => sat_add(p.utime, p.stime),
        },
{
}

/// A process that the previous sample holds is charged exactly the user
/// and system time it used since then, whenever its times neither overflow
/// nor go back: `(utime + stime) - (previous utime + previous stime)`.
pub proof fn law_ticks_are_time_used(mode: Mode, p: ProcInfo, prev: Map<u32, (u64, u64)>)
    requires
        prev.contains_key(p.pid),
        p.utime + p.stime <= u64::MAX,
        prev[p.pid].0 + prev[p.pid].1 <= p.utime + p.stime,
    ensures
        ticks_for(mode, p, prev) == (p.utime + p.stime) - (prev[p.pid].0 + prev[p.pid].1),
{
}

/// After a refresh, the CPU figure and the sample of each process are
/// those of its last record: the time it used since the previous sample
/// (when its times neither overflow nor go back), and its own user and
/// system times.
pub proof fn law_refresh_records_each_process(
    mode: Mode,
    ps: Seq<ProcInfo>,
    prev: Map<u32, (u64, u64)>,
    i: int,
)
    requires
        0 <= i < ps.len(),
        forall|j: int| i < j < ps.len() ==> #[trigger] ps[j].pid != ps[i].pid,
    ensures
        sample_of(ps).contains_key(ps[i].pid),
        sample_of(ps)[ps[i].pid] == (ps[i].utime, ps[i].stime),
        ticks_of(mode, ps, prev).contains_key(ps[i].pid),
        ({
            let p = ps[i];
            prev.contains_key(p.pid) && p.utime + p.stime <= u64::MAX && prev[p.pid].0
                + prev[p.pid].1 <= p.utime + p.stime ==> ticks_of(mode, ps, prev)[p.pid] == (p.utime
                + p.stime) - (prev[p.pid].0 + prev[p.pid].1)
        }),
    decreases ps.len(),
{
    let p = ps[i];
    if prev.contains_key(p.pid) && p.utime + p.stime <= u64::MAX && prev[p.pid].0 + prev[p.pid].1
        <= p.utime + p.stime {
        law_ticks_are_time_used(mode, p, prev);
    }
    if i < ps.len() - 1 {
        let rest = ps.drop_last();
        assert forall|j: int| i < j < rest.len() implies #[trigger] rest[j].pid != rest[i].pid by {
            assert(rest[j] == ps[j]);
        }
        assert(ps[ps.len() - 1].pid != p.pid);
        law_refresh_records_each_process(mode, rest, prev, i);
        assert(rest[i] == p);
    }
}

/// The RAM in use counts every process once: nothing for no process, and
/// one more process adds its resident size (modulo 2^64).
pub proof fn law_ram_used_counts_every_process(ps: Seq<ProcInfo>, p: ProcInfo)
    ensures
        rss_sum(Seq::<ProcInfo>::empty()) == 0,
        rss_sum(ps.push(p)) as int == (rss_sum(ps) + p.rss_kb) % 0x1_0000_0000_0000_0000,
        rss_sum(seq![p]) == p.rss_kb,
{
    assert(ps.push(p).drop_last() =~= ps);
    assert(seq![p].drop_last() =~= Seq::<ProcInfo>::empty());
    let s = rss_sum(ps) + p.rss_kb;
    if s > u64::MAX {
        vstd::arithmetic::div_mod::lemma_fundamental_div_mod_converse(
            s,
            0x1_0000_0000_0000_0000,
            1,
            s - 0x1_0000_0000_0000_0000,
        );
    } else {
        vstd::arithmetic::div_mod::lemma_fundamental_div_mod_converse(
            s,
            0x1_0000_0000_0000_0000,
            0,
            s,
        );
    }
    assert(rss_sum(seq![p].drop_last()) == 0);
    assert(seq![p].last() == p);
    assert(rss_sum(seq![p]) == wrap_add(0, p.rss_kb));
}

/// The jiffies between two samples are never 0, so CPU shares are always
/// defined.
pub proof fn law_jiffies_between_positive(prev: u64, cur: u64)
    ensures
        jiffies_between(prev, cur) >= 1,
        cur > prev ==> jiffies_between(prev, cur) == cur - prev,
{
}

// ---------------------------------------------------------------------
// The table that a refresh receives
// ---------------------------------------------------------------------

/// The processes that could be read, in the order of the reading.
pub open spec fn kept_procs(read: Seq<Option<ProcInfo>>) -> Seq<ProcInfo>
    decreases read.len(),
{
    if read.len() == 0 {
        Seq::empty()
    } else {
        match read.last() {
            Some(p) => kept_procs(read.drop_last()).push(p),
            None => kept_procs(read.drop_last()),
        }
    }
}

/// Whether `read` is a reading of the processes `pids`, one result per PID
/// in order, each record carrying the PID it was read for.
pub open spec fn reading_of(pids: Seq<u32>, read: Seq<Option<ProcInfo>>) -> bool {
    &&& read.len() == pids.len()
    &&& forall|i: int| 0 <= i < read.len() && #[trigger] read[i] is Some ==> read[i]->0.pid == pids[i]
}

/// Whether the PIDs of `ps` strictly increase.
pub open spec fn pids_increasing(ps: Seq<ProcInfo>) -> bool {
    forall|a: int, b: int| 0 <= a < b < ps.len() ==> #[trigger] ps[a].pid < #[trigger] ps[b].pid
}

/// Whether `s` strictly increases.
pub open spec fn strictly_increasing(s: Seq<u32>) -> bool {
    forall|a: int, b: int| 0 <= a < b < s.len() ==> #[trigger] s[a] < #[trigger] s[b]
}

/// The kept records of a reading of increasing PIDs increase by PID and
/// carry PIDs no larger than the last one read.
proof fn lemma_kept_increasing(pids: Seq<u32>, read: Seq<Option<ProcInfo>>)
    requires
        reading_of(pids, read),
        strictly_increasing(pids),
    ensures
        pids_increasing(kept_procs(read)),
        read.len() > 0 ==> forall|k: int|
            0 <= k < kept_procs(read).len() ==> #[trigger] kept_procs(read)[k].pid <= pids.last(),
    decreases read.len(),
{
    if read.len() > 0 {
        let (rp, rr) = (pids.drop_last(), read.drop_last());
        assert(reading_of(rp, rr)) by {
            assert forall|i: int| 0 <= i < rr.len() && #[trigger] rr[i] is Some implies rr[i]->0.pid
                == rp[i] by {
                assert(rr[i] == read[i]);
            }
        }
        lemma_kept_increasing(rp, rr);
        let prev = kept_procs(rr);
        assert forall|k: int| 0 <= k < prev.len() implies #[trigger] prev[k].pid < pids.last() by {
            assert(rp.last() == pids[pids.len() - 2]);
        }
        match read.last() {
            Some(p) => {
                assert(read[read.len() - 1] is Some);
                let s = kept_procs(read);
                assert(s == prev.push(p));
                assert forall|a: int, b: int| 0 <= a < b < s.len() implies #[trigger] s[a].pid
                    < #[trigger] s[b].pid by {
                    if b == s.len() - 1 {
                        assert(s[a] == prev[a]);
                    } else {
                        assert(s[a] == prev[a] && s[b] == prev[b]);
                    }
                }
                assert forall|k: int| 0 <= k < s.len() implies #[trigger] s[k].pid <= pids.last() by {
                    if k < s.len() - 1 {
                        assert(s[k] == prev[k]);
                    }
                }
            },
            None => {},
        }
    }
}

/// The processes that were read, in order: the records of `read`, each
/// `None` left out. When the PIDs read strictly increase, so do the
/// records' PIDs.
pub fn keep_read_procs(pids: &Vec<u32>, read: Vec<Option<ProcInfo>>) -> (r: Vec<ProcInfo>)
    requires
        reading_of(pids@, read@),
    ensures
        r@ == kept_procs(read@),
        strictly_increasing(pids@) ==> pids_increasing(r@),
{
    let ghost all = read@;
    let mut r: Vec<ProcInfo> = Vec::new();
    for x in it: read
        invariant
            all == it.seq(),
            r@ == kept_procs(all.take(it.index() as int)),
    {
        let ghost i = it.index();
        assert(all.take(i + 1).drop_last() =~= all.take(i as int));
        assert(all.take(i + 1).last() == x);
        match x {
            Some(p) => {
                r.push(p);
            },
            None => {},
        }
    }
    assert(all.take(all.len() as int) =~= all);
    proof {
        if strictly_increasing(pids@) {
            lemma_kept_increasing(pids@, all);
        }
    }
    r
}

/// A refresh keeps each process once: when the PIDs read strictly increase
/// (as the classic mode's PID list does when the entries of `/proc` denote
/// distinct numbers), the table that the refresh receives increases by PID,
/// and the new CPU sample and the CPU figures have exactly its PIDs as keys.
pub proof fn law_refresh_keeps_each_process_once(
    mode: Mode,
    pids: Seq<u32>,
    read: Seq<Option<ProcInfo>>,
    prev: Map<u32, (u64, u64)>,
)
    requires
        reading_of(pids, read),
        strictly_increasing(pids),
    ensures
        pids_increasing(kept_procs(read)),
        forall|pid: u32|
            sample_of(kept_procs(read)).contains_key(pid) <==> exists|i: int|
                0 <= i < kept_procs(read).len() && #[trigger] kept_procs(read)[i].pid == pid,
        forall|pid: u32|
            #[trigger] sample_of(kept_procs(read)).contains_key(pid) <==> ticks_of(
                mode,
                kept_procs(read),
                prev,
            ).contains_key(pid),
{
    lemma_kept_increasing(pids, read);
    law_sample_covers_processes(mode, kept_procs(read), prev);
}

// ---------------------------------------------------------------------
// Searching and ordering the table
// ---------------------------------------------------------------------

/// The text searched for: the search box lowercased (`Lite`), or trimmed
/// and lowercased (`Full`).
pub open spec fn query_of(mode: Mode, search: Seq<char>) -> Seq<char> {
    match mode {
        Mode::Lite => lowercase(search),
        Mode::Full => lowercase(trim(search)),
    }
}

/// Whether a row is listed for the query `q`, given its lowercased name
/// and PID: every row when `q` is empty, else those whose lowercased name
/// or decimal PID contains `q`.
pub open spec fn listed_row(q: Seq<char>, lower_name: Seq<char>, pid: u32) -> bool {
    q.len() == 0 || contains_seq(lower_name, q) || contains_seq(decimal(pid as nat), q)
}

/// Whether process `p` is listed for the query `q`.
pub open spec fn listed(q: Seq<char>, p: ProcInfo) -> bool {
    listed_row(q, lowercase(p.name@), p.pid)
}

/// -1, 0 or 1 as `a` is below, equal to or above `b`.
pub open spec fn order_int(a: int, b: int) -> int {
    if a < b {
        -1
    } else if a > b {
        1
    } else {
        0
    }
}

/// The lexicographic order of two character sequences by code point, as
/// `String`'s `Ord` compares them: -1, 0 or 1.
pub open spec fn lex_order(a: Seq<char>, b: Seq<char>) -> int
    decreases a.len(),
{
    if a.len() == 0 {
        if b.len() == 0 {
            0
        } else {
            -1
        }
    } else if b.len() == 0 {
        1
    } else if (a[0] as u32) < (b[0] as u32) {
        -1
    } else if (a[0] as u32) > (b[0] as u32) {
        1
    } else {
        lex_order(a.drop_first(), b.drop_first())
    }
}

/// Swapping the arguments negates the order; order 0 means equal.
pub proof fn lemma_lex_antisymmetric(a: Seq<char>, b: Seq<char>)
    ensures
        lex_order(a, b) == -lex_order(b, a),
        -1 <= lex_order(a, b) <= 1,
        lex_order(a, b) == 0 ==> a == b,
    decreases a.len(),
{
    if a.len() > 0 && b.len() > 0 && a[0] == b[0] {
        lemma_lex_antisymmetric(a.drop_first(), b.drop_first());
        if lex_order(a, b) == 0 {
            assert(a =~= seq![a[0]] + a.drop_first());
            assert(b =~= seq![b[0]] + b.drop_first());
        }
    } else if a.len() > 0 && b.len() > 0 {
        vstd::utf8::char_u32_cast(a[0], a[0] as u32);
        vstd::utf8::char_u32_cast(b[0], b[0] as u32);
    } else if a.len() == 0 && b.len() == 0 {
        assert(a =~= b);
    }
}

/// The order is transitive.
pub proof fn lemma_lex_transitive(a: Seq<char>, b: Seq<char>, c: Seq<char>)
    requires
        lex_order(a, b) <= 0,
        lex_order(b, c) <= 0,
    ensures
        lex_order(a, c) <= 0,
    decreases a.len(),
{
    if a.len() > 0 && b.len() > 0 && c.len() > 0 && (a[0] as u32) == (b[0] as u32) && (b[0] as u32)
        == (c[0] as u32) {
        lemma_lex_transitive(a.drop_first(), b.drop_first(), c.drop_first());
    }
}

/// The CPU figure that orders processes: their ticks, except that the
/// modern table's percentages are all 0 when it counts 0 CPUs.
pub open spec fn cpu_key(m: ProcMonitor, p: ProcInfo) -> u64 {
    if m.mode is Full && m.num_cpus == 0 {
        0
    } else if m.cpu_ticks@.contains_key(p.pid) {
        m.cpu_ticks@[p.pid]
    } else {
        0
    }
}

/// How two rows compare in column `col`, given each row's process, its
/// lowercased name (for the name column) and its CPU figure (for the CPU
/// column): -1, 0 or 1.
pub open spec fn row_order(
    col: SortCol,
    a: ProcInfo,
    b: ProcInfo,
    la: Seq<char>,
    lb: Seq<char>,
    ca: u64,
    cb: u64,
) -> int {
    match col {
        SortCol::Pid => order_int(a.pid as int, b.pid as int),
        SortCol::Name => lex_order(la, lb),
        SortCol::Ram => order_int(a.rss_kb as int, b.rss_kb as int),
        SortCol::Cpu => order_int(ca as int, cb as int),
        SortCol::VmSize => order_int(a.vmsize_kb as int, b.vmsize_kb as int),
        SortCol::State => order_int(a.state as u32 as int, b.state as u32 as int),
    }
}

/// Whether row `i` comes before row `j`: by column `col` in the direction
/// `asc`, and among equals in their order in the table (as a stable sort
/// leaves them).
pub open spec fn row_before(
    col: SortCol,
    asc: bool,
    procs: Seq<ProcInfo>,
    lower: Seq<Seq<char>>,
    cpu: Seq<u64>,
    i: int,
    j: int,
) -> bool {
    let o0 = row_order(col, procs[i], procs[j], lower[i], lower[j], cpu[i], cpu[j]);
    let o = if asc {
        o0
    } else {
        -o0
    };
    o < 0 || (o == 0 && i < j)
}

/// The lowercased names of the processes.
pub open spec fn lowered_names(ps: Seq<ProcInfo>) -> Seq<Seq<char>> {
    Seq::new(ps.len(), |k: int| lowercase(ps[k].name@))
}

/// The CPU figures of the monitor's processes.
pub open spec fn cpu_figures(m: ProcMonitor) -> Seq<u64> {
    Seq::new(m.procs@.len(), |k: int| cpu_key(m, m.procs@[k]))
}

/// Whether the process at position `i` of the monitor's table comes before
/// the one at `j`, by the chosen column and direction.
pub open spec fn comes_before(m: ProcMonitor, i: int, j: int) -> bool {
    row_before(m.sort_col, m.sort_asc, m.procs@, lowered_names(m.procs@), cpu_figures(m), i, j)
}

/// The column comparison is antisymmetric and transitive.
pub proof fn lemma_row_order(
    col: SortCol,
    a: ProcInfo,
    b: ProcInfo,
    c: ProcInfo,
    la: Seq<char>,
    lb: Seq<char>,
    lc: Seq<char>,
    ca: u64,
    cb: u64,
    cc: u64,
)
    ensures
        row_order(col, a, b, la, lb, ca, cb) == -row_order(col, b, a, lb, la, cb, ca),
        -1 <= row_order(col, a, b, la, lb, ca, cb) <= 1,
        row_order(col, a, b, la, lb, ca, cb) <= 0 && row_order(col, b, c, lb, lc, cb, cc) <= 0
            ==> row_order(col, a, c, la, lc, ca, cc) <= 0,
{
    if col == SortCol::Name {
        lemma_lex_antisymmetric(la, lb);
        if lex_order(la, lb) <= 0 && lex_order(lb, lc) <= 0 {
            lemma_lex_transitive(la, lb, lc);
        }
    }
}

/// `row_before` is a strict order: irreflexive, asymmetric between
/// distinct rows, total, and transitive.
pub proof fn lemma_row_before(
    col: SortCol,
    asc: bool,
    procs: Seq<ProcInfo>,
    lower: Seq<Seq<char>>,
    cpu: Seq<u64>,
    i: int,
    j: int,
    k: int,
)
    ensures
        !row_before(col, asc, procs, lower, cpu, i, i),
        i != j ==> (row_before(col, asc, procs, lower, cpu, i, j) <==> !row_before(
            col,
            asc,
            procs,
            lower,
            cpu,
            j,
            i,
        )),
        row_before(col, asc, procs, lower, cpu, i, j) && row_before(col, asc, procs, lower, cpu, j, k)
            ==> row_before(col, asc, procs, lower, cpu, i, k),
{
    let (a, b, c) = (procs[i], procs[j], procs[k]);
    let (la, lb, lc) = (lower[i], lower[j], lower[k]);
    let (ca, cb, cc) = (cpu[i], cpu[j], cpu[k]);
    lemma_row_order(col, a, b, c, la, lb, lc, ca, cb, cc);
    lemma_row_order(col, b, c, a, lb, lc, la, cb, cc, ca);
    lemma_row_order(col, c, a, b, lc, la, lb, cc, ca, cb);
    lemma_row_order(col, a, c, b, la, lc, lb, ca, cc, cb);
    lemma_row_order(col, c, b, a, lc, lb, la, cc, cb, ca);
    lemma_row_order(col, b, a, c, lb, la, lc, cb, ca, cc);
    lemma_row_order(col, a, a, a, la, la, la, ca, ca, ca);
}

/// Lexicographic comparison of two character vectors.
fn lex_compare(a: &Vec<char>, b: &Vec<char>) -> (r: i8)
    ensures
        r as int == lex_order(a@, b@),
{
    let mut i: usize = 0;
    assert(a@.skip(0) =~= a@);
    assert(b@.skip(0) =~= b@);
    while i < a.len() && i < b.len()
        invariant
            i <= a@.len(),
            i <= b@.len(),
            lex_order(a@, b@) == lex_order(a@.skip(i as int), b@.skip(i as int)),
        decreases a@.len() - i,
    {
        let x = a[i] as u32;
        let y = b[i] as u32;
        assert(a@.skip(i as int)[0] == a@[i as int]);
        assert(b@.skip(i as int)[0] == b@[i as int]);
        if x < y {
            return -1;
        }
        if x > y {
            return 1;
        }
        proof {
            vstd::utf8::char_u32_cast(a@[i as int], x);
            vstd::utf8::char_u32_cast(b@[i as int], y);
        }
        assert(a@.skip(i as int).drop_first() =~= a@.skip(i + 1));
        assert(b@.skip(i as int).drop_first() =~= b@.skip(i + 1));
        i = i + 1;
    }
    if i < a.len() {
        1
    } else if i < b.len() {
        -1
    } else {
        0
    }
}

fn order_u64(a: u64, b: u64) -> (r: i8)
    ensures
        r as int == order_int(a as int, b as int),
{
    if a < b {
        -1
    } else if a > b {
        1
    } else {
        0
    }
}

/// Whether row `i` comes before row `j`, computed.
fn row_before_exec(
    procs: &Vec<ProcInfo>,
    lower: &Vec<Vec<char>>,
    cpu: &Vec<u64>,
    col: SortCol,
    asc: bool,
    i: usize,
    j: usize,
) -> (r: bool)
    requires
        i < procs@.len(),
        j < procs@.len(),
        lower@.len() == procs@.len(),
        cpu@.len() == procs@.len(),
    ensures
        r == row_before(col, asc, procs@, views(lower@), cpu@, i as int, j as int),
{
    let a = &procs[i];
    let b = &procs[j];
    let o = match col {
        SortCol::Pid => order_u64(a.pid as u64, b.pid as u64),
        SortCol::Name => lex_compare(&lower[i], &lower[j]),
        SortCol::Ram => order_u64(a.rss_kb, b.rss_kb),
        SortCol::Cpu => order_u64(cpu[i], cpu[j]),
        SortCol::VmSize => order_u64(a.vmsize_kb, b.vmsize_kb),
        SortCol::State => order_u64(a.state as u32 as u64, b.state as u32 as u64),
    };
    assert(views(lower@)[i as int] == lower@[i as int]@);
    assert(views(lower@)[j as int] == lower@[j as int]@);
    if asc {
        o < 0 || (o == 0 && i < j)
    } else {
        o > 0 || (o == 0 && i < j)
    }
}

/// The rows to show for the query `query`, in the order to show them,
/// given each row's process, lowercased name and CPU figure: the positions
/// of every listed row, each once, ordered by column `col` in direction
/// `asc`, equals in their order in the table.
pub fn list_rows(
    procs: &Vec<ProcInfo>,
    lower: &Vec<Vec<char>>,
    cpu: &Vec<u64>,
    query: &[char],
    col: SortCol,
    asc: bool,
) -> (r: Vec<usize>)
    requires
        lower@.len() == procs@.len(),
        cpu@.len() == procs@.len(),
    ensures
        forall|k: int|
            0 <= k < r@.len() ==> r@[k] < procs@.len() && listed_row(
                query@,
                views(lower@)[#[trigger] r@[k] as int],
                procs@[r@[k] as int].pid,
            ),
        forall|i: int|
            0 <= i < procs@.len() && listed_row(query@, #[trigger] views(lower@)[i], procs@[i].pid)
                ==> r@.contains(i as usize),
        forall|a: int, b: int|
            0 <= a < b < r@.len() ==> row_before(
                col,
                asc,
                procs@,
                views(lower@),
                cpu@,
                #[trigger] r@[a] as int,
                #[trigger] r@[b] as int,
            ),
{
    let n = procs.len();
    let ghost lv = views(lower@);
    let mut r: Vec<usize> = Vec::new();
    let mut i: usize = 0;
    while i < n
        invariant
            n == procs@.len(),
            i <= n,
            lower@.len() == n,
            cpu@.len() == n,
            lv == views(lower@),
            forall|k: int|
                0 <= k < r@.len() ==> #[trigger] r@[k] < i && listed_row(
                    query@,
                    lv[r@[k] as int],
                    procs@[r@[k] as int].pid,
                ),
            forall|j: int|
                0 <= j < i && listed_row(query@, #[trigger] lv[j], procs@[j].pid) ==> r@.contains(
                    j as usize,
                ),
            forall|a: int, b: int|
                0 <= a < b < r@.len() ==> row_before(
                    col,
                    asc,
                    procs@,
                    lv,
                    cpu@,
                    #[trigger] r@[a] as int,
                    #[trigger] r@[b] as int,
                ),
        decreases n - i,
    {
        let p = &procs[i];
        assert(lv[i as int] == lower@[i as int]@);
        let show = query.len() == 0 || contains_chars(&lower[i], query) || contains_chars(
            &decimal_chars(p.pid as u128),
            query,
        );
        if show {
            let mut pos: usize = 0;
            while pos < r.len() && !row_before_exec(procs, lower, cpu, col, asc, i, r[pos])
                invariant
                    n == procs@.len(),
                    i < n,
                    pos <= r@.len(),
                    lower@.len() == n,
                    cpu@.len() == n,
                    lv == views(lower@),
                    forall|k: int| 0 <= k < r@.len() ==> #[trigger] r@[k] < i,
                    forall|k: int|
                        0 <= k < pos ==> row_before(
                            col,
                            asc,
                            procs@,
                            lv,
                            cpu@,
                            #[trigger] r@[k] as int,
                            i as int,
                        ),
                decreases r@.len() - pos,
            {
                proof {
                    lemma_row_before(col, asc, procs@, lv, cpu@, i as int, r@[pos as int] as int, i as int);
                }
                pos = pos + 1;
            }
            let ghost before = r@;
            r.insert(pos, i);
            proof {
                assert(r@ == before.insert(pos as int, i));
                assert forall|a: int, b: int| 0 <= a < b < r@.len() implies row_before(
                    col,
                    asc,
                    procs@,
                    lv,
                    cpu@,
                    #[trigger] r@[a] as int,
                    #[trigger] r@[b] as int,
                ) by {
                    if b < pos {
                    } else if b == pos {
                    } else if a < pos {
                        assert(r@[b] == before[b - 1]);
                    } else if a == pos {
                        assert(r@[b] == before[b - 1]);
                        if b - 1 > pos {
                            assert(row_before(col, asc, procs@, lv, cpu@, before[pos as int] as int, before[b - 1] as int));
                            lemma_row_before(col, asc, procs@, lv, cpu@, i as int, before[pos as int] as int, before[b - 1] as int);
                        }
                    } else {
                        assert(r@[b] == before[b - 1]);
                        assert(r@[a] == before[a - 1]);
                    }
                }
                assert forall|j: int|
                    0 <= j < i + 1 && listed_row(query@, #[trigger] lv[j], procs@[j].pid) implies r@.contains(
                    j as usize,
                ) by {
                    if j < i {
                        let k = choose|k: int| 0 <= k < before.len() && before[k] == j as usize;
                        if k < pos {
                            assert(r@[k] == j as usize);
                        } else {
                            assert(r@[k + 1] == j as usize);
                        }
                    } else {
                        assert(r@[pos as int] == i);
                    }
                }
                assert forall|k: int| 0 <= k < r@.len() implies #[trigger] r@[k] < i + 1 && listed_row(
                    query@,
                    lv[r@[k] as int],
                    procs@[r@[k] as int].pid,
                ) by {
                    if k < pos {
                    } else if k > pos {
                        assert(r@[k] == before[k - 1]);
                    }
                }
            }
        } else {
            proof {
                assert forall|j: int|
                    0 <= j < i + 1 && listed_row(query@, #[trigger] lv[j], procs@[j].pid) implies r@.contains(
                    j as usize,
                ) by {}
            }
        }
        i = i + 1;
    }
    r
}

/// The table's order in each column: a row that comes before another has,
/// in the chosen direction, a PID, lowercased name (by code point), resident
/// size, CPU ticks, virtual size or state letter no further along. In the
/// modern table with 0 CPUs, every CPU share is equal.
pub proof fn law_table_order_by_column(m: ProcMonitor, i: int, j: int)
    requires
        0 <= i < m.procs@.len(),
        0 <= j < m.procs@.len(),
        comes_before(m, i, j),
    ensures
        ({
            let (a, b) = (m.procs@[i], m.procs@[j]);
            let ta = if m.cpu_ticks@.contains_key(a.pid) {
                m.cpu_ticks@[a.pid]
            } else {
                0
            };
            let tb = if m.cpu_ticks@.contains_key(b.pid) {
                m.cpu_ticks@[b.pid]
            } else {
                0
            };
            match m.sort_col {
                SortCol::Pid => if m.sort_asc {
                    a.pid <= b.pid
                } else {
                    a.pid >= b.pid
                },
                SortCol::Name => if m.sort_asc {
                    lex_order(lowercase(a.name@), lowercase(b.name@)) <= 0
                } else {
                    lex_order(lowercase(a.name@), lowercase(b.name@)) >= 0
                },
                SortCol::Ram => if m.sort_asc {
                    a.rss_kb <= b.rss_kb
                } else {
                    a.rss_kb >= b.rss_kb
                },
                SortCol::Cpu => (m.mode is Full && m.num_cpus == 0) || (if m.sort_asc {
                    ta <= tb
                } else {
                    ta >= tb
                }),
                SortCol::VmSize => if m.sort_asc {
                    a.vmsize_kb <= b.vmsize_kb
                } else {
                    a.vmsize_kb >= b.vmsize_kb
                },
                SortCol::State => if m.sort_asc {
                    (a.state as u32) <= (b.state as u32)
                } else {
                    (a.state as u32) >= (b.state as u32)
                },
            }
        }),
{
    assert(lowered_names(m.procs@)[i] == lowercase(m.procs@[i].name@));
    assert(lowered_names(m.procs@)[j] == lowercase(m.procs@[j].name@));
    assert(cpu_figures(m)[i] == cpu_key(m, m.procs@[i]));
    assert(cpu_figures(m)[j] == cpu_key(m, m.procs@[j]));
    lemma_lex_antisymmetric(lowercase(m.procs@[i].name@), lowercase(m.procs@[j].name@));
}

/// The lexicographic order compares at the first position where the two
/// texts differ, and a proper prefix comes first.
pub proof fn law_lex_order_first_difference(a: Seq<char>, b: Seq<char>, k: int)
    requires
        0 <= k <= a.len(),
        k <= b.len(),
        a.take(k) == b.take(k),
    ensures
        k < a.len() && k < b.len() && (a[k] as u32) < (b[k] as u32) ==> lex_order(a, b) == -1,
        k == a.len() && k < b.len() ==> lex_order(a, b) == -1,
        k == a.len() && k == b.len() ==> lex_order(a, b) == 0,
    decreases k,
{
    if k > 0 {
        assert(a[0] == a.take(k)[0] && b[0] == b.take(k)[0]);
        assert(a.drop_first().take(k - 1) =~= a.take(k).drop_first());
        assert(b.drop_first().take(k - 1) =~= b.take(k).drop_first());
        law_lex_order_first_difference(a.drop_first(), b.drop_first(), k - 1);
        if k < a.len() {
            assert(a.drop_first()[k - 1] == a[k]);
        }
        if k < b.len() {
            assert(b.drop_first()[k - 1] == b[k]);
        }
    }
}

/// The search: a process is listed exactly when the query is empty or
/// occurs in its lowercased name or in its decimal PID, where the query is
/// the lowercased search text, trimmed first in the modern table.
pub proof fn law_search_matches(m: ProcMonitor, i: int, q: Seq<char>)
    requires
        0 <= i < m.procs@.len(),
        q == match m.mode {
            Mode::Lite => lowercase(m.search@),
            Mode::Full => lowercase(trim(m.search@)),
        },
    ensures
        m.is_listed(i) <==> (q.len() == 0 || (exists|s: int|
            0 <= s && s + q.len() <= lowercase(m.procs@[i].name@).len() && #[trigger] lowercase(
                m.procs@[i].name@,
            ).subrange(s, s + q.len()) == q) || (exists|s: int|
            0 <= s && s + q.len() <= decimal(m.procs@[i].pid as nat).len() && #[trigger] decimal(
                m.procs@[i].pid as nat,
            ).subrange(s, s + q.len()) == q)),
{
}

impl ProcMonitor {
    /// Whether process `i` of the table is listed for the current search.
    pub open spec fn is_listed(self, i: int) -> bool {
        listed(query_of(self.mode, self.search@), self.procs@[i])
    }

    /// The positions in `procs` of the processes to show, in the order to
    /// show them: every process whose lowercased name or PID contains the
    /// query (all of them when it is empty), each once, ordered by the
    /// chosen column in the chosen direction, equals in their order in
    /// `procs`.
    pub fn filtered_sorted(&self) -> (r: Vec<usize>)
        ensures
            forall|k: int| 0 <= k < r@.len() ==> r@[k] < self.procs@.len() && self.is_listed(
                #[trigger] r@[k] as int,
            ),
            forall|i: int| 0 <= i < self.procs@.len() && self.is_listed(i) ==> r@.contains(
                i as usize,
            ),
            forall|a: int, b: int|
                0 <= a < b < r@.len() ==> comes_before(*self, #[trigger] r@[a] as int, #[trigger] r@[b] as int),
            self.search@.len() == 0 ==> forall|i: usize|
                i < self.procs@.len() ==> #[trigger] r@.contains(i),
            self.mode is Full && trim(self.search@).len() == 0 ==> forall|i: usize|
                i < self.procs@.len() ==> #[trigger] r@.contains(i),
    {
        let q = match self.mode {
            Mode::Lite => to_lowercase(self.search.as_str()),
            Mode::Full => {
                let cs = chars_of(self.search.as_str());
                let t = string_of(&trim_chars(&cs));
                to_lowercase(t.as_str())
            },
        };
        let qc = chars_of(q.as_str());
        let n = self.procs.len();
        let mut lower: Vec<Vec<char>> = Vec::new();
        let mut cpu: Vec<u64> = Vec::new();
        let mut i: usize = 0;
        while i < n
            invariant
                n == self.procs@.len(),
                i <= n,
                lower@.len() == i,
                cpu@.len() == i,
                forall|k: int| 0 <= k < i ==> #[trigger] lower@[k]@ == lowercase(self.procs@[k].name@),
                forall|k: int| 0 <= k < i ==> #[trigger] cpu@[k] == cpu_key(*self, self.procs@[k]),
            decreases n - i,
        {
            let p = &self.procs[i];
            let l = to_lowercase(p.name.as_str());
            lower.push(chars_of(l.as_str()));
            let c = match self.mode {
                Mode::Full => if self.num_cpus == 0 {
                    0
                } else {
                    self.cpu_ticks_of(p.pid)
                },
                Mode::Lite => self.cpu_ticks_of(p.pid),
            };
            cpu.push(c);
            i = i + 1;
        }
        assert(views(lower@) =~= lowered_names(self.procs@));
        assert(cpu@ =~= cpu_figures(*self));
        let r = list_rows(&self.procs, &lower, &cpu, &qc, self.sort_col, self.sort_asc);
        proof {
            let lv = views(lower@);
            assert forall|i: int| 0 <= i < self.procs@.len() implies #[trigger] self.is_listed(i)
                == listed_row(qc@, lv[i], self.procs@[i].pid) by {}
            if qc@.len() == 0 {
                assert forall|j: usize| j < self.procs@.len() implies #[trigger] r@.contains(j) by {
                    assert(listed_row(qc@, lv[j as int], self.procs@[j as int].pid));
                }
            }
            if self.search@.len() == 0 {
                assert(trim(self.search@) =~= self.search@);
            }
        }
        r
    }
}

} // verus!
