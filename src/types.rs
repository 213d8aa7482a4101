//! The data model: samples, per-process statistics, the live accumulator and
//! the finished profile. Instants are milliseconds since the Unix epoch.

use vstd::prelude::*;

verus! {

/// Optional include/exclude regular expressions matched against commands.
#[derive(Debug, Clone)]
pub struct FilterConfig {
    pub exclude_pattern: Option<String>,
    pub include_pattern: Option<String>,
}

/// One process at one instant, as read from the process table.
#[derive(Debug, Clone)]
pub struct ProcessSample {
    pub pid: i32,
    pub ppid: i32,
    pub rss_kib: u64,
    pub command: String,
}

/// What is known of one process over the whole job.
#[derive(Debug, Clone)]
pub struct ProcessStats {
    pub pid: i32,
    pub ppid: i32,
    pub command: String,
    pub max_rss_kib: u64,
    pub first_seen: i64,
    pub last_seen: i64,
    pub peak_time: i64,
}

/// One point of the job's memory time series.
#[derive(Debug, Clone)]
pub struct TimelinePoint {
    pub timestamp: i64,
    pub elapsed_ms: i64,
    pub total_rss_kib: u64,
    pub process_count: usize,
}

/// The finished report of one run.
#[derive(Debug, Clone)]
pub struct JobProfile {
    pub command: Vec<String>,
    pub start_time: i64,
    pub end_time: i64,
    pub duration_ms: i64,
    pub interval_ms: u64,
    pub max_total_rss_kib: u64,
    pub samples: usize,
    pub processes: Vec<ProcessStats>,
    pub timeline: Option<Vec<TimelinePoint>>,
    pub exit_code: Option<i32>,
    pub filter: Option<FilterConfig>,
    pub filtered_process_count: Option<usize>,
    pub filtered_total_rss_kib: Option<u64>,
}

/// The processes of the job at one instant.
#[derive(Debug, Clone)]
pub struct JobSnapshot {
    pub timestamp: i64,
    pub total_rss_kib: u64,
    pub processes: Vec<ProcessSample>,
}

/// The accumulator that successive snapshots are folded into.
#[derive(Debug, Clone)]
pub struct JobState {
    pub start_time: i64,
    pub max_total_rss_kib: u64,
    pub samples: usize,
    pub process_stats: Vec<ProcessStats>,
    pub timeline: Option<Vec<TimelinePoint>>,
}

/// The statistics of `stats` keyed by pid; a later entry hides an earlier one.
pub open spec fn stats_map(stats: Seq<ProcessStats>) -> Map<i32, ProcessStats>
    decreases stats.len(),
{
    if stats.len() == 0 {
        Map::empty()
    } else {
        stats_map(stats.drop_last()).insert(stats.last().pid, stats.last())
    }
}

/// No two entries of `stats` share a pid.
pub open spec fn distinct_pids(stats: Seq<ProcessStats>) -> bool {
    forall|i: int, j: int|
        0 <= i < stats.len() && 0 <= j < stats.len() && i != j ==> #[trigger] stats[i].pid
            != #[trigger] stats[j].pid
}

/// The statistics of a process first seen in `s` at instant `t`.
pub open spec fn fresh_stats(s: ProcessSample, t: i64) -> ProcessStats {
    ProcessStats {
        pid: s.pid,
        ppid: s.ppid,
        command: s.command,
        max_rss_kib: s.rss_kib,
        first_seen: t,
        last_seen: t,
        peak_time: t,
    }
}

/// `e` after observing `rss_kib` at instant `t`: the peak only rises, and its
/// instant moves only when it strictly rises.
pub open spec fn observe(e: ProcessStats, rss_kib: u64, t: i64) -> ProcessStats {
    if rss_kib > e.max_rss_kib {
        ProcessStats { max_rss_kib: rss_kib, peak_time: t, last_seen: t, ..e }
    } else {
        ProcessStats { last_seen: t, ..e }
    }
}

/// The statistics after folding one record observed at instant `t`.
pub open spec fn fold_sample(m: Map<i32, ProcessStats>, s: ProcessSample, t: i64) -> Map<i32, ProcessStats> {
    if m.contains_key(s.pid) {
        m.insert(s.pid, observe(m[s.pid], s.rss_kib, t))
    } else {
        m.insert(s.pid, fresh_stats(s, t))
    }
}

/// The statistics after folding the records of `recs`, in order, at instant `t`.
pub open spec fn fold_samples(m: Map<i32, ProcessStats>, recs: Seq<ProcessSample>, t: i64) -> Map<i32, ProcessStats>
    decreases recs.len(),
{
    if recs.len() == 0 {
        m
    } else {
        fold_sample(fold_samples(m, recs.drop_last(), t), recs.last(), t)
    }
}

/// The statistics after folding the snapshots of `snaps`, in order.
pub open spec fn fold_snapshots(m: Map<i32, ProcessStats>, snaps: Seq<JobSnapshot>) -> Map<i32, ProcessStats>
    decreases snaps.len(),
{
    if snaps.len() == 0 {
        m
    } else {
        let prev = fold_snapshots(m, snaps.drop_last());
        fold_samples(prev, snaps.last().processes@, snaps.last().timestamp)
    }
}

/// The instant `t` as an offset from `start`, clamped to the range of `i64`.
pub open spec fn elapsed_between(start: i64, t: i64) -> i64 {
    if t - start > i64::MAX {
        i64::MAX
    } else if t - start < i64::MIN {
        i64::MIN
    } else {
        (t - start) as i64
    }
}

/// The timeline point that a snapshot adds to a job started at `start`.
pub open spec fn timeline_point(start: i64, snap: JobSnapshot) -> TimelinePoint {
    TimelinePoint {
        timestamp: snap.timestamp,
        elapsed_ms: elapsed_between(start, snap.timestamp),
        total_rss_kib: snap.total_rss_kib,
        process_count: snap.processes@.len() as usize,
    }
}

proof fn lemma_stats_map_lookup(stats: Seq<ProcessStats>, i: int)
    requires
        distinct_pids(stats),
        0 <= i < stats.len(),
    ensures
        stats_map(stats).contains_key(stats[i].pid),
        stats_map(stats)[stats[i].pid] == stats[i],
    decreases stats.len(),
{
    if i < stats.len() - 1 {
        lemma_stats_map_lookup(stats.drop_last(), i);
    }
}

proof fn lemma_stats_map_domain(stats: Seq<ProcessStats>, pid: i32)
    ensures
        stats_map(stats).contains_key(pid) <==> exists|i: int| 0 <= i < stats.len() && stats[i].pid == pid,
    decreases stats.len(),
{
    if stats.len() > 0 {
        lemma_stats_map_domain(stats.drop_last(), pid);
        if stats_map(stats.drop_last()).contains_key(pid) {
            let i = choose|i: int| 0 <= i < stats.len() - 1 && stats.drop_last()[i].pid == pid;
            assert(stats[i].pid == pid);
        }
        if exists|i: int| 0 <= i < stats.len() && stats[i].pid == pid {
            let i = choose|i: int| 0 <= i < stats.len() && stats[i].pid == pid;
            if i < stats.len() - 1 {
                assert(stats.drop_last()[i].pid == pid);
            }
        }
    }
}

proof fn lemma_stats_map_update(stats: Seq<ProcessStats>, i: int, e: ProcessStats)
    requires
        distinct_pids(stats),
        0 <= i < stats.len(),
        e.pid == stats[i].pid,
    ensures
        distinct_pids(stats.update(i, e)),
        stats_map(stats.update(i, e)) == stats_map(stats).insert(e.pid, e),
    decreases stats.len(),
{
    let u = stats.update(i, e);
    assert forall|a: int, b: int| 0 <= a < u.len() && 0 <= b < u.len() && a != b implies #[trigger] u[a].pid
        != #[trigger] u[b].pid by {
        assert(u[a].pid == stats[a].pid && u[b].pid == stats[b].pid);
    }
    if i == stats.len() - 1 {
        assert(u.drop_last() == stats.drop_last());
    } else {
        lemma_stats_map_update(stats.drop_last(), i, e);
        assert(u.drop_last() == stats.drop_last().update(i, e));
        assert(stats.last().pid != e.pid);
        assert(stats_map(u) =~= stats_map(stats).insert(e.pid, e));
    }
}

/// The instant `t` as an offset in milliseconds from `start`, clamped to the
/// range of `i64`.
fn elapsed_ms(start: i64, t: i64) -> (r: i64)
    ensures
        r == elapsed_between(start, t),
{
    let d: i128 = t as i128 - start as i128;
    if d > i64::MAX as i128 {
        i64::MAX
    } else if d < i64::MIN as i128 {
        i64::MIN
    } else {
        d as i64
    }
}

impl JobState {
    /// The accumulator keeps one entry per pid.
    pub open spec fn wf(&self) -> bool {
        distinct_pids(self.process_stats@)
    }

    /// The per-process statistics keyed by pid.
    pub open spec fn stats(&self) -> Map<i32, ProcessStats> {
        stats_map(self.process_stats@)
    }

    /// An empty accumulator for a job that started at `start_time`; it keeps a
    /// timeline exactly when `track_timeline` is set.
    pub fn new(track_timeline: bool, start_time: i64) -> (s: Self)
        ensures
            s.wf(),
            s.start_time == start_time,
            s.max_total_rss_kib == 0,
            s.samples == 0,
            s.process_stats@.len() == 0,
            s.stats() == Map::<i32, ProcessStats>::empty(),
            s.timeline is Some == track_timeline,
            track_timeline ==> s.timeline->Some_0@.len() == 0,
    {
        JobState {
            start_time,
            max_total_rss_kib: 0,
            samples: 0,
            process_stats: Vec::new(),
            timeline: if track_timeline {
                Some(Vec::new())
            } else {
                None
            },
        }
    }

    /// The index of the entry for `pid`, if there is one.
    fn position_of(&self, pid: i32) -> (r: Option<usize>)
        requires
            self.wf(),
        ensures
            r is Some ==> r->Some_0 < self.process_stats@.len() && self.process_stats@[r->Some_0 as int].pid == pid,
            r is None <==> !self.stats().contains_key(pid),
    {
        let mut i: usize = 0;
        while i < self.process_stats.len()
            invariant
                i <= self.process_stats@.len(),
                forall|j: int| 0 <= j < i ==> self.process_stats@[j].pid != pid,
            decreases self.process_stats@.len() - i,
        {
            if self.process_stats[i].pid == pid {
                proof {
                    lemma_stats_map_domain(self.process_stats@, pid);
                }
                return Some(i);
            }
            i = i + 1;
        }
        proof {
            lemma_stats_map_domain(self.process_stats@, pid);
        }
        None
    }

    /// Folds one record observed at instant `t` into the statistics.
    fn observe_sample(&mut self, s: &ProcessSample, t: i64)
        requires
            old(self).wf(),
        ensures
            final(self).wf(),
            final(self).stats() == fold_sample(old(self).stats(), *s, t),
            final(self).start_time == old(self).start_time,
            final(self).max_total_rss_kib == old(self).max_total_rss_kib,
            final(self).samples == old(self).samples,
            final(self).timeline == old(self).timeline,
    {
        match self.position_of(s.pid) {
            Some(i) => {
                proof {
                    lemma_stats_map_lookup(self.process_stats@, i as int);
                }
                let ghost before = self.process_stats@;
                if s.rss_kib > self.process_stats[i].max_rss_kib {
                    self.process_stats[i].max_rss_kib = s.rss_kib;
                    self.process_stats[i].peak_time = t;
                }
                self.process_stats[i].last_seen = t;
                proof {
                    assert(self.process_stats@ == before.update(i as int, observe(before[i as int], s.rss_kib, t)));
                    lemma_stats_map_update(before, i as int, observe(before[i as int], s.rss_kib, t));
                }
            },
            None => {
                let ghost before = self.process_stats@;
                let e = ProcessStats {
                    pid: s.pid,
                    ppid: s.ppid,
                    command: s.command.clone(),
                    max_rss_kib: s.rss_kib,
                    first_seen: t,
                    last_seen: t,
                    peak_time: t,
                };
                self.process_stats.push(e);
                proof {
                    assert(self.process_stats@.drop_last() == before);
                    lemma_stats_map_domain(before, s.pid);
                    assert forall|a: int, b: int|
                        0 <= a < self.process_stats@.len() && 0 <= b < self.process_stats@.len() && a
                            != b implies #[trigger] self.process_stats@[a].pid
                        != #[trigger] self.process_stats@[b].pid by {
                        if a < before.len() && b < before.len() {
                            assert(before[a].pid != before[b].pid);
                        } else if a < before.len() {
                            assert(before[a].pid != s.pid);
                        } else {
                            assert(before[b].pid != s.pid);
                        }
                    }
                }
            },
        }
    }

    /// Folds one snapshot into the accumulator: one more sample, the job-wide
    /// peak raised to the snapshot's total, every record of the snapshot
    /// folded in order into the per-process statistics, and a timeline point
    /// appended when a timeline is kept.
    pub fn update(&mut self, snapshot: JobSnapshot)
        requires
            old(self).wf(),
            old(self).samples < usize::MAX,
        ensures
            final(self).wf(),
            final(self).start_time == old(self).start_time,
            final(self).samples == old(self).samples + 1,
            final(self).max_total_rss_kib == if snapshot.total_rss_kib > old(self).max_total_rss_kib {
                snapshot.total_rss_kib
            } else {
                old(self).max_total_rss_kib
            },
            final(self).stats() == fold_samples(old(self).stats(), snapshot.processes@, snapshot.timestamp),
            forall|pid: i32| #[trigger] old(self).stats().contains_key(pid) ==> {
                &&& final(self).stats().contains_key(pid)
                &&& final(self).stats()[pid].max_rss_kib >= old(self).stats()[pid].max_rss_kib
                &&& final(self).stats()[pid].first_seen == old(self).stats()[pid].first_seen
                &&& final(self).stats()[pid].last_seen == old(self).stats()[pid].last_seen
                    || final(self).stats()[pid].last_seen == snapshot.timestamp
            },
            forall|j: int| 0 <= j < snapshot.processes@.len() ==> {
                let p = #[trigger] snapshot.processes@[j];
                &&& final(self).stats().contains_key(p.pid)
                &&& final(self).stats()[p.pid].last_seen == snapshot.timestamp
                &&& final(self).stats()[p.pid].max_rss_kib >= p.rss_kib
                &&& !old(self).stats().contains_key(p.pid) ==> final(self).stats()[p.pid].first_seen
                    == snapshot.timestamp
            },
            final(self).timeline is Some == old(self).timeline is Some,
            old(self).timeline is Some ==> final(self).timeline->Some_0@ == old(self).timeline->Some_0@.push(
                timeline_point(old(self).start_time, snapshot),
            ),
    {
        self.samples = self.samples + 1;
        if snapshot.total_rss_kib > self.max_total_rss_kib {
            self.max_total_rss_kib = snapshot.total_rss_kib;
        }
        let t = snapshot.timestamp;
        let point = TimelinePoint {
            timestamp: t,
            elapsed_ms: elapsed_ms(self.start_time, t),
            total_rss_kib: snapshot.total_rss_kib,
            process_count: snapshot.processes.len(),
        };
        match &mut self.timeline {
            Some(tl) => tl.push(point),
            None => {},
        }
        let ghost start = self.stats();
        let mut i: usize = 0;
        while i < snapshot.processes.len()
            invariant
                i <= snapshot.processes@.len(),
                self.wf(),
                self.stats() == fold_samples(start, snapshot.processes@.take(i as int), t),
                self.start_time == old(self).start_time,
                self.samples == old(self).samples + 1,
                self.max_total_rss_kib == if snapshot.total_rss_kib > old(self).max_total_rss_kib {
                    snapshot.total_rss_kib
                } else {
                    old(self).max_total_rss_kib
                },
                self.timeline is Some == old(self).timeline is Some,
                old(self).timeline is Some ==> self.timeline->Some_0@ == old(self).timeline->Some_0@.push(
                    timeline_point(old(self).start_time, snapshot),
                ),
            decreases snapshot.processes@.len() - i,
        {
            self.observe_sample(&snapshot.processes[i], t);
            proof {
                let recs = snapshot.processes@.take(i + 1);
                assert(recs.drop_last() == snapshot.processes@.take(i as int));
            }
            i = i + 1;
        }
        proof {
            let recs = snapshot.processes@;
            assert(recs.take(i as int) == recs);
            assert forall|pid: i32| #[trigger] start.contains_key(pid) implies {
                &&& self.stats().contains_key(pid)
                &&& self.stats()[pid].max_rss_kib >= start[pid].max_rss_kib
                &&& self.stats()[pid].first_seen == start[pid].first_seen
                &&& self.stats()[pid].last_seen == start[pid].last_seen || self.stats()[pid].last_seen == t
            } by {
                crate::fold_laws::lemma_fold_samples(start, recs, t, pid);
            }
            assert forall|j: int| 0 <= j < recs.len() implies {
                let p = #[trigger] recs[j];
                &&& self.stats().contains_key(p.pid)
                &&& self.stats()[p.pid].last_seen == t
                &&& self.stats()[p.pid].max_rss_kib >= p.rss_kib
                &&& !start.contains_key(p.pid) ==> self.stats()[p.pid].first_seen == t
            } by {
                crate::fold_laws::lemma_fold_samples(start, recs, t, recs[j].pid);
            }
        }
    }
}

} // verus!
