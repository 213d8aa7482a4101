//! Finalisation of the accumulator into a report: filtering, then ordering
//! by descending peak.

use crate::filter::{apply_filter, excluded_by, kept_by, pass_flags, peak_sum, regex_compiles, saturate, FilterError};
use crate::types::{distinct_pids, elapsed_between, FilterConfig, JobProfile, JobState, ProcessStats};
use vstd::prelude::*;

verus! {

broadcast use vstd::seq_lib::group_to_multiset_ensures;

/// `a` comes before `b` in a report: a larger peak first, equal peaks by
/// ascending pid.
pub open spec fn ranks_before(a: ProcessStats, b: ProcessStats) -> bool {
    a.max_rss_kib > b.max_rss_kib || (a.max_rss_kib == b.max_rss_kib && a.pid < b.pid)
}

/// Each entry of `s` ranks before every entry that follows it.
pub open spec fn sorted_by_peak(s: Seq<ProcessStats>) -> bool {
    forall|i: int, j: int| 0 <= i < j < s.len() ==> ranks_before(#[trigger] s[i], #[trigger] s[j])
}

proof fn lemma_kept_within(s: Seq<ProcessStats>, keep: Seq<bool>, e: ProcessStats)
    requires
        keep.len() >= s.len(),
        kept_by(s, keep).contains(e),
    ensures
        s.contains(e),
    decreases s.len(),
{
    if s.len() > 0 {
        let prev = kept_by(s.drop_last(), keep);
        if prev.contains(e) {
            lemma_kept_within(s.drop_last(), keep, e);
            let k = choose|k: int| 0 <= k < s.len() - 1 && s.drop_last()[k] == e;
            assert(s[k] == e);
        } else {
            assert(s[s.len() - 1] == e);
        }
    }
}

/// Keeping a subsequence keeps pids distinct.
proof fn lemma_kept_distinct(s: Seq<ProcessStats>, keep: Seq<bool>)
    requires
        keep.len() >= s.len(),
        distinct_pids(s),
    ensures
        distinct_pids(kept_by(s, keep)),
    decreases s.len(),
{
    if s.len() > 0 {
        let d = s.drop_last();
        assert(distinct_pids(d)) by {
            assert forall|i: int, j: int| 0 <= i < d.len() && 0 <= j < d.len() && i != j implies #[trigger] d[i].pid
                != #[trigger] d[j].pid by {
                assert(s[i].pid != s[j].pid);
            }
        }
        lemma_kept_distinct(d, keep);
        let prev = kept_by(d, keep);
        if keep[s.len() - 1] {
            let k = prev.push(s.last());
            assert forall|i: int, j: int| 0 <= i < k.len() && 0 <= j < k.len() && i != j implies #[trigger] k[i].pid
                != #[trigger] k[j].pid by {
                if i < prev.len() && j < prev.len() {
                    assert(prev[i].pid != prev[j].pid);
                } else {
                    let m = if i < prev.len() { i } else { j };
                    assert(prev.contains(prev[m]));
                    lemma_kept_within(d, keep, prev[m]);
                    let q = choose|q: int| 0 <= q < d.len() && d[q] == prev[m];
                    assert(s[q].pid != s[s.len() - 1].pid);
                }
            }
        }
    }
}

fn rank_before(a: &ProcessStats, b: &ProcessStats) -> (r: bool)
    ensures
        r == ranks_before(*a, *b),
{
    a.max_rss_kib > b.max_rss_kib || (a.max_rss_kib == b.max_rss_kib && a.pid < b.pid)
}

/// Orders `v`, whose pids are distinct, by descending peak, equal peaks by
/// ascending pid.
pub fn sort_by_peak(v: Vec<ProcessStats>) -> (r: Vec<ProcessStats>)
    requires
        distinct_pids(v@),
    ensures
        sorted_by_peak(r@),
        distinct_pids(r@),
        r@.to_multiset() == v@.to_multiset(),
{
    let ghost all = v@;
    let n = v.len();
    let mut rest = v;
    let mut out: Vec<ProcessStats> = Vec::new();
    let mut i: usize = 0;
    while i < n
        invariant
            n == all.len(),
            distinct_pids(all),
            i <= n,
            rest@ == all.skip(i as int),
            sorted_by_peak(out@),
            distinct_pids(out@),
            out@.to_multiset() == all.take(i as int).to_multiset(),
        decreases n - i,
    {
        let x = rest.remove(0);
        let mut j: usize = 0;
        while j < out.len() && !rank_before(&x, &out[j])
            invariant
                j <= out@.len(),
                forall|k: int| 0 <= k < j ==> !ranks_before(x, #[trigger] out@[k]),
            decreases out@.len() - j,
        {
            j = j + 1;
        }
        let ghost before = out@;
        out.insert(j, x);
        proof {
            assert(x == all[i as int]);
            assert(all.take(i + 1) == all.take(i as int).push(x));
            assert forall|k: int| 0 <= k < before.len() implies #[trigger] before[k].pid != x.pid by {
                assert(before.to_multiset().count(before[k]) > 0);
                assert(all.take(i as int).contains(before[k]));
                let m = choose|m: int| 0 <= m < i && all.take(i as int)[m] == before[k];
                assert(all[m].pid != all[i as int].pid);
            }
            assert forall|k: int| 0 <= k < j implies ranks_before(#[trigger] before[k], x) by {
                assert(before[k].pid != x.pid);
                assert(!ranks_before(x, before[k]));
            }
            assert forall|a: int, b: int|
                0 <= a < out@.len() && 0 <= b < out@.len() && a != b implies #[trigger] out@[a].pid
                != #[trigger] out@[b].pid by {
                let ia = if a < j { a } else if a == j { -1 } else { a - 1 };
                let ib = if b < j { b } else if b == j { -1 } else { b - 1 };
                if ia >= 0 && ib >= 0 {
                    assert(before[ia].pid != before[ib].pid);
                } else if ia >= 0 {
                    assert(before[ia].pid != x.pid);
                } else {
                    assert(before[ib].pid != x.pid);
                }
            }
            assert forall|a: int, b: int| 0 <= a < b < out@.len() implies ranks_before(
                #[trigger] out@[a],
                #[trigger] out@[b],
            ) by {
                if b < j {
                    assert(ranks_before(before[a], before[b]));
                } else if b == j {
                    assert(ranks_before(before[a], x));
                } else if a == j {
                    assert(ranks_before(x, before[j as int]));
                    if b - 1 > j {
                        assert(ranks_before(before[j as int], before[b - 1]));
                    }
                } else if a < j {
                    assert(ranks_before(before[a], before[b - 1]));
                } else {
                    assert(ranks_before(before[a - 1], before[b - 1]));
                }
            }
        }
        i = i + 1;
        proof {
            assert(rest@ == all.skip(i as int));
        }
    }
    proof {
        assert(all.take(n as int) == all);
    }
    out
}

/// The view of an optional string.
pub open spec fn opt_view(o: &Option<String>) -> Option<Seq<char>> {
    match o {
        Some(s) => Some(s@),
        None => None,
    }
}

impl JobState {
    /// The report of the job, finished at `end_time`. With no pattern, every
    /// process is reported and no filter is recorded. With a pattern, fails
    /// as `apply_filter` does on a pattern that does not compile, and
    /// otherwise reports the processes that pass, recording the patterns and
    /// the number and summed peaks of those left out. The reported processes
    /// come by descending peak, equal peaks by ascending pid.
    pub fn into_profile(
        self,
        command: Vec<String>,
        interval_ms: u64,
        exit_code: Option<i32>,
        exclude_pattern: Option<String>,
        include_pattern: Option<String>,
        end_time: i64,
    ) -> (r: Result<JobProfile, FilterError>)
        requires
            self.wf(),
        ensures
            r is Err <==> (exclude_pattern is Some && !regex_compiles(exclude_pattern->Some_0@))
                || (include_pattern is Some && !regex_compiles(include_pattern->Some_0@)),
            r matches Err(FilterError::InvalidExclude(p)) <==> exclude_pattern is Some && !regex_compiles(
                exclude_pattern->Some_0@,
            ),
            r matches Err(FilterError::InvalidExclude(p)) ==> p@ == exclude_pattern->Some_0@,
            r matches Err(FilterError::InvalidInclude(p)) ==> p@ == include_pattern->Some_0@,
            r is Ok ==> ({
                let p = r->Ok_0;
                let flags = pass_flags(
                    self.process_stats@,
                    match include_pattern { Some(s) => Some(s@), None => None },
                    match exclude_pattern { Some(s) => Some(s@), None => None },
                );
                let filtered = exclude_pattern is Some || include_pattern is Some;
                &&& p.command == command
                &&& p.start_time == self.start_time
                &&& p.end_time == end_time
                &&& p.duration_ms == elapsed_between(self.start_time, end_time)
                &&& p.interval_ms == interval_ms
                &&& p.max_total_rss_kib == self.max_total_rss_kib
                &&& p.samples == self.samples
                &&& p.timeline == self.timeline
                &&& p.exit_code == exit_code
                &&& sorted_by_peak(p.processes@)
                &&& distinct_pids(p.processes@)
                &&& !filtered ==> {
                    &&& p.processes@.to_multiset() == self.process_stats@.to_multiset()
                    &&& p.filter is None
                    &&& p.filtered_process_count is None
                    &&& p.filtered_total_rss_kib is None
                }
                &&& filtered ==> {
                    &&& p.processes@.to_multiset() == kept_by(self.process_stats@, flags).to_multiset()
                    &&& p.filter == Some(FilterConfig { exclude_pattern, include_pattern })
                    &&& p.filtered_process_count == Some(excluded_by(self.process_stats@, flags).len() as usize)
                    &&& p.filtered_total_rss_kib == Some(saturate(peak_sum(excluded_by(self.process_stats@, flags))))
                }
            }),
    {
        let duration_ms = if end_time as i128 - self.start_time as i128 > i64::MAX as i128 {
            i64::MAX
        } else if end_time as i128 - self.start_time as i128 <= i64::MIN as i128 {
            i64::MIN
        } else {
            end_time - self.start_time
        };
        let ghost stats = self.process_stats@;
        let ghost flags = pass_flags(stats, opt_view(&include_pattern), opt_view(&exclude_pattern));
        let filtered = exclude_pattern.is_some() || include_pattern.is_some();
        let (processes, filter, filtered_process_count, filtered_total_rss_kib) = if filtered {
            let outcome = apply_filter(
                self.process_stats,
                match &exclude_pattern {
                    Some(s) => Some(s.as_str()),
                    None => None,
                },
                match &include_pattern {
                    Some(s) => Some(s.as_str()),
                    None => None,
                },
            );
            match outcome {
                Ok(o) => {
                    proof {
                        lemma_kept_distinct(stats, flags);
                    }
                    (
                        sort_by_peak(o.kept),
                        Some(FilterConfig { exclude_pattern, include_pattern }),
                        Some(o.excluded_count),
                        Some(o.excluded_total_kib),
                    )
                },
                Err(e) => {
                    return Err(e);
                },
            }
        } else {
            (sort_by_peak(self.process_stats), None, None, None)
        };
        Ok(
            JobProfile {
                command,
                start_time: self.start_time,
                end_time,
                duration_ms,
                interval_ms,
                max_total_rss_kib: self.max_total_rss_kib,
                samples: self.samples,
                processes,
                timeline: self.timeline,
                exit_code,
                filter,
                filtered_process_count,
                filtered_total_rss_kib,
            },
        )
    }
}

} // verus!
