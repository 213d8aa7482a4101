//! What holds of the per-process statistics after any sequence of folds.

use crate::types::{fold_sample, fold_samples, fold_snapshots, JobSnapshot, ProcessSample, ProcessStats};
use vstd::prelude::*;

verus! {

/// Record `j` of snapshot `k` of `snaps` is an observation of `pid`.
pub open spec fn observed_at(snaps: Seq<JobSnapshot>, k: int, j: int, pid: i32) -> bool {
    &&& 0 <= k < snaps.len()
    &&& 0 <= j < snaps[k].processes@.len()
    &&& snaps[k].processes@[j].pid == pid
}

/// The snapshots of `snaps` come in order of time.
pub open spec fn in_time_order(snaps: Seq<JobSnapshot>) -> bool {
    forall|a: int, b: int| 0 <= a <= b < snaps.len() ==> #[trigger] snaps[a].timestamp <= #[trigger] snaps[b].timestamp
}

pub(crate) proof fn lemma_fold_samples(m: Map<i32, ProcessStats>, recs: Seq<ProcessSample>, t: i64, pid: i32)
    ensures
        fold_samples(m, recs, t).contains_key(pid) <==> (m.contains_key(pid) || exists|j: int|
            0 <= j < recs.len() && recs[j].pid == pid),
        m.contains_key(pid) ==> fold_samples(m, recs, t)[pid].first_seen == m[pid].first_seen,
        m.contains_key(pid) ==> fold_samples(m, recs, t)[pid].max_rss_kib >= m[pid].max_rss_kib,
        m.contains_key(pid) ==> fold_samples(m, recs, t)[pid].last_seen == m[pid].last_seen
            || fold_samples(m, recs, t)[pid].last_seen == t,
        !m.contains_key(pid) && fold_samples(m, recs, t).contains_key(pid) ==> fold_samples(m, recs, t)[pid].first_seen
            == t && fold_samples(m, recs, t)[pid].last_seen == t,
        forall|j: int|
            0 <= j < recs.len() && #[trigger] recs[j].pid == pid ==> recs[j].rss_kib <= fold_samples(
                m,
                recs,
                t,
            )[pid].max_rss_kib,
        (exists|j: int| 0 <= j < recs.len() && recs[j].pid == pid) ==> fold_samples(m, recs, t)[pid].last_seen == t,
        fold_samples(m, recs, t).contains_key(pid) ==> (m.contains_key(pid) && fold_samples(m, recs, t)[pid].max_rss_kib
            == m[pid].max_rss_kib) || exists|j: int|
            0 <= j < recs.len() && recs[j].pid == pid && recs[j].rss_kib == fold_samples(m, recs, t)[pid].max_rss_kib,
    decreases recs.len(),
{
    if recs.len() > 0 {
        let prefix = recs.drop_last();
        lemma_fold_samples(m, prefix, t, pid);
        let p = fold_samples(m, prefix, t);
        let r = fold_samples(m, recs, t);
        assert(r == fold_sample(p, recs.last(), t));
        let n = recs.len() - 1;
        if recs.last().pid == pid {
            assert(recs[n].pid == pid);
        }
        if exists|j: int| 0 <= j < recs.len() && recs[j].pid == pid {
            let j = choose|j: int| 0 <= j < recs.len() && recs[j].pid == pid;
            if j < n {
                assert(prefix[j].pid == pid);
            }
        }
        assert forall|j: int| 0 <= j < recs.len() && #[trigger] recs[j].pid == pid implies recs[j].rss_kib
            <= r[pid].max_rss_kib by {
            if j < n {
                assert(prefix[j].pid == pid);
            }
        }
        if exists|j: int| 0 <= j < prefix.len() && prefix[j].pid == pid {
            let j = choose|j: int| 0 <= j < prefix.len() && prefix[j].pid == pid;
            assert(recs[j].pid == pid);
        }
        if r.contains_key(pid) && recs.last().pid == pid && p.contains_key(pid) && r[pid].max_rss_kib
            != p[pid].max_rss_kib {
            assert(recs[n].rss_kib == r[pid].max_rss_kib);
        }
        if r.contains_key(pid) && recs.last().pid == pid && !p.contains_key(pid) {
            assert(recs[n].rss_kib == r[pid].max_rss_kib);
        }
        if r.contains_key(pid) && !(m.contains_key(pid) && p[pid].max_rss_kib == m[pid].max_rss_kib)
            && p.contains_key(pid) && (recs.last().pid != pid || r[pid].max_rss_kib == p[pid].max_rss_kib) {
            let j = choose|j: int|
                0 <= j < prefix.len() && prefix[j].pid == pid && prefix[j].rss_kib == p[pid].max_rss_kib;
            assert(recs[j].pid == pid && recs[j].rss_kib == r[pid].max_rss_kib);
        }
    }
}

/// Folding further snapshots keeps every tracked pid tracked, never lowers
/// its peak and never moves its first sighting.
pub proof fn lemma_peak_never_falls(snaps: Seq<JobSnapshot>, a: int, b: int, pid: i32)
    requires
        0 <= a <= b <= snaps.len(),
        fold_snapshots(Map::empty(), snaps.take(a)).contains_key(pid),
    ensures
        fold_snapshots(Map::empty(), snaps.take(b)).contains_key(pid),
        fold_snapshots(Map::empty(), snaps.take(a))[pid].max_rss_kib <= fold_snapshots(
            Map::empty(),
            snaps.take(b),
        )[pid].max_rss_kib,
        fold_snapshots(Map::empty(), snaps.take(a))[pid].first_seen == fold_snapshots(
            Map::empty(),
            snaps.take(b),
        )[pid].first_seen,
    decreases b - a,
{
    if b > a {
        lemma_peak_never_falls(snaps, a, b - 1, pid);
        let s = snaps.take(b);
        assert(s.drop_last() == snaps.take(b - 1));
        lemma_fold_samples(fold_snapshots(Map::empty(), snaps.take(b - 1)), s.last().processes@, s.last().timestamp, pid);
    }
}

/// The peak of a pid is the largest resident size ever observed for it: the
/// pid is tracked exactly when it was observed, no observation exceeds its
/// peak, and some observation equals it.
pub proof fn lemma_peak_is_max_observed(snaps: Seq<JobSnapshot>, pid: i32)
    ensures
        ({
            let m = fold_snapshots(Map::empty(), snaps);
            &&& m.contains_key(pid) <==> exists|k: int, j: int| observed_at(snaps, k, j, pid)
            &&& forall|k: int, j: int|
                #[trigger] observed_at(snaps, k, j, pid) ==> snaps[k].processes@[j].rss_kib <= m[pid].max_rss_kib
            &&& m.contains_key(pid) ==> exists|k: int, j: int|
                observed_at(snaps, k, j, pid) && snaps[k].processes@[j].rss_kib == m[pid].max_rss_kib
        }),
    decreases snaps.len(),
{
    if snaps.len() > 0 {
        let prefix = snaps.drop_last();
        lemma_peak_is_max_observed(prefix, pid);
        let p = fold_snapshots(Map::empty(), prefix);
        let last = snaps.last();
        let n = snaps.len() - 1;
        lemma_fold_samples(p, last.processes@, last.timestamp, pid);
        let m = fold_snapshots(Map::empty(), snaps);
        assert forall|k: int, j: int| #[trigger] observed_at(snaps, k, j, pid) implies snaps[k].processes@[j].rss_kib
            <= m[pid].max_rss_kib by {
            if k < n {
                assert(observed_at(prefix, k, j, pid));
            } else {
                assert(last.processes@[j].pid == pid);
            }
        }
        if exists|k: int, j: int| observed_at(prefix, k, j, pid) {
            let (k, j) = choose|k: int, j: int| observed_at(prefix, k, j, pid);
            assert(observed_at(snaps, k, j, pid));
        }
        if exists|j: int| 0 <= j < last.processes@.len() && last.processes@[j].pid == pid {
            let j = choose|j: int| 0 <= j < last.processes@.len() && last.processes@[j].pid == pid;
            assert(observed_at(snaps, n, j, pid));
        }
        if exists|k: int, j: int| observed_at(snaps, k, j, pid) {
            let (k, j) = choose|k: int, j: int| observed_at(snaps, k, j, pid);
            if k < n {
                assert(observed_at(prefix, k, j, pid));
            } else {
                assert(last.processes@[j].pid == pid);
            }
        }
        if m.contains_key(pid) {
            if p.contains_key(pid) && m[pid].max_rss_kib == p[pid].max_rss_kib {
                let (k, j) = choose|k: int, j: int|
                    observed_at(prefix, k, j, pid) && prefix[k].processes@[j].rss_kib == p[pid].max_rss_kib;
                assert(observed_at(snaps, k, j, pid));
            } else {
                let j = choose|j: int|
                    0 <= j < last.processes@.len() && last.processes@[j].pid == pid
                        && last.processes@[j].rss_kib == m[pid].max_rss_kib;
                assert(observed_at(snaps, n, j, pid));
            }
        }
    }
}

proof fn lemma_seen_within(snaps: Seq<JobSnapshot>, pid: i32)
    requires
        in_time_order(snaps),
        fold_snapshots(Map::empty(), snaps).contains_key(pid),
    ensures
        fold_snapshots(Map::empty(), snaps)[pid].first_seen <= fold_snapshots(Map::empty(), snaps)[pid].last_seen,
        fold_snapshots(Map::empty(), snaps)[pid].last_seen <= snaps.last().timestamp,
    decreases snaps.len(),
{
    let prefix = snaps.drop_last();
    let p = fold_snapshots(Map::empty(), prefix);
    let last = snaps.last();
    lemma_fold_samples(p, last.processes@, last.timestamp, pid);
    if p.contains_key(pid) {
        assert(in_time_order(prefix)) by {
            assert forall|a: int, b: int| 0 <= a <= b < prefix.len() implies #[trigger] prefix[a].timestamp
                <= #[trigger] prefix[b].timestamp by {
                assert(snaps[a].timestamp <= snaps[b].timestamp);
            }
        }
        lemma_seen_within(prefix, pid);
        assert(snaps[prefix.len() - 1].timestamp <= snaps[snaps.len() - 1].timestamp);
    }
}

/// With snapshots in order of time, folding further snapshots never moves a
/// pid's last sighting back, never moves its first sighting at all, and keeps
/// the first sighting no later than the last.
pub proof fn lemma_sightings_monotone(snaps: Seq<JobSnapshot>, a: int, b: int, pid: i32)
    requires
        in_time_order(snaps),
        0 <= a <= b <= snaps.len(),
        fold_snapshots(Map::empty(), snaps.take(a)).contains_key(pid),
    ensures
        fold_snapshots(Map::empty(), snaps.take(b)).contains_key(pid),
        fold_snapshots(Map::empty(), snaps.take(a))[pid].last_seen <= fold_snapshots(
            Map::empty(),
            snaps.take(b),
        )[pid].last_seen,
        fold_snapshots(Map::empty(), snaps.take(a))[pid].first_seen == fold_snapshots(
            Map::empty(),
            snaps.take(b),
        )[pid].first_seen,
        fold_snapshots(Map::empty(), snaps.take(b))[pid].first_seen <= fold_snapshots(
            Map::empty(),
            snaps.take(b),
        )[pid].last_seen,
    decreases b - a,
{
    lemma_peak_never_falls(snaps, a, b, pid);
    if b > a {
        lemma_sightings_monotone(snaps, a, b - 1, pid);
        let s = snaps.take(b);
        let q = snaps.take(b - 1);
        assert(s.drop_last() == q);
        assert(in_time_order(q)) by {
            assert forall|x: int, y: int| 0 <= x <= y < q.len() implies #[trigger] q[x].timestamp
                <= #[trigger] q[y].timestamp by {
                assert(snaps[x].timestamp <= snaps[y].timestamp);
            }
        }
        lemma_seen_within(q, pid);
        assert(q.last().timestamp <= s.last().timestamp) by {
            assert(snaps[b - 2].timestamp <= snaps[b - 1].timestamp);
        }
        lemma_fold_samples(fold_snapshots(Map::empty(), q), s.last().processes@, s.last().timestamp, pid);
    } else {
        assert(in_time_order(snaps.take(b))) by {
            let q = snaps.take(b);
            assert forall|x: int, y: int| 0 <= x <= y < q.len() implies #[trigger] q[x].timestamp
                <= #[trigger] q[y].timestamp by {
                assert(snaps[x].timestamp <= snaps[y].timestamp);
            }
        }
        lemma_seen_within(snaps.take(b), pid);
    }
}

} // verus!
