//! Resolution of the job tree: the root process and every process that
//! descends from it through live parent links.

use crate::types::{JobSnapshot, ProcessSample};
use std::collections::{HashMap, HashSet};
use vstd::prelude::*;
use vstd::std_specs::iter::IteratorSpec;

verus! {

broadcast use vstd::std_specs::hash::group_hash_axioms;

/// `pid` reaches `root` by following at most `n` parent links of `parents`.
pub open spec fn descends_within(parents: Map<i32, i32>, root: i32, pid: i32, n: nat) -> bool
    decreases n,
{
    pid == root || (n > 0 && parents.contains_key(pid) && descends_within(
        parents,
        root,
        parents[pid],
        (n - 1) as nat,
    ))
}

/// `pid` is `root` itself or one of its transitive descendants.
pub open spec fn in_job(parents: Map<i32, i32>, root: i32, pid: i32) -> bool {
    exists|n: nat| descends_within(parents, root, pid, n)
}

/// The job of `root`: the reflexive-transitive closure of the child-of relation.
pub open spec fn job_of(parents: Map<i32, i32>, root: i32) -> Set<i32> {
    Set::new(|pid: i32| in_job(parents, root, pid))
}

/// The (pid, parent) pairs of `links` are exactly the entries of `parents`.
pub open spec fn links_of(links: Seq<(i32, i32)>, parents: Map<i32, i32>) -> bool {
    &&& forall|j: int|
        0 <= j < links.len() ==> #[trigger] parents.contains_key(links[j].0) && parents[links[j].0]
            == links[j].1
    &&& forall|p: i32| #[trigger]
        parents.contains_key(p) ==> exists|j: int| 0 <= j < links.len() && links[j].0 == p
}

/// No link leads from a member of `job` to a process outside it.
pub open spec fn closed_under(links: Seq<(i32, i32)>, job: Set<i32>) -> bool {
    forall|j: int| 0 <= j < links.len() && #[trigger] job.contains(links[j].1) ==> job.contains(links[j].0)
}

/// The pids that a job can ever hold: the root and every pid of a link.
pub open spec fn candidates(links: Seq<(i32, i32)>, root: i32) -> Set<i32> {
    links.map_values(|l: (i32, i32)| l.0).to_set().insert(root)
}

proof fn lemma_closed_holds_job(parents: Map<i32, i32>, links: Seq<(i32, i32)>, root: i32, job: Set<i32>, pid: i32, n: nat)
    requires
        links_of(links, parents),
        closed_under(links, job),
        job.contains(root),
        descends_within(parents, root, pid, n),
    ensures
        job.contains(pid),
    decreases n,
{
    if pid != root {
        lemma_closed_holds_job(parents, links, root, job, parents[pid], (n - 1) as nat);
        let j = choose|j: int| 0 <= j < links.len() && links[j].0 == pid;
        assert(job.contains(links[j].1));
    }
}

proof fn lemma_candidates_bound(links: Seq<(i32, i32)>, root: i32, job: Set<i32>)
    requires
        job.subset_of(candidates(links, root)),
    ensures
        job.finite(),
        job.len() <= links.len() + 1,
{
    let pids = links.map_values(|l: (i32, i32)| l.0);
    pids.lemma_cardinality_of_set();
    vstd::set_lib::lemma_len_subset(job, candidates(links, root));
}

/// The entries of `ppid_map` as a sequence of (pid, parent) pairs.
fn parent_links(ppid_map: &HashMap<i32, i32>) -> (links: Vec<(i32, i32)>)
    ensures
        links_of(links@, ppid_map@),
{
    let mut links: Vec<(i32, i32)> = Vec::new();
    let ghost entries = vstd::std_specs::hash::spec_hash_map_iter(ppid_map).remaining();
    for kv in it: ppid_map.iter()
        invariant
            it.seq() == entries,
            links.len() == it.index(),
            forall|j: int| 0 <= j < links.len() ==> #[trigger] links[j] == (*it.seq()[j].0, *it.seq()[j].1),
    {
        links.push((*kv.0, *kv.1));
    }
    proof {
        assert forall|p: i32| #[trigger] ppid_map@.contains_key(p) implies exists|j: int|
            0 <= j < links.len() && links[j].0 == p by {
            assert(entries.contains((&p, &ppid_map@[p])));
            let j = choose|j: int| 0 <= j < entries.len() && entries[j] == (&p, &ppid_map@[p]);
            assert(links[j].0 == p);
        }
        assert forall|j: int| 0 <= j < links.len() implies #[trigger] ppid_map@.contains_key(links[j].0)
            && ppid_map@[links[j].0] == links[j].1 by {
            assert(ppid_map@.contains_key(*entries[j].0));
        }
    }
    links
}

/// The pids of the job rooted at `root_pid`: the root itself, whether or not
/// it is in `ppid_map`, and every pid whose chain of parents in `ppid_map`
/// leads to it.
pub fn find_job_pids(root_pid: i32, ppid_map: &HashMap<i32, i32>) -> (job: HashSet<i32>)
    ensures
        job@ == job_of(ppid_map@, root_pid),
{
    let links = parent_links(ppid_map);
    let mut job: HashSet<i32> = HashSet::new();
    job.insert(root_pid);
    proof {
        assert(descends_within(ppid_map@, root_pid, root_pid, 0));
    }
    loop
        invariant
            links_of(links@, ppid_map@),
            job@.contains(root_pid),
            job@.subset_of(candidates(links@, root_pid)),
            forall|p: i32| #[trigger] job@.contains(p) ==> in_job(ppid_map@, root_pid, p),
        ensures
            job@.contains(root_pid),
            forall|p: i32| #[trigger] job@.contains(p) ==> in_job(ppid_map@, root_pid, p),
            closed_under(links@, job@),
        decreases links.len() + 1 - job@.len(),
    {
        let ghost start = job@;
        let mut grew = false;
        let mut i: usize = 0;
        while i < links.len()
            invariant
                links_of(links@, ppid_map@),
                i <= links.len(),
                start.subset_of(job@),
                job@.contains(root_pid),
                job@.subset_of(candidates(links@, root_pid)),
                forall|p: i32| #[trigger] job@.contains(p) ==> in_job(ppid_map@, root_pid, p),
                !grew ==> job@ == start,
                grew ==> job@ != start,
                !grew ==> forall|j: int| 0 <= j < i && #[trigger] job@.contains(links[j].1) ==> job@.contains(links[j].0),
            decreases links.len() - i,
        {
            let (pid, ppid) = links[i];
            if !job.contains(&pid) && job.contains(&ppid) {
                proof {
                    let n = choose|n: nat| descends_within(ppid_map@, root_pid, ppid, n);
                    assert(ppid_map@.contains_key(links@[i as int].0));
                    assert(descends_within(ppid_map@, root_pid, pid, n + 1));
                    assert(links@.map_values(|l: (i32, i32)| l.0)[i as int] == pid);
                }
                job.insert(pid);
                grew = true;
            }
            i = i + 1;
        }
        proof {
            lemma_candidates_bound(links@, root_pid, job@);
            lemma_candidates_bound(links@, root_pid, start);
        }
        if !grew {
            break;
        }
        proof {
            assert(start.subset_of(job@) && start != job@);
            vstd::set_lib::lemma_len_subset(start, job@);
            assert(job@.len() != start.len()) by {
                if job@.len() == start.len() {
                    vstd::set_lib::lemma_subset_equality(start, job@);
                }
            }
        }
    }
    proof {
        assert forall|p: i32| job_of(ppid_map@, root_pid).contains(p) implies job@.contains(p) by {
            let n = choose|n: nat| descends_within(ppid_map@, root_pid, p, n);
            lemma_closed_holds_job(ppid_map@, links@, root_pid, job@, p, n);
        }
        assert(job@ =~= job_of(ppid_map@, root_pid));
    }
    job
}

/// Record `i` of `all` is the first with its pid.
pub open spec fn first_with_pid(all: Seq<ProcessSample>, i: int) -> bool {
    forall|j: int| 0 <= j < i ==> #[trigger] all[j].pid != all[i].pid
}

/// The parent links of the first `n` records of `all`; where a pid occurs
/// twice, its first record counts.
pub open spec fn parents_of(all: Seq<ProcessSample>, n: nat) -> Map<i32, i32>
    decreases n,
{
    if n == 0 {
        Map::empty()
    } else {
        let m = parents_of(all, (n - 1) as nat);
        let r = all[n - 1];
        if m.contains_key(r.pid) {
            m
        } else {
            m.insert(r.pid, r.ppid)
        }
    }
}

/// The first record of each pid of `job` among the first `n` of `all`, in order.
pub open spec fn job_records(all: Seq<ProcessSample>, job: Set<i32>, n: nat) -> Seq<ProcessSample>
    decreases n,
{
    if n == 0 {
        Seq::empty()
    } else {
        let prev = job_records(all, job, (n - 1) as nat);
        if job.contains(all[n - 1].pid) && first_with_pid(all, n - 1) {
            prev.push(all[n - 1])
        } else {
            prev
        }
    }
}

/// The sum of the resident sizes of `recs`.
pub open spec fn rss_sum(recs: Seq<ProcessSample>) -> nat
    decreases recs.len(),
{
    if recs.len() == 0 {
        0
    } else {
        rss_sum(recs.drop_last()) + recs.last().rss_kib as nat
    }
}

/// The job's share of a process table read at `timestamp`: the first record
/// of each pid in the job of `root_pid` (resolved over the table's parent
/// links), in table order, with their resident sizes summed (saturating at
/// the largest `u64`).
pub fn sample_job_tree(root_pid: i32, all: Vec<ProcessSample>, timestamp: i64) -> (snap: JobSnapshot)
    ensures
        snap.timestamp == timestamp,
        snap.processes@ == job_records(all@, job_of(parents_of(all@, all@.len()), root_pid), all@.len()),
        snap.total_rss_kib == if rss_sum(snap.processes@) > u64::MAX {
            u64::MAX
        } else {
            rss_sum(snap.processes@) as u64
        },
{
    let mut ppid_map: HashMap<i32, i32> = HashMap::new();
    let mut i: usize = 0;
    while i < all.len()
        invariant
            i <= all@.len(),
            ppid_map@ == parents_of(all@, i as nat),
        decreases all@.len() - i,
    {
        if !ppid_map.contains_key(&all[i].pid) {
            ppid_map.insert(all[i].pid, all[i].ppid);
        }
        i = i + 1;
    }
    let job = find_job_pids(root_pid, &ppid_map);
    let ghost job_set = job@;
    let mut seen: HashSet<i32> = HashSet::new();
    let mut processes: Vec<ProcessSample> = Vec::new();
    let mut total_rss_kib: u64 = 0;
    let mut k: usize = 0;
    while k < all.len()
        invariant
            k <= all@.len(),
            job@ == job_set,
            forall|p: i32| #[trigger] seen@.contains(p) <==> exists|j: int| 0 <= j < k && all@[j].pid == p,
            processes@ == job_records(all@, job_set, k as nat),
            total_rss_kib == if rss_sum(processes@) > u64::MAX {
                u64::MAX
            } else {
                rss_sum(processes@) as u64
            },
        decreases all@.len() - k,
    {
        let pid = all[k].pid;
        proof {
            if exists|j: int| 0 <= j < k && all@[j].pid == pid {
                assert(!first_with_pid(all@, k as int));
            }
        }
        if job.contains(&pid) && !seen.contains(&pid) {
            let r = ProcessSample {
                pid,
                ppid: all[k].ppid,
                rss_kib: all[k].rss_kib,
                command: all[k].command.clone(),
            };
            total_rss_kib = total_rss_kib.saturating_add(r.rss_kib);
            processes.push(r);
            proof {
                assert(processes@.drop_last() == job_records(all@, job_set, k as nat));
            }
        }
        seen.insert(pid);
        proof {
            assert forall|p: i32| #[trigger] seen@.contains(p) implies exists|j: int| 0 <= j < k + 1 && all@[j].pid == p by {
                if p != pid {
                    let j = choose|j: int| 0 <= j < k && all@[j].pid == p;
                }
            }
            assert forall|p: i32| (exists|j: int| 0 <= j < k + 1 && all@[j].pid == p) implies #[trigger] seen@.contains(p) by {
                let j = choose|j: int| 0 <= j < k + 1 && all@[j].pid == p;
                if j < k {
                    assert(exists|j: int| 0 <= j < k && all@[j].pid == p);
                }
            }
        }
        k = k + 1;
    }
    JobSnapshot { timestamp, total_rss_kib, processes }
}

/// The job always holds its root, whether or not the root is in the table.
pub proof fn lemma_job_holds_root(parents: Map<i32, i32>, root: i32)
    ensures
        job_of(parents, root).contains(root),
{
    assert(descends_within(parents, root, root, 0));
}

/// The job holds every child of each of its members.
pub proof fn lemma_job_holds_children(parents: Map<i32, i32>, root: i32, pid: i32)
    requires
        parents.contains_key(pid),
        job_of(parents, root).contains(parents[pid]),
    ensures
        job_of(parents, root).contains(pid),
{
    let n = choose|n: nat| descends_within(parents, root, parents[pid], n);
    assert(descends_within(parents, root, pid, n + 1));
}

/// A member of the job other than the root has a parent in the table, and
/// that parent is a member too.
pub proof fn lemma_job_members_have_member_parents(parents: Map<i32, i32>, root: i32, pid: i32)
    requires
        job_of(parents, root).contains(pid),
        pid != root,
    ensures
        parents.contains_key(pid),
        job_of(parents, root).contains(parents[pid]),
{
    let n = choose|n: nat| descends_within(parents, root, pid, n);
    assert(descends_within(parents, root, parents[pid], (n - 1) as nat));
}

proof fn lemma_unrelated_within(parents: Map<i32, i32>, root: i32, tree: Set<i32>, pid: i32, n: nat)
    requires
        !tree.contains(root),
        forall|p: i32| #[trigger] tree.contains(p) && parents.contains_key(p) ==> tree.contains(parents[p]),
        tree.contains(pid),
    ensures
        !descends_within(parents, root, pid, n),
    decreases n,
{
    if n > 0 && parents.contains_key(pid) {
        lemma_unrelated_within(parents, root, tree, parents[pid], (n - 1) as nat);
    }
}

/// A tree disjoint from the root's, that is a set of pids that does not hold
/// the root and holds the parent of each of its members that has one, shares
/// no pid with the job.
pub proof fn lemma_job_excludes_disjoint_tree(parents: Map<i32, i32>, root: i32, tree: Set<i32>, pid: i32)
    requires
        !tree.contains(root),
        forall|p: i32| #[trigger] tree.contains(p) && parents.contains_key(p) ==> tree.contains(parents[p]),
        tree.contains(pid),
    ensures
        !job_of(parents, root).contains(pid),
{
    assert forall|n: nat| !descends_within(parents, root, pid, n) by {
        lemma_unrelated_within(parents, root, tree, pid, n);
    }
}

proof fn lemma_restricted_within(parents: Map<i32, i32>, root: i32, pid: i32, n: nat)
    requires
        descends_within(parents, root, pid, n),
    ensures
        descends_within(parents.restrict(job_of(parents, root)), root, pid, n),
    decreases n,
{
    if pid != root {
        lemma_restricted_within(parents, root, parents[pid], (n - 1) as nat);
        assert(job_of(parents, root).contains(pid)) by {
            assert(descends_within(parents, root, pid, n));
        }
    }
}

proof fn lemma_within_restricted(parents: Map<i32, i32>, keys: Set<i32>, root: i32, pid: i32, n: nat)
    requires
        descends_within(parents.restrict(keys), root, pid, n),
    ensures
        descends_within(parents, root, pid, n),
    decreases n,
{
    if pid != root {
        lemma_within_restricted(parents, keys, root, parents[pid], (n - 1) as nat);
    }
}

/// Resolving is idempotent: resolving the root again over the parent links
/// of the job's own members gives the job back.
pub proof fn lemma_resolve_idempotent(parents: Map<i32, i32>, root: i32)
    ensures
        job_of(parents.restrict(job_of(parents, root)), root) == job_of(parents, root),
{
    let job = job_of(parents, root);
    let sub = parents.restrict(job);
    assert forall|p: i32| job_of(sub, root).contains(p) <==> job.contains(p) by {
        if job.contains(p) {
            let n = choose|n: nat| descends_within(parents, root, p, n);
            lemma_restricted_within(parents, root, p, n);
        }
        if job_of(sub, root).contains(p) {
            let n = choose|n: nat| descends_within(sub, root, p, n);
            lemma_within_restricted(parents, job, root, p, n);
        }
    }
    assert(job_of(sub, root) =~= job);
}

} // verus!
