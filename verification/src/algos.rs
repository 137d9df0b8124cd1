use vstd::prelude::*;
use crate::Clock;
use crate::job::Job;
use crate::cluster::{Cluster, RunEntry, RunInfo, enumerates, rmap_entries};

verus! {

/// Whether a job's node requirement fits the given available node count.
pub open spec fn job_fits(j: Job, avail: u32) -> bool {
    j.nodes <= avail
}

/// First-come-first-served decision: only the earliest-arrived pending job
/// may start; if it does not fit, nothing starts this call.
pub open spec fn fcfs_choice(jobs: Seq<Job>, avail: u32) -> Option<usize>
    recommends
        jobs.len() > 0,
{
    if job_fits(jobs[0], avail) {
        Some(0usize)
    } else {
        None
    }
}

/// First-fit decision from position `i` on: the earliest-arrived pending
/// job at or after `i` that fits.
pub open spec fn ff_choice_from(jobs: Seq<Job>, avail: u32, i: int) -> Option<usize>
    decreases jobs.len() - i,
{
    if 0 <= i < jobs.len() {
        if job_fits(jobs[i], avail) {
            Some(i as usize)
        } else {
            ff_choice_from(jobs, avail, i + 1)
        }
    } else {
        None
    }
}

/// First-fit decision: the earliest-arrived pending job that fits.
pub open spec fn ff_choice(jobs: Seq<Job>, avail: u32) -> Option<usize> {
    ff_choice_from(jobs, avail, 0)
}

/// The first-fit result always points at the earliest fitting job.
pub proof fn lemma_ff_props(jobs: Seq<Job>, avail: u32, k: int)
    requires
        jobs.len() <= usize::MAX,
        0 <= k <= jobs.len(),
    ensures
        match ff_choice_from(jobs, avail, k) {
            Some(x) => k <= x < jobs.len() && job_fits(jobs[x as int], avail) && (forall|j: int|
                k <= j < x ==> !job_fits(jobs[j], avail)),
            None => forall|j: int| k <= j < jobs.len() ==> !job_fits(jobs[j], avail),
        },
    decreases jobs.len() - k,
{
    if k < jobs.len() && !job_fits(jobs[k], avail) {
        lemma_ff_props(jobs, avail, k + 1);
    }
}

/// Strict priority order of shortest-job-first: shorter requested runtime
/// first, ties broken by the lower job id.
pub open spec fn sjf_better(a: Job, b: Job) -> bool {
    a.requested_run_time < b.requested_run_time || (a.requested_run_time == b.requested_run_time
        && a.id < b.id)
}

/// Shortest-job-first scan from position `i` with the best fitting job
/// seen so far.
pub open spec fn sjf_from(jobs: Seq<Job>, avail: u32, i: int, best: Option<usize>) -> Option<
    usize,
>
    decreases jobs.len() - i,
{
    if 0 <= i < jobs.len() {
        let take = job_fits(jobs[i], avail) && match best {
            Some(b) => sjf_better(jobs[i], jobs[b as int]),
            None => true,
        };
        sjf_from(jobs, avail, i + 1, if take { Some(i as usize) } else { best })
    } else {
        best
    }
}

/// Shortest-job-first decision: among the pending jobs that fit, the one
/// with the smallest requested runtime, ties broken by the smallest id.
pub open spec fn sjf_choice(jobs: Seq<Job>, avail: u32) -> Option<usize> {
    sjf_from(jobs, avail, 0, None)
}

/// The shortest-job-first scan returns a fitting job that no fitting job
/// strictly beats, and returns nothing only if nothing fits.
pub proof fn lemma_sjf_props(jobs: Seq<Job>, avail: u32, i: int, best: Option<usize>)
    requires
        jobs.len() <= usize::MAX,
        0 <= i <= jobs.len(),
        match best {
            Some(b) => b < i && job_fits(jobs[b as int], avail) && (forall|j: int|
                0 <= j < i && job_fits(jobs[j], avail) ==> !sjf_better(
                    jobs[j],
                    jobs[b as int],
                )),
            None => forall|j: int| 0 <= j < i ==> !job_fits(jobs[j], avail),
        },
    ensures
        match sjf_from(jobs, avail, i, best) {
            Some(x) => x < jobs.len() && job_fits(jobs[x as int], avail) && (forall|j: int|
                0 <= j < jobs.len() && job_fits(jobs[j], avail) ==> !sjf_better(
                    jobs[j],
                    jobs[x as int],
                )),
            None => forall|j: int| 0 <= j < jobs.len() ==> !job_fits(jobs[j], avail),
        },
    decreases jobs.len() - i,
{
    if 0 <= i < jobs.len() {
        let take = job_fits(jobs[i], avail) && match best {
            Some(b) => sjf_better(jobs[i], jobs[b as int]),
            None => true,
        };
        lemma_sjf_props(jobs, avail, i + 1, if take { Some(i as usize) } else { best });
    }
}

/// Shortest-job-first tie-break: of two fitting pending jobs with equal
/// requested runtime, the one with the larger id is never selected.
pub proof fn lemma_sjf_tie_break(jobs: Seq<Job>, avail: u32, i: int, j: int)
    requires
        jobs.len() <= usize::MAX,
        0 <= i < jobs.len(),
        0 <= j < jobs.len(),
        job_fits(jobs[i], avail),
        job_fits(jobs[j], avail),
        jobs[i].requested_run_time == jobs[j].requested_run_time,
        jobs[i].id < jobs[j].id,
    ensures
        sjf_choice(jobs, avail) is Some,
        sjf_choice(jobs, avail) != Some(j as usize),
{
    lemma_sjf_props(jobs, avail, 0, None);
}

/// Head-of-line blocking: when the earliest pending job does not fit but a
/// later one does, first-come-first-served admits nothing while first-fit
/// admits an eligible later job.
pub proof fn lemma_head_of_line_blocking(jobs: Seq<Job>, avail: u32, i: int)
    requires
        jobs.len() <= usize::MAX,
        jobs.len() > 0,
        !job_fits(jobs[0], avail),
        0 < i < jobs.len(),
        job_fits(jobs[i], avail),
    ensures
        fcfs_choice(jobs, avail) is None,
        ff_choice(jobs, avail) is Some,
        ff_choice(jobs, avail) != Some(0usize),
{
    lemma_ff_props(jobs, avail, 0);
    if ff_choice(jobs, avail) is None {
        assert(!job_fits(jobs[i], avail));
    }
}

/// Backfill non-violation: when the head job does not fit and the policy
/// backfills a later job, that job's requested runtime lies strictly below
/// a reservation window computed for the head job; a job at or over every
/// such window is never backfilled.
pub proof fn lemma_backfill_non_violation(
    clock: Clock,
    jobs: Seq<Job>,
    cluster: &Cluster,
    i: usize,
)
    requires
        jobs.len() > 0,
        !job_fits(jobs[0], cluster.available_nodes),
        FCFSEasy.schedule_ok(clock, jobs, cluster, Some(i)),
    ensures
        1 <= i < jobs.len(),
        job_fits(jobs[i as int], cluster.available_nodes),
        exists|w: int|
            #![trigger valid_window(cluster.running(), cluster.available_nodes, jobs[0].nodes, clock, w)]
            valid_window(cluster.running(), cluster.available_nodes, jobs[0].nodes, clock, w)
                && jobs[i as int].requested_run_time < w,
{
}

/// All entries ordered by requested runtime ascending, ties by job id:
/// a total order, so the enumeration of a running set with distinct ids
/// has exactly one sorted form and the reservation window is deterministic.
pub open spec fn entry_le(a: RunEntry, b: RunEntry) -> bool {
    a.2 < b.2 || (a.2 == b.2 && a.0 <= b.0)
}

pub open spec fn sorted_by_req_id(s: Seq<RunEntry>) -> bool {
    forall|i: int, j: int| 0 <= i < j < s.len() ==> entry_le(s[i], s[j])
}

/// The conservative reservation window over one ordering of the running
/// jobs: walk the entries, cumulating freed nodes on top of `acc`, until
/// the head job's requirement `need` is covered; the window is the time
/// from `clock` to that entry's expected end (zero if that end has passed,
/// and zero if the walk never covers `need`).
pub open spec fn window_rec(s: Seq<RunEntry>, acc: int, need: u32, clock: Clock) -> int
    decreases s.len(),
{
    if s.len() == 0 {
        0
    } else {
        let acc2 = acc + s[0].1;
        if acc2 >= need {
            if s[0].3 >= clock {
                s[0].3 - clock
            } else {
                0
            }
        } else {
            window_rec(s.drop_first(), acc2, need, clock)
        }
    }
}

/// `w` is a reservation window that some enumeration of the running jobs,
/// sorted by requested runtime, yields.
pub open spec fn valid_window(
    m: Map<u32, RunInfo>,
    avail: u32,
    need: u32,
    clock: Clock,
    w: int,
) -> bool {
    exists|s: Seq<RunEntry>|
        #![trigger window_rec(s, avail as int, need, clock)]
        enumerates(m, s) && sorted_by_req_id(s) && w == window_rec(s, avail as int, need, clock)
}

/// The shared policy capability: given the clock, the pending queue in
/// arrival order, and read-only cluster state, name at most one pending
/// job that can start right now.
pub trait Scheduler: Sized {
    /// Which results the policy may return in the given situation.
    spec fn schedule_ok(
        &self,
        clock: Clock,
        jobs: Seq<Job>,
        cluster: &Cluster,
        r: Option<usize>,
    ) -> bool;

    fn name(&self) -> (r: &'static str);

    /// Pick at most one pending job, by position, that may start now. The
    /// pending queue must not be empty, any returned position fits in the
    /// currently available nodes, and something is returned whenever the
    /// head of the queue fits.
    fn schedule(&self, clock: Clock, jobs: &Vec<Job>, cluster: &Cluster) -> (r: Option<usize>)
        requires
            jobs@.len() > 0,
            cluster.wf(),
        ensures
            self.schedule_ok(clock, jobs@, cluster, r),
            match r {
                Some(i) => i < jobs@.len() && jobs@[i as int].nodes <= cluster.available_nodes,
                None => true,
            },
            job_fits(jobs@[0], cluster.available_nodes) ==> r is Some,
    ;
}

/// Strict first-come-first-served.
pub struct FCFS;

impl Scheduler for FCFS {
    open spec fn schedule_ok(
        &self,
        clock: Clock,
        jobs: Seq<Job>,
        cluster: &Cluster,
        r: Option<usize>,
    ) -> bool {
        r == fcfs_choice(jobs, cluster.available_nodes)
    }

    fn name(&self) -> (r: &'static str) {
        "FCFS"
    }

    fn schedule(&self, clock: Clock, jobs: &Vec<Job>, cluster: &Cluster) -> (r: Option<usize>) {
        if cluster.available_nodes >= jobs[0].nodes {
            Some(0)
        } else {
            None
        }
    }
}

/// First-fit: the earliest pending job that fits, with no head-of-line
/// blocking.
pub struct FF;

impl Scheduler for FF {
    open spec fn schedule_ok(
        &self,
        clock: Clock,
        jobs: Seq<Job>,
        cluster: &Cluster,
        r: Option<usize>,
    ) -> bool {
        r == ff_choice(jobs, cluster.available_nodes)
    }

    fn name(&self) -> (r: &'static str) {
        "FF"
    }

    fn schedule(&self, clock: Clock, jobs: &Vec<Job>, cluster: &Cluster) -> (r: Option<usize>) {
        let mut idx: usize = 0;
        while idx < jobs.len()
            invariant
                idx <= jobs@.len(),
                ff_choice(jobs@, cluster.available_nodes) == ff_choice_from(
                    jobs@,
                    cluster.available_nodes,
                    idx as int,
                ),
            decreases jobs@.len() - idx,
        {
            if cluster.available_nodes >= jobs[idx].nodes {
                return Some(idx);
            }
            idx += 1;
        }
        None
    }
}

/// Shortest-job-first among the pending jobs that currently fit.
pub struct SJF;

impl Scheduler for SJF {
    open spec fn schedule_ok(
        &self,
        clock: Clock,
        jobs: Seq<Job>,
        cluster: &Cluster,
        r: Option<usize>,
    ) -> bool {
        r == sjf_choice(jobs, cluster.available_nodes)
    }

    fn name(&self) -> (r: &'static str) {
        "SJF"
    }

    fn schedule(&self, clock: Clock, jobs: &Vec<Job>, cluster: &Cluster) -> (r: Option<usize>) {
        let avail = cluster.available_nodes;
        let mut best: Option<usize> = None;
        let mut idx: usize = 0;
        while idx < jobs.len()
            invariant
                idx <= jobs@.len(),
                sjf_choice(jobs@, avail) == sjf_from(jobs@, avail, idx as int, best),
                match best {
                    Some(b) => b < idx && job_fits(jobs@[b as int], avail) && (forall|j: int|
                        0 <= j < idx && job_fits(jobs@[j], avail) ==> !sjf_better(
                            jobs@[j],
                            jobs@[b as int],
                        )),
                    None => forall|j: int| 0 <= j < idx ==> !job_fits(jobs@[j], avail),
                },
            decreases jobs@.len() - idx,
        {
            if avail >= jobs[idx].nodes {
                let take = match best {
                    None => true,
                    Some(b) => jobs[idx].requested_run_time < jobs[b].requested_run_time || (
                    jobs[idx].requested_run_time == jobs[b].requested_run_time && jobs[idx].id
                        < jobs[b].id),
                };
                if take {
                    best = Some(idx);
                }
            }
            idx += 1;
        }
        best
    }
}

/// First-come-first-served with conservative EASY backfilling: when the
/// head job does not fit, one later pending job may start now if its
/// requested runtime is strictly below the head job's reservation window
/// and it fits in the nodes available right now. A running job whose
/// expected end has already passed contributes a zero window.
pub struct FCFSEasy;

impl Scheduler for FCFSEasy {
    open spec fn schedule_ok(
        &self,
        clock: Clock,
        jobs: Seq<Job>,
        cluster: &Cluster,
        r: Option<usize>,
    ) -> bool {
        if job_fits(jobs[0], cluster.available_nodes) {
            r == Some(0usize)
        } else {
            match r {
                Some(i) => 1 <= i < jobs.len() && job_fits(jobs[i as int], cluster.available_nodes)
                    && (exists|w: int|
                    #![trigger valid_window(cluster.running(), cluster.available_nodes, jobs[0].nodes, clock, w)]
                    valid_window(cluster.running(), cluster.available_nodes, jobs[0].nodes, clock, w)
                        && jobs[i as int].requested_run_time < w && (forall|j: int|
                        1 <= j < i ==> !(jobs[j].requested_run_time < w && job_fits(
                            jobs[j],
                            cluster.available_nodes,
                        )))),
                None => exists|w: int|
                    #![trigger valid_window(cluster.running(), cluster.available_nodes, jobs[0].nodes, clock, w)]
                    valid_window(cluster.running(), cluster.available_nodes, jobs[0].nodes, clock, w)
                        && (forall|j: int|
                        1 <= j < jobs.len() ==> !(jobs[j].requested_run_time < w && job_fits(
                            jobs[j],
                            cluster.available_nodes,
                        ))),
            }
        }
    }

    fn name(&self) -> (r: &'static str) {
        "FCFSEasy"
    }

    fn schedule(&self, clock: Clock, jobs: &Vec<Job>, cluster: &Cluster) -> (r: Option<usize>) {
        let avail = cluster.available_nodes;
        let need = jobs[0].nodes;
        if avail >= need {
            return Some(0);
        }
        let ghost m = cluster.running();
        let mut running = rmap_entries(&cluster.running_jobs);
        sort_entries(Ghost(m), &mut running);

        // Walk the sorted running jobs until enough capacity would be free
        // for the head job; the expected end reached there sets the window.
        let mut acc: u64 = avail as u64;
        let mut window: u64 = 0;
        let mut found: bool = false;
        let mut k: usize = 0;
        proof {
            assert(running@.subrange(0, running@.len() as int) =~= running@);
        }
        while k < running.len() && !found
            invariant
                k <= running@.len(),
                enumerates(m, running@),
                sorted_by_req_id(running@),
                need == jobs@[0].nodes,
                !found ==> acc < need as u64,
                !found ==> window == 0 && window_rec(
                    running@.subrange(k as int, running@.len() as int),
                    acc as int,
                    need,
                    clock,
                ) == window_rec(running@, avail as int, need, clock),
                found ==> window == window_rec(running@, avail as int, need, clock),
            decreases running@.len() - k,
        {
            proof {
                assert(running@.subrange(k as int, running@.len() as int).drop_first()
                    =~= running@.subrange(k as int + 1, running@.len() as int));
            }
            acc = acc + (running[k].1 as u64);
            if acc >= need as u64 {
                window = if running[k].3 >= clock {
                    running[k].3 - clock
                } else {
                    0
                };
                found = true;
            }
            k += 1;
        }
        proof {
            if !found {
                assert(running@.subrange(k as int, running@.len() as int) =~= Seq::empty());
            }
            assert(window == window_rec(running@, avail as int, need, clock));
            assert(valid_window(m, avail, need, clock, window as int));
        }

        // Backfill scan in arrival order, skipping the head job.
        let mut idx: usize = 1;
        while idx < jobs.len()
            invariant
                1 <= idx <= jobs@.len(),
                need == jobs@[0].nodes,
                avail == cluster.available_nodes,
                !job_fits(jobs@[0], avail),
                valid_window(m, avail, need, clock, window as int),
                m == cluster.running(),
                forall|j: int|
                    1 <= j < idx ==> !(jobs@[j].requested_run_time < window && job_fits(
                        jobs@[j],
                        avail,
                    )),
            decreases jobs@.len() - idx,
        {
            if jobs[idx].requested_run_time < window && avail >= jobs[idx].nodes {
                return Some(idx);
            }
            idx += 1;
        }
        None
    }
}

/// Reorder the entries of a running-map enumeration so requested runtimes
/// ascend; the entries still enumerate the same map.
fn sort_entries(Ghost(m): Ghost<Map<u32, RunInfo>>, v: &mut Vec<RunEntry>)
    requires
        enumerates(m, old(v)@),
    ensures
        enumerates(m, final(v)@),
        sorted_by_req_id(final(v)@),
{
    let mut i: usize = 0;
    while i < v.len()
        invariant
            i <= v@.len(),
            enumerates(m, v@),
            forall|a: int, b: int| 0 <= a < b < v@.len() && a < i ==> entry_le(v@[a], v@[b]),
        decreases v@.len() - i,
    {
        let mut mi: usize = i;
        let mut k: usize = i + 1;
        while k < v.len()
            invariant
                i <= mi < v@.len(),
                i < k <= v@.len(),
                forall|t: int| i <= t < k ==> entry_le(v@[mi as int], v@[t]),
            decreases v@.len() - k,
        {
            if v[k].2 < v[mi].2 || (v[k].2 == v[mi].2 && v[k].0 < v[mi].0) {
                mi = k;
            }
            k += 1;
        }
        if mi != i {
            let gs = Ghost(v@);
            let a = v[i];
            let b = v[mi];
            v.set(i, b);
            v.set(mi, a);
            proof {
                lemma_swap_enumerates(m, gs@, v@, i as int, mi as int);
            }
        }
        i += 1;
    }
}

/// Swapping two positions of an enumeration leaves it an enumeration.
proof fn lemma_swap_enumerates(
    m: Map<u32, RunInfo>,
    s: Seq<RunEntry>,
    s2: Seq<RunEntry>,
    i: int,
    j: int,
)
    requires
        enumerates(m, s),
        0 <= i < s.len(),
        0 <= j < s.len(),
        s2 == s.update(i, s[j]).update(j, s[i]),
    ensures
        enumerates(m, s2),
{
    assert forall|k: u32| #[trigger] m.dom().contains(k) implies exists|p: int|
        0 <= p < s2.len() && s2[p].0 == k by {
        let p0 = choose|p: int| 0 <= p < s.len() && s[p].0 == k;
        if p0 == i {
            assert(s2[j].0 == k);
        } else if p0 == j {
            assert(s2[i].0 == k);
        } else {
            assert(s2[p0].0 == k);
        }
    }
}

} // verus!
