use vstd::prelude::*;
use crate::Clock;
use crate::job::Job;

verus! {

/// What the running map records of one job: node count, actual run time,
/// requested run time, expected end.
pub type RunInfo = (u32, u64, u64, u64);

/// One running job as handed out for scanning: id, node count, requested
/// run time, expected end.
pub type RunEntry = (u32, u32, u64, u64);

/// The set of currently running jobs, held in a hashbrown hash map keyed
/// by job id. The map itself is opaque to the verifier; `running_model`
/// names its contents, and the `rmap_*` wrappers state what each call does
/// to them.
#[verifier::external_body]
pub struct RunningMap {
    inner: hashbrown::HashMap<u32, Job>,
}

/// What a `RunningMap` holds: for each running job id, its node count,
/// actual run time, requested run time, and expected end.
pub uninterp spec fn running_model(m: RunningMap) -> Map<u32, RunInfo>;

/// Relies on hashbrown::HashMap::new: a new map is empty.
#[verifier::external_body]
pub(crate) fn rmap_new() -> (m: RunningMap)
    ensures
        running_model(m) =~= Map::empty(),
{
    RunningMap { inner: hashbrown::HashMap::new() }
}

/// Relies on hashbrown::HashMap::insert: the entry is stored under its key,
/// replacing any entry that key had.
#[verifier::external_body]
pub(crate) fn rmap_insert(m: &mut RunningMap, job: Job)
    ensures
        running_model(*final(m)) == running_model(*old(m)).insert(
            job.id,
            (job.nodes, job.run_time, job.requested_run_time, job.expected_end),
        ),
{
    m.inner.insert(job.id, job);
}

/// Relies on hashbrown::HashMap::contains_key.
#[verifier::external_body]
pub(crate) fn rmap_contains(m: &RunningMap, id: u32) -> (r: bool)
    ensures
        r == running_model(*m).dom().contains(id),
{
    m.inner.contains_key(&id)
}

/// Relies on hashbrown::HashMap::remove: returns the node count and actual
/// run time of the entry under the key, if any, and deletes that entry.
#[verifier::external_body]
pub(crate) fn rmap_remove(m: &mut RunningMap, id: u32) -> (r: Option<(u32, u64)>)
    ensures
        running_model(*final(m)) == running_model(*old(m)).remove(id),
        match r {
            Some(p) => running_model(*old(m)).dom().contains(id)
                && p.0 == running_model(*old(m))[id].0
                && p.1 == running_model(*old(m))[id].1,
            None => !running_model(*old(m)).dom().contains(id),
        },
{
    match m.inner.remove(&id) {
        Some(job) => Some((job.nodes, job.run_time)),
        None => None,
    }
}

/// A sequence of entries that lists a running map's contents exactly:
/// every entry matches the map, ids are pairwise distinct, and every
/// running id occurs. No order is implied.
pub open spec fn enumerates(m: Map<u32, RunInfo>, s: Seq<RunEntry>) -> bool {
    &&& s.len() == m.dom().len()
    &&& (forall|i: int|
        #![trigger s[i]]
        0 <= i < s.len() ==> m.dom().contains(s[i].0) && s[i].1 == m[s[i].0].0 && s[i].2
            == m[s[i].0].2 && s[i].3 == m[s[i].0].3)
    &&& (forall|i: int, j: int| 0 <= i < j < s.len() ==> s[i].0 != s[j].0)
    &&& (forall|k: u32|
        #[trigger] m.dom().contains(k) ==> exists|i: int| 0 <= i < s.len() && s[i].0 == k)
}

/// Relies on hashbrown::HashMap::values: yields each entry exactly once,
/// in no promised order.
#[verifier::external_body]
pub(crate) fn rmap_entries(m: &RunningMap) -> (v: Vec<RunEntry>)
    ensures
        enumerates(running_model(*m), v@),
{
    let mut v = Vec::new();
    for job in m.inner.values() {
        v.push((job.id, job.nodes, job.requested_run_time, job.expected_end));
    }
    v
}

/// Total node count over the entries of a running map.
pub open spec fn nodes_sum(m: Map<u32, RunInfo>) -> int
    decreases m.dom().len() when m.dom().finite()
{
    if m.dom().finite() && m.dom().len() > 0 {
        let k = m.dom().choose();
        m[k].0 + nodes_sum(m.remove(k))
    } else {
        0
    }
}

/// Peeling any present key off a finite map splits its node sum.
pub proof fn lemma_nodes_sum_remove(m: Map<u32, RunInfo>, k: u32)
    requires
        m.dom().finite(),
        m.dom().contains(k),
    ensures
        nodes_sum(m) == m[k].0 + nodes_sum(m.remove(k)),
    decreases m.dom().len(),
{
    let c = m.dom().choose();
    assert(m.dom().contains(c));
    if c == k {
    } else {
        lemma_nodes_sum_remove(m.remove(c), k);
        lemma_nodes_sum_remove(m.remove(k), c);
        assert(m.remove(c).remove(k) =~= m.remove(k).remove(c));
    }
}

/// Adding a fresh key adds its node count to the sum.
pub proof fn lemma_nodes_sum_insert(m: Map<u32, RunInfo>, k: u32, v: RunInfo)
    requires
        m.dom().finite(),
        !m.dom().contains(k),
    ensures
        nodes_sum(m.insert(k, v)) == nodes_sum(m) + v.0,
{
    lemma_nodes_sum_remove(m.insert(k, v), k);
    assert(m.insert(k, v).remove(k) =~= m);
}

/// Total node-seconds the running jobs will consume once released: node
/// count times actual run time, summed over the map.
pub open spec fn used_sum(m: Map<u32, RunInfo>) -> int
    decreases m.dom().len() when m.dom().finite()
{
    if m.dom().finite() && m.dom().len() > 0 {
        let k = m.dom().choose();
        m[k].0 * m[k].1 + used_sum(m.remove(k))
    } else {
        0
    }
}

/// Peeling any present key off a finite map splits its node-second sum.
pub proof fn lemma_used_sum_remove(m: Map<u32, RunInfo>, k: u32)
    requires
        m.dom().finite(),
        m.dom().contains(k),
    ensures
        used_sum(m) == m[k].0 * m[k].1 + used_sum(m.remove(k)),
    decreases m.dom().len(),
{
    let c = m.dom().choose();
    assert(m.dom().contains(c));
    if c == k {
    } else {
        lemma_used_sum_remove(m.remove(c), k);
        lemma_used_sum_remove(m.remove(k), c);
        assert(m.remove(c).remove(k) =~= m.remove(k).remove(c));
    }
}

/// Adding a fresh key adds its node-seconds to the sum.
pub proof fn lemma_used_sum_insert(m: Map<u32, RunInfo>, k: u32, v: RunInfo)
    requires
        m.dom().finite(),
        !m.dom().contains(k),
    ensures
        used_sum(m.insert(k, v)) == used_sum(m) + v.0 * v.1,
{
    lemma_used_sum_remove(m.insert(k, v), k);
    assert(m.insert(k, v).remove(k) =~= m);
}

/// Node sums are never negative.
pub proof fn lemma_nodes_sum_nonneg(m: Map<u32, RunInfo>)
    requires
        m.dom().finite(),
    ensures
        nodes_sum(m) >= 0,
    decreases m.dom().len(),
{
    if m.dom().len() > 0 {
        lemma_nodes_sum_nonneg(m.remove(m.dom().choose()));
    }
}

/// The fixed-size cluster: total and available node counts, cumulative
/// node-seconds consumed, and the set of running jobs.
pub struct Cluster {
    pub total_nodes: u32,
    pub available_nodes: u32,
    pub used_resources: u64,
    pub running_jobs: RunningMap,
}

impl Cluster {
    /// The contents of the running set, as a map from job id.
    pub open spec fn running(&self) -> Map<u32, RunInfo> {
        running_model(self.running_jobs)
    }

    /// Capacity invariant: available nodes plus the nodes of all running
    /// jobs always equal the cluster's total.
    pub open spec fn wf(&self) -> bool {
        &&& self.running().dom().finite()
        &&& self.available_nodes + nodes_sum(self.running()) == self.total_nodes
    }

    pub fn new(nodes: u32) -> (c: Cluster)
        ensures
            c.wf(),
            c.total_nodes == nodes,
            c.available_nodes == nodes,
            c.used_resources == 0,
            c.running() == Map::<u32, RunInfo>::empty(),
    {
        let c = Cluster {
            total_nodes: nodes,
            available_nodes: nodes,
            used_resources: 0,
            running_jobs: rmap_new(),
        };
        c
    }

    /// Admission: succeeds exactly when the job fits in the currently
    /// available nodes, has not been scheduled before, and its id is not
    /// already running; then the available count drops by the job's nodes
    /// and the job enters the running set, marked scheduled as of `clock`.
    pub fn schedule_job(&mut self, job: Job, clock: Clock) -> (admitted: bool)
        requires
            old(self).wf(),
            clock + job.requested_run_time <= u64::MAX,
        ensures
            final(self).wf(),
            final(self).total_nodes == old(self).total_nodes,
            final(self).used_resources == old(self).used_resources,
            admitted == (job.nodes <= old(self).available_nodes && !job.scheduled
                && !old(self).running().dom().contains(job.id)),
            admitted ==> final(self).available_nodes == old(self).available_nodes - job.nodes
                && final(self).running() == old(self).running().insert(
                    job.id,
                    (job.nodes, job.run_time, job.requested_run_time,
                    (clock + job.requested_run_time) as u64),
                ),
            !admitted ==> final(self).available_nodes == old(self).available_nodes
                && final(self).running() == old(self).running(),
    {
        if job.nodes > self.available_nodes || job.scheduled
            || rmap_contains(&self.running_jobs, job.id) {
            return false;
        }
        proof {
            lemma_nodes_sum_insert(
                self.running(),
                job.id,
                (job.nodes, job.run_time, job.requested_run_time,
                (clock + job.requested_run_time) as u64),
            );
        }
        self.available_nodes = self.available_nodes - job.nodes;
        let mut job = job;
        job.set_scheduled(clock);
        rmap_insert(&mut self.running_jobs, job);
        true
    }

    /// Completion: if the id is running, remove it, return its nodes to the
    /// available count and add its nodes times actual run time to the
    /// cumulative used node-seconds. A no-op for an unknown id.
    pub fn finish_job(&mut self, job_id: u32)
        requires
            old(self).wf(),
            old(self).running().dom().contains(job_id)
                ==> old(self).used_resources + old(self).running()[job_id].0
                    * old(self).running()[job_id].1 <= u64::MAX,
        ensures
            final(self).wf(),
            final(self).total_nodes == old(self).total_nodes,
            old(self).running().dom().contains(job_id) ==> (
                final(self).running() == old(self).running().remove(job_id)
                && final(self).available_nodes == old(self).available_nodes
                    + old(self).running()[job_id].0
                && final(self).used_resources == old(self).used_resources
                    + old(self).running()[job_id].0 * old(self).running()[job_id].1),
            !old(self).running().dom().contains(job_id) ==> (
                final(self).running() == old(self).running()
                && final(self).available_nodes == old(self).available_nodes
                && final(self).used_resources == old(self).used_resources),
    {
        proof {
            if self.running().dom().contains(job_id) {
                lemma_nodes_sum_remove(self.running(), job_id);
                lemma_nodes_sum_nonneg(self.running().remove(job_id));
            }
        }
        match rmap_remove(&mut self.running_jobs, job_id) {
            Some(p) => {
                self.available_nodes = self.available_nodes + p.0;
                self.used_resources = self.used_resources + (p.0 as u64) * p.1;
            }
            None => {
                proof {
                    assert(old(self).running().remove(job_id) =~= old(self).running());
                }
            }
        }
    }

    /// Derived report figures over a finished run: total node-seconds
    /// offered (`makespan` times total nodes), idle node-seconds, and the
    /// idle percentage. Yields nothing when the makespan or the cluster is
    /// empty, when the offered total overflows, or when more was consumed
    /// than offered.
    pub fn utilization(&self, makespan: Clock) -> (r: Option<(u64, u64, u64)>)
        ensures
            match r {
                Some(t) => {
                    &&& makespan > 0
                    &&& self.total_nodes > 0
                    &&& makespan * self.total_nodes <= u64::MAX
                    &&& self.used_resources <= makespan * self.total_nodes
                    &&& t.0 == makespan * self.total_nodes
                    &&& t.1 == t.0 - self.used_resources
                    &&& t.2 == (t.0 - self.used_resources) as int * 100 / t.0 as int
                },
                None => makespan == 0 || self.total_nodes == 0
                    || makespan * self.total_nodes > u64::MAX
                    || self.used_resources > makespan * self.total_nodes,
            },
    {
        if makespan == 0 || self.total_nodes == 0 {
            return None;
        }
        proof {
            assert(1 <= (makespan as int) * (self.total_nodes as int)
                && (makespan as int) * (self.total_nodes as int)
                    <= (u64::MAX as int) * (u32::MAX as int)) by (nonlinear_arith)
                requires
                    1 <= makespan <= u64::MAX,
                    1 <= self.total_nodes <= u32::MAX,
            ;
        }
        let wide: u128 = (makespan as u128) * (self.total_nodes as u128);
        if wide > u64::MAX as u128 {
            return None;
        }
        let total_res: u64 = wide as u64;
        if self.used_resources > total_res {
            return None;
        }
        let idle: u64 = total_res - self.used_resources;
        proof {
            assert((idle as int) * 100 / (total_res as int) <= 100) by (nonlinear_arith)
                requires
                    1 <= total_res,
                    0 <= idle <= total_res,
            ;
        }
        let idle_percent: u64 = ((idle as u128) * 100 / (total_res as u128)) as u64;
        Some((total_res, idle, idle_percent))
    }
}

} // verus!
