use vstd::prelude::*;
use vstd::multiset::Multiset;
use crate::Clock;
use crate::job::Job;
use crate::cluster::{Cluster, used_sum, lemma_used_sum_insert, lemma_used_sum_remove};
use crate::algos::Scheduler;

verus! {

broadcast use vstd::multiset::group_multiset_axioms, vstd::multiset::lemma_multiset_empty_len;

/// One timeline entry, encoded as a tuple of integers so the event heap
/// can order it: (time, kind, job id, nodes, actual run time, requested
/// run time). Kind 0 is a completion, kind 1 an arrival; completions sort
/// before arrivals at equal times, and ids break the remaining ties.
pub type EventRec = (u64, u8, u32, u32, u64, u64);

/// The timeline order on event records: lexicographic over the tuple.
pub open spec fn event_le(a: EventRec, b: EventRec) -> bool {
    ||| a.0 < b.0
    ||| (a.0 == b.0 && (a.1 < b.1 || (a.1 == b.1 && (a.2 < b.2 || (a.2 == b.2 && (a.3 < b.3 || (
    a.3 == b.3 && (a.4 < b.4 || (a.4 == b.4 && a.5 <= b.5)))))))))
}

/// The record announcing a job's arrival at its submit time.
pub open spec fn arrival_rec(j: Job) -> EventRec {
    (j.submit_time, 1u8, j.id, j.nodes, j.run_time, j.requested_run_time)
}

/// The record announcing a job's completion at `t`.
pub open spec fn completion_rec(t: Clock, id: u32) -> EventRec {
    (t, 0u8, id, 0u32, 0u64, 0u64)
}

/// The unscheduled job an arrival record carries.
pub open spec fn arrival_job(e: EventRec) -> Job {
    Job {
        id: e.2,
        nodes: e.3,
        submit_time: e.0,
        schedule_time: 0,
        requested_run_time: e.5,
        expected_end: 0,
        scheduled: false,
        run_time: e.4,
    }
}

/// What one job can add to the simulation clock and to the node-second
/// account: its actual run time, its requested run time, and its node
/// count times its actual run time.
pub open spec fn job_cost(j: Job) -> int {
    j.run_time + j.requested_run_time + j.nodes * j.run_time
}

/// `job_cost` of the job an arrival record carries.
pub open spec fn event_cost(e: EventRec) -> int {
    e.4 + e.5 + e.3 * e.4
}

/// Selects arrival events.
pub open spec fn arrival_filter() -> spec_fn(EventRec) -> bool {
    |e: EventRec| e.1 == 1
}

/// Selects completion events.
pub open spec fn completion_filter() -> spec_fn(EventRec) -> bool {
    |e: EventRec| e.1 == 0
}

/// One admission the engine performed: the job as it left the pending
/// queue, and the clock at which it started.
pub type Admission = (Job, u64);

/// An integer clipped to 64 bits, as the saturating totals report it.
pub open spec fn sat64(x: int) -> int {
    if x <= u64::MAX {
        x
    } else {
        u64::MAX as int
    }
}

/// The arrival records of the admitted jobs, as a multiset.
pub open spec fn log_arrivals(log: Seq<Admission>) -> Multiset<EventRec>
    decreases log.len(),
{
    if log.len() == 0 {
        Multiset::empty()
    } else {
        log_arrivals(log.drop_last()).insert(arrival_rec(log.last().0))
    }
}

/// The wait of each admitted job, in admission order: start minus submit.
pub open spec fn log_waits(log: Seq<Admission>) -> Seq<u64>
    decreases log.len(),
{
    if log.len() == 0 {
        Seq::empty()
    } else {
        log_waits(log.drop_last()).push((log.last().1 - log.last().0.submit_time) as u64)
    }
}

/// The completion time of each admitted job, in admission order.
pub open spec fn log_ends(log: Seq<Admission>) -> Seq<u64>
    decreases log.len(),
{
    if log.len() == 0 {
        Seq::empty()
    } else {
        log_ends(log.drop_last()).push((log.last().1 + log.last().0.run_time) as u64)
    }
}

/// Node-seconds of the admitted jobs: node count times actual run time.
pub open spec fn log_used(log: Seq<Admission>) -> int
    decreases log.len(),
{
    if log.len() == 0 {
        0
    } else {
        log_used(log.drop_last()) + log.last().0.nodes * log.last().0.run_time
    }
}

/// The log's derived sequences are as long as the log.
proof fn lemma_log_lens(log: Seq<Admission>)
    ensures
        log_waits(log).len() == log.len(),
        log_ends(log).len() == log.len(),
    decreases log.len(),
{
    if log.len() > 0 {
        lemma_log_lens(log.drop_last());
    }
}

/// Appending an admission appends its wait and end and adds its arrival.
proof fn lemma_log_push(log: Seq<Admission>, a: Admission)
    ensures
        log_arrivals(log.push(a)) == log_arrivals(log).insert(arrival_rec(a.0)),
        log_waits(log.push(a)) == log_waits(log).push((a.1 - a.0.submit_time) as u64),
        log_ends(log.push(a)) == log_ends(log).push((a.1 + a.0.run_time) as u64),
        log_used(log.push(a)) == log_used(log) + a.0.nodes * a.0.run_time,
{
    assert(log.push(a).drop_last() =~= log);
}

/// The arrival records of the jobs still pending, as a multiset.
pub open spec fn queue_arrivals(queue: Seq<Job>) -> Multiset<EventRec>
    decreases queue.len(),
{
    if queue.len() == 0 {
        Multiset::empty()
    } else {
        queue_arrivals(queue.drop_last()).insert(arrival_rec(queue.last()))
    }
}

/// Appending a pending job adds its arrival record.
proof fn lemma_queue_arrivals_push(q: Seq<Job>, j: Job)
    ensures
        queue_arrivals(q.push(j)) == queue_arrivals(q).insert(arrival_rec(j)),
{
    assert(q.push(j).drop_last() =~= q);
}

/// Every pending job's arrival record is in the queue's multiset.
proof fn lemma_queue_arrivals_contains(q: Seq<Job>, i: int)
    requires
        0 <= i < q.len(),
    ensures
        queue_arrivals(q).count(arrival_rec(q[i])) >= 1,
    decreases q.len(),
{
    if i < q.len() - 1 {
        lemma_queue_arrivals_contains(q.drop_last(), i);
    }
}

/// Removing a pending job removes exactly its arrival record.
proof fn lemma_queue_arrivals_remove(q: Seq<Job>, i: int)
    requires
        0 <= i < q.len(),
    ensures
        queue_arrivals(q.remove(i)) == queue_arrivals(q).remove(arrival_rec(q[i])),
    decreases q.len(),
{
    if i == q.len() - 1 {
        assert(q.remove(i) =~= q.drop_last());
        assert(queue_arrivals(q).remove(arrival_rec(q.last())) =~= queue_arrivals(q.drop_last()));
    } else {
        assert(q.remove(i).drop_last() =~= q.drop_last().remove(i));
        assert(q.remove(i).last() == q.last());
        lemma_queue_arrivals_remove(q.drop_last(), i);
        lemma_queue_arrivals_contains(q.drop_last(), i);
        assert(q.drop_last()[i] == q[i]);
        assert(queue_arrivals(q.drop_last()).remove(arrival_rec(q[i])).insert(
            arrival_rec(q.last()),
        ) =~= queue_arrivals(q.drop_last()).insert(arrival_rec(q.last())).remove(
            arrival_rec(q[i]),
        ));
    }
}

/// Every arrival occurs at most once and no two arrivals share a job id.
pub open spec fn distinct_arrival_ids(m: Multiset<EventRec>) -> bool {
    &&& (forall|e: EventRec| #[trigger] m.count(e) > 0 && e.1 == 1 ==> m.count(e) == 1)
    &&& (forall|e: EventRec, f: EventRec|
        #![trigger m.count(e), m.count(f)]
        m.count(e) > 0 && m.count(f) > 0 && e.1 == 1 && f.1 == 1 && e != f ==> e.2 != f.2)
}

/// What the event heap holds. The heap itself is opaque to the verifier;
/// the `heap_*` wrappers state what each call does to these contents.
pub uninterp spec fn heap_model(h: min_max_heap::MinMaxHeap<EventRec>) -> Multiset<EventRec>;

#[verifier::external_type_specification]
#[verifier::external_body]
#[verifier::reject_recursive_types(T)]
pub struct ExMinMaxHeap<T>(min_max_heap::MinMaxHeap<T>);

/// Relies on min_max_heap::MinMaxHeap::new: a new heap is empty.
#[verifier::external_body]
pub(crate) fn heap_new() -> (h: min_max_heap::MinMaxHeap<EventRec>)
    ensures
        heap_model(h) =~= Multiset::empty(),
{
    min_max_heap::MinMaxHeap::new()
}

/// Relies on min_max_heap::MinMaxHeap::push: the element is added.
#[verifier::external_body]
pub(crate) fn heap_push(h: &mut min_max_heap::MinMaxHeap<EventRec>, e: EventRec)
    ensures
        heap_model(*final(h)) == heap_model(*old(h)).insert(e),
{
    h.push(e);
}

/// Relies on min_max_heap::MinMaxHeap::is_empty.
#[verifier::external_body]
pub(crate) fn heap_is_empty(h: &min_max_heap::MinMaxHeap<EventRec>) -> (r: bool)
    ensures
        r == (heap_model(*h).len() == 0),
{
    h.is_empty()
}

/// Relies on min_max_heap::MinMaxHeap::pop_min: removes and returns a
/// least element, in the order std defines on tuples of integers.
#[verifier::external_body]
pub(crate) fn heap_pop_min(h: &mut min_max_heap::MinMaxHeap<EventRec>) -> (r: Option<EventRec>)
    ensures
        match r {
            Some(e) => heap_model(*old(h)).count(e) > 0 && heap_model(*final(h)) == heap_model(
                *old(h),
            ).remove(e) && (forall|f: EventRec|
                #[trigger] heap_model(*old(h)).count(f) > 0 ==> event_le(e, f)),
            None => heap_model(*old(h)).len() == 0 && heap_model(*final(h)) == heap_model(
                *old(h),
            ),
        },
{
    h.pop_min()
}

/// Relies on std::time::SystemTime::now: milliseconds since the Unix
/// epoch, as the platform clock reports them.
#[verifier::external_body]
fn now_millis() -> (r: u128) {
    match std::time::SystemTime::now().duration_since(std::time::UNIX_EPOCH) {
        Ok(d) => d.as_millis(),
        Err(_) => 0,
    }
}

/// How much diagnostic output a caller asked for.
#[derive(Clone, Copy, Debug, PartialEq, Eq, Structural)]
pub enum DebugLevel {
    Quiet,
    Info,
    Verbose,
}

impl DebugLevel {
    /// Numeric rank of the level: higher ranks print more.
    pub open spec fn spec_rank(&self) -> u8 {
        match self {
            DebugLevel::Quiet => 0,
            DebugLevel::Info => 1,
            DebugLevel::Verbose => 2,
        }
    }

    pub fn rank(&self) -> (r: u8)
        ensures
            r == self.spec_rank(),
    {
        match self {
            DebugLevel::Quiet => 0,
            DebugLevel::Info => 1,
            DebugLevel::Verbose => 2,
        }
    }

    /// Whether this level prints at least as much as `other`.
    pub fn at_least(&self, other: &DebugLevel) -> (r: bool)
        ensures
            r == (self.spec_rank() >= other.spec_rank()),
    {
        self.rank() >= other.rank()
    }
}

/// One timeline event as the engine consumes it.
pub enum Event {
    NewJob(Job),
    JobFinished(u32),
}

/// Rebuild the event an event record encodes.
fn event_of(e: EventRec) -> (ev: Event)
    requires
        e.1 == 0 || e.1 == 1,
    ensures
        e.1 == 1 ==> ev == Event::NewJob(arrival_job(e)),
        e.1 == 0 ==> ev == Event::JobFinished(e.2),
{
    if e.1 == 1 {
        Event::NewJob(Job::new(e.2, e.3, e.0, e.4, e.5))
    } else {
        Event::JobFinished(e.2)
    }
}

/// A failure while turning a workload source into job descriptors:
/// the source could not be read, or a record in it could not be parsed.
#[derive(Clone, Copy, Debug, PartialEq, Eq, Structural)]
pub enum EngineError {
    ReadError,
    ParseError,
}

impl EngineError {
    pub fn message(&self) -> (r: &'static str)
        ensures
            *self is ReadError ==> r@ == "unable to read the input file"@,
            *self is ParseError ==> r@ == "unable to parse the input file"@,
    {
        match self {
            EngineError::ReadError => "unable to read the input file",
            EngineError::ParseError => "unable to parse the input file",
        }
    }
}

/// The aggregate outcome of one run. All wait figures are in simulated
/// seconds; `avg_wait` rounds down; `idle_percent` is an integer
/// percentage rounded down; `time_took` is wall-clock milliseconds.
#[derive(Clone, Debug)]
pub struct EngineReport {
    pub scheduler_name: &'static str,
    pub makespan: Clock,
    pub total_completion_time: Clock,
    pub min_wait: Clock,
    pub max_wait: Clock,
    pub avg_wait: Clock,
    pub median_wait: Clock,
    pub total_wait: Clock,
    pub used_ressources: u64,
    pub idle: u64,
    pub idle_percent: u64,
    pub time_took: u128,
}

/// Sum of a sequence of waits or completion times, as an unbounded integer.
pub open spec fn seq_sum(s: Seq<u64>) -> int
    decreases s.len(),
{
    if s.len() == 0 {
        0
    } else {
        seq_sum(s.drop_last()) + s.last()
    }
}

/// Sum a vector of times, saturating at the largest 64-bit value.
fn sum_saturating(v: &Vec<u64>) -> (r: u64)
    ensures
        r as int == if seq_sum(v@) <= u64::MAX {
            seq_sum(v@)
        } else {
            u64::MAX as int
        },
{
    let mut acc: u64 = 0;
    let mut i: usize = 0;
    while i < v.len()
        invariant
            i <= v@.len(),
            acc as int == if seq_sum(v@.take(i as int)) <= u64::MAX {
                seq_sum(v@.take(i as int))
            } else {
                u64::MAX as int
            },
        decreases v@.len() - i,
    {
        proof {
            assert(v@.take(i as int + 1).drop_last() =~= v@.take(i as int));
        }
        if acc > u64::MAX - v[i] {
            acc = u64::MAX;
        } else {
            acc = acc + v[i];
        }
        i += 1;
    }
    proof {
        assert(v@.take(v@.len() as int) =~= v@);
    }
    acc
}

/// All waits ordered ascending.
pub open spec fn sorted_u64(s: Seq<u64>) -> bool {
    forall|i: int, j: int| 0 <= i < j < s.len() ==> s[i] <= s[j]
}

/// Swapping two positions leaves a sequence's multiset unchanged.
proof fn lemma_swap_multiset(s: Seq<u64>, s2: Seq<u64>, i: int, j: int)
    requires
        0 <= i < j < s.len(),
        s2 == s.update(i, s[j]).update(j, s[i]),
    ensures
        s2.to_multiset() == s.to_multiset(),
{
    broadcast use vstd::seq_lib::group_to_multiset_ensures;

    let t = s.update(i, s[j]);
    assert(t.remove(i) =~= s.remove(i));
    assert(t.to_multiset().remove(t[i]) == t.remove(i).to_multiset());
    assert(s.to_multiset().remove(s[i]) == s.remove(i).to_multiset());
    assert(t.to_multiset() =~= s.to_multiset().remove(s[i]).insert(s[j]));
    assert(s2.remove(j) =~= t.remove(j));
    assert(s2.to_multiset().remove(s2[j]) == s2.remove(j).to_multiset());
    assert(t.to_multiset().remove(t[j]) == t.remove(j).to_multiset());
    assert(s2.to_multiset() =~= t.to_multiset().remove(t[j]).insert(s[i]));
    assert(s2.to_multiset() =~= s.to_multiset());
}

/// Sort waits ascending; the collection of values is unchanged.
fn sort_u64(v: &mut Vec<u64>)
    ensures
        sorted_u64(final(v)@),
        final(v)@.to_multiset() == old(v)@.to_multiset(),
        final(v)@.len() == old(v)@.len(),
{
    proof {
        broadcast use vstd::seq_lib::group_to_multiset_ensures;
    }
    let mut i: usize = 0;
    while i < v.len()
        invariant
            i <= v@.len(),
            v@.len() == old(v)@.len(),
            v@.to_multiset() == old(v)@.to_multiset(),
            forall|a: int, b: int| 0 <= a < b < v@.len() && a < i ==> v@[a] <= v@[b],
        decreases v@.len() - i,
    {
        let mut mi: usize = i;
        let mut k: usize = i + 1;
        while k < v.len()
            invariant
                i <= mi < v@.len(),
                i < k <= v@.len(),
                forall|t: int| i <= t < k ==> v@[mi as int] <= v@[t],
            decreases v@.len() - k,
        {
            if v[k] < v[mi] {
                mi = k;
            }
            k += 1;
        }
        if mi != i {
            let gs = Ghost(v@);
            let a = v[i];
            let b = v[mi];
            v.set(i, b);
            v.set(mi, a);
            proof {
                lemma_swap_multiset(gs@, v@, i as int, mi as int);
            }
        }
        i += 1;
    }
}

/// The arrival records of a job sequence, as a multiset.
pub open spec fn arrivals_of(jobs: Seq<Job>) -> Multiset<EventRec>
    decreases jobs.len(),
{
    if jobs.len() == 0 {
        Multiset::empty()
    } else {
        arrivals_of(jobs.drop_last()).insert(arrival_rec(jobs.last()))
    }
}

/// The largest submit time in a trace (zero when the trace is empty).
pub open spec fn seq_max_submit(jobs: Seq<Job>) -> int
    decreases jobs.len(),
{
    if jobs.len() == 0 {
        0
    } else {
        let rest = seq_max_submit(jobs.drop_last());
        if jobs.last().submit_time >= rest {
            jobs.last().submit_time as int
        } else {
            rest
        }
    }
}

/// The largest per-job cost in a trace (zero when the trace is empty).
pub open spec fn seq_max_cost(jobs: Seq<Job>) -> int
    decreases jobs.len(),
{
    if jobs.len() == 0 {
        0
    } else {
        let rest = seq_max_cost(jobs.drop_last());
        if job_cost(jobs.last()) >= rest {
            job_cost(jobs.last())
        } else {
            rest
        }
    }
}

/// The whole simulation stays within 64-bit accounting: every submit time,
/// plus the trace's length times any job's cost, fits. This is the machine
/// limit under which no clock or node-second arithmetic can overflow.
pub open spec fn trace_bounded(jobs: Seq<Job>) -> bool {
    forall|i: int, k: int|
        #![trigger jobs[i], jobs[k]]
        0 <= i < jobs.len() && 0 <= k < jobs.len() ==> jobs[i].submit_time + jobs.len() * job_cost(
            jobs[k],
        ) <= u64::MAX && jobs[i].submit_time + jobs.len() * job_cost(jobs[i]) <= u64::MAX
}

/// A bounded trace admits a budget: a time bound at least every submit
/// time and a cost bound at least every job cost, with headroom for the
/// whole run.
proof fn lemma_budget(jobs: Seq<Job>)
    requires
        trace_bounded(jobs),
    ensures
        0 <= seq_max_submit(jobs),
        0 <= seq_max_cost(jobs),
        forall|i: int|
            0 <= i < jobs.len() ==> #[trigger] jobs[i].submit_time <= seq_max_submit(jobs)
                && job_cost(jobs[i]) <= seq_max_cost(jobs),
        seq_max_submit(jobs) + jobs.len() * seq_max_cost(jobs) <= u64::MAX,
    decreases jobs.len(),
{
    if jobs.len() == 0 {
    } else {
        let prefix = jobs.drop_last();
        assert forall|i: int, k: int|
            #![trigger prefix[i], prefix[k]]
            0 <= i < prefix.len() && 0 <= k < prefix.len() implies prefix[i].submit_time
            + prefix.len() * job_cost(prefix[k]) <= u64::MAX && prefix[i].submit_time
            + prefix.len() * job_cost(prefix[i]) <= u64::MAX by {
            assert(prefix[i] == jobs[i]);
            assert(prefix[k] == jobs[k]);
            assert(job_cost(jobs[k]) >= 0) by (nonlinear_arith);
            assert(job_cost(jobs[i]) >= 0) by (nonlinear_arith);
            assert(prefix[i].submit_time + prefix.len() * job_cost(prefix[k]) <= u64::MAX) by (
            nonlinear_arith)
                requires
                    jobs[i].submit_time + jobs.len() * job_cost(jobs[k]) <= u64::MAX,
                    prefix[i] == jobs[i],
                    prefix[k] == jobs[k],
                    prefix.len() <= jobs.len(),
                    job_cost(jobs[k]) >= 0,
            ;
            assert(prefix[i].submit_time + prefix.len() * job_cost(prefix[i]) <= u64::MAX) by (
            nonlinear_arith)
                requires
                    jobs[i].submit_time + jobs.len() * job_cost(jobs[i]) <= u64::MAX,
                    prefix[i] == jobs[i],
                    prefix.len() <= jobs.len(),
                    job_cost(jobs[i]) >= 0,
            ;
        }
        lemma_budget(prefix);
        let ms = seq_max_submit(jobs);
        let mc = seq_max_cost(jobs);
        assert forall|i: int|
            0 <= i < jobs.len() implies jobs[i].submit_time <= ms && job_cost(jobs[i]) <= mc by {
            if i < jobs.len() - 1 {
                assert(jobs[i] == prefix[i]);
                assert(prefix[i].submit_time <= seq_max_submit(prefix));
                assert(job_cost(prefix[i]) <= seq_max_cost(prefix));
            }
        }
        // The maxima are attained (or zero with an empty rest), so the
        // pairwise bound instantiates to the combined budget.
        assert(forall|i: int| 0 <= i < prefix.len() ==> #[trigger] prefix[i] == jobs[i]);
        if jobs.len() == 1 {
            assert(ms == jobs[0].submit_time || ms == 0);
            assert(mc == job_cost(jobs[0]) || mc == 0);
        }
        lemma_max_attained(jobs);
        assert(job_cost(jobs.last()) >= 0) by (nonlinear_arith);
        if ms + jobs.len() * mc > u64::MAX {
            let i0 = choose|i: int| 0 <= i < jobs.len() && ms == jobs[i].submit_time;
            let k0 = choose|k: int| 0 <= k < jobs.len() && mc == job_cost(jobs[k]);
            assert(jobs[i0].submit_time + jobs.len() * job_cost(jobs[k0]) <= u64::MAX);
        }
    }
}

/// A nonempty trace attains its maxima; `job_cost` is never negative.
proof fn lemma_max_attained(jobs: Seq<Job>)
    requires
        jobs.len() > 0,
    ensures
        exists|i: int| 0 <= i < jobs.len() && seq_max_submit(jobs) == jobs[i].submit_time,
        exists|k: int| 0 <= k < jobs.len() && seq_max_cost(jobs) == job_cost(jobs[k]),
    decreases jobs.len(),
{
    let prefix = jobs.drop_last();
    if jobs.len() == 1 {
        assert(seq_max_submit(prefix) == 0 && seq_max_cost(prefix) == 0);
        assert(jobs.last().submit_time >= 0);
        assert(job_cost(jobs.last()) >= 0) by (nonlinear_arith);
        assert(seq_max_submit(jobs) == jobs[0].submit_time);
        assert(seq_max_cost(jobs) == job_cost(jobs[0]));
    } else {
        lemma_max_attained(prefix);
        if seq_max_submit(jobs) == jobs.last().submit_time {
            assert(seq_max_submit(jobs) == jobs[jobs.len() - 1].submit_time);
        } else {
            let i0 = choose|i: int|
                0 <= i < prefix.len() && seq_max_submit(prefix) == prefix[i].submit_time;
            assert(seq_max_submit(jobs) == jobs[i0].submit_time);
        }
        if seq_max_cost(jobs) == job_cost(jobs.last()) {
            assert(seq_max_cost(jobs) == job_cost(jobs[jobs.len() - 1]));
        } else {
            let k0 = choose|k: int|
                0 <= k < prefix.len() && seq_max_cost(prefix) == job_cost(prefix[k]);
            assert(seq_max_cost(jobs) == job_cost(jobs[k0]));
        }
    }
}

/// Inserting into a multiset grows a filtered count by one exactly when
/// the element passes the filter.
proof fn lemma_filter_len_insert(s: Multiset<EventRec>, e: EventRec, f: spec_fn(EventRec) -> bool)
    ensures
        s.insert(e).filter(f).len() == s.filter(f).len() + if f(e) {
            1int
        } else {
            0int
        },
        s.insert(e).filter(f) == if f(e) {
            s.filter(f).insert(e)
        } else {
            s.filter(f)
        },
{
    if f(e) {
        assert(s.insert(e).filter(f) =~= s.filter(f).insert(e));
    } else {
        assert(s.insert(e).filter(f) =~= s.filter(f));
    }
}

/// Removing a present element shrinks a filtered count by one exactly
/// when the element passes the filter.
proof fn lemma_filter_len_remove(s: Multiset<EventRec>, e: EventRec, f: spec_fn(EventRec) -> bool)
    requires
        s.count(e) > 0,
    ensures
        s.remove(e).filter(f).len() == s.filter(f).len() - if f(e) {
            1int
        } else {
            0int
        },
        s.remove(e).filter(f) == if f(e) {
            s.filter(f).remove(e)
        } else {
            s.filter(f)
        },
{
    if f(e) {
        assert(s.remove(e).filter(f) =~= s.filter(f).remove(e));
        assert(s.filter(f) =~= s.filter(f).remove(e).insert(e));
    } else {
        assert(s.remove(e).filter(f) =~= s.filter(f));
    }
}

/// The simulation engine: one scheduling policy, one cluster, the event
/// timeline and the simulation clock.
pub struct Engine<S: Scheduler> {
    pub debug: DebugLevel,
    pub scheduler: S,
    pub cluster: Cluster,
    pub events: min_max_heap::MinMaxHeap<EventRec>,
    pub clock: Clock,
}

impl<S: Scheduler> Engine<S> {
    /// The pending events, as a multiset of records.
    pub open spec fn events_model(&self) -> Multiset<EventRec> {
        heap_model(self.events)
    }

    /// How many arrival events are pending.
    pub open spec fn n_arrivals(&self) -> nat {
        self.events_model().filter(arrival_filter()).len()
    }

    /// How many completion events are pending.
    pub open spec fn n_completions(&self) -> nat {
        self.events_model().filter(completion_filter()).len()
    }

    /// Every pending event is a completion or an arrival, none lies before
    /// the clock, and every arrival carries a job that fits the cluster.
    pub open spec fn events_wf(&self) -> bool {
        forall|e: EventRec|
            #[trigger] self.events_model().count(e) > 0 ==> (e.1 == 0 || e.1 == 1) && self.clock
                <= e.0 && (e.1 == 1 ==> 1 <= e.3 <= self.cluster.total_nodes)
    }

    /// Every running job still has a completion event pending.
    pub open spec fn completions_pending(&self) -> bool {
        forall|id: u32|
            #[trigger] self.cluster.running().dom().contains(id) ==> exists|e: EventRec|
                #[trigger] self.events_model().count(e) > 0 && e.1 == 0 && e.2 == id
    }

    /// The arithmetic budget: `m` bounds the clock and all event times,
    /// `c` bounds the cost of every outstanding job, and enough headroom
    /// remains that no clock or node-second arithmetic can overflow.
    pub open spec fn inv_bounded(&self, queue: Seq<Job>, m: int, c: int) -> bool {
        &&& 0 <= self.clock <= m
        &&& 0 <= c
        &&& (forall|e: EventRec|
            #[trigger] self.events_model().count(e) > 0 ==> e.0 <= m && (e.1 == 1 ==> event_cost(e)
                <= c))
        &&& (forall|i: int| 0 <= i < queue.len() ==> job_cost(#[trigger] queue[i]) <= c)
        &&& (forall|id: u32|
            #[trigger] self.cluster.running().dom().contains(id) ==> self.cluster.running()[id].0
                * self.cluster.running()[id].1 <= c)
        &&& m + (self.n_arrivals() + queue.len()) * c <= u64::MAX
        &&& self.cluster.used_resources + (self.n_arrivals() + queue.len()
            + self.cluster.running().dom().len()) * c <= u64::MAX
    }

    /// Every pending job arrived already, fits the cluster, and is not yet
    /// scheduled; the queue keeps arrival order, so submit times never
    /// decrease along it.
    pub open spec fn queue_wf(&self, queue: Seq<Job>) -> bool {
        &&& (forall|i: int|
            0 <= i < queue.len() ==> !(#[trigger] queue[i]).scheduled && 1 <= queue[i].nodes
                <= self.cluster.total_nodes && queue[i].submit_time <= self.clock)
        &&& (forall|i: int, j: int|
            0 <= i < j < queue.len() ==> queue[i].submit_time <= queue[j].submit_time)
    }

    /// The engine invariant between steps.
    pub open spec fn wf(&self) -> bool {
        &&& self.cluster.wf()
        &&& self.events_wf()
        &&& self.completions_pending()
        &&& exists|m: int, c: int| self.inv_bounded(Seq::empty(), m, c)
    }

    /// Build an engine over a cluster of `available_nodes` nodes, seeding
    /// one arrival event per job descriptor. The loader guarantees that
    /// every descriptor fits the cluster and is unscheduled; the trace
    /// bound is the machine limit under which the run cannot overflow.
    pub fn new(scheduler: S, available_nodes: u32, jobs: Vec<Job>, debug: DebugLevel) -> (e: Engine<
        S,
    >)
        requires
            forall|i: int|
                0 <= i < jobs@.len() ==> 1 <= (#[trigger] jobs@[i]).nodes <= available_nodes && !(
                jobs@[i]).scheduled,
            trace_bounded(jobs@),
        ensures
            e.wf(),
            e.clock == 0,
            e.debug == debug,
            e.scheduler == scheduler,
            e.cluster.total_nodes == available_nodes,
            e.cluster.available_nodes == available_nodes,
            e.cluster.used_resources == 0,
            e.cluster.running() =~= Map::empty(),
            e.events_model() == arrivals_of(jobs@),
            e.n_arrivals() == jobs@.len(),
    {
        proof {
            lemma_budget(jobs@);
        }
        let ghost m = seq_max_submit(jobs@);
        let ghost c = seq_max_cost(jobs@);
        let mut events = heap_new();
        proof {
            assert(Multiset::<EventRec>::empty().filter(arrival_filter()) =~= Multiset::empty());
        }
        let mut i: usize = 0;
        while i < jobs.len()
            invariant
                i <= jobs@.len(),
                forall|k: int|
                    0 <= k < jobs@.len() ==> 1 <= (#[trigger] jobs@[k]).nodes <= available_nodes
                        && !(jobs@[k]).scheduled,
                forall|k: int|
                    0 <= k < jobs@.len() ==> (#[trigger] jobs@[k]).submit_time <= m && job_cost(
                        jobs@[k],
                    ) <= c,
                0 <= m,
                0 <= c,
                m + jobs@.len() * c <= u64::MAX,
                heap_model(events) == arrivals_of(jobs@.take(i as int)),
                heap_model(events).filter(arrival_filter()).len() == i,
                forall|e: EventRec|
                    #[trigger] heap_model(events).count(e) > 0 ==> e.1 == 1 && e.0 <= m
                        && event_cost(e) <= c && 1 <= e.3 <= available_nodes,
            decreases jobs@.len() - i,
        {
            let rec = (
                jobs[i].submit_time,
                1u8,
                jobs[i].id,
                jobs[i].nodes,
                jobs[i].run_time,
                jobs[i].requested_run_time,
            );
            proof {
                assert(rec == arrival_rec(jobs@[i as int]));
                assert(event_cost(rec) == job_cost(jobs@[i as int]));
                lemma_filter_len_insert(heap_model(events), rec, arrival_filter());
            }
            heap_push(&mut events, rec);
            proof {
                assert(jobs@.take(i as int + 1).drop_last() =~= jobs@.take(i as int));
                assert(jobs@.take(i as int + 1).last() == jobs@[i as int]);
            }
            i += 1;
        }
        proof {
            assert(jobs@.take(jobs@.len() as int) =~= jobs@);
        }
        let e = Engine { debug, scheduler, cluster: Cluster::new(available_nodes), events, clock: 0 };
        proof {
            assert(e.inv_bounded(Seq::empty(), m, c)) by {
                assert((e.n_arrivals() + Seq::<Job>::empty().len()) * c == jobs@.len() * c);
                assert(e.cluster.running().dom() =~= Set::empty());
            }
        }
        e
    }

    /// No live job id occurs twice: pending arrivals are pairwise distinct,
    /// so are the pending queue and the running set, and the three are
    /// mutually disjoint.
    pub open spec fn ids_wf(&self, queue: Seq<Job>) -> bool {
        &&& distinct_arrival_ids(self.events_model())
        &&& (forall|i: int, j: int| 0 <= i < j < queue.len() ==> queue[i].id != queue[j].id)
        &&& (forall|e: EventRec, i: int|
            #![trigger self.events_model().count(e), queue[i]]
            self.events_model().count(e) > 0 && e.1 == 1 && 0 <= i < queue.len() ==> e.2
                != queue[i].id)
        &&& (forall|id: u32|
            #[trigger] self.cluster.running().dom().contains(id) ==> (forall|i: int|
                0 <= i < queue.len() ==> (#[trigger] queue[i]).id != id) && (forall|e: EventRec|
                #[trigger] self.events_model().count(e) > 0 && e.1 == 1 ==> e.2 != id))
    }

    /// What one run did, stated as a log of admissions in admission order.
    /// The log admits every arrival of the starting timeline exactly once,
    /// each at or after its submit time, completing by the final clock.
    /// When a report comes back, its wait and completion figures are
    /// exactly the log's: saturating totals and the floor mean in
    /// admission order, and the extremes and median over the waits in
    /// sorted order.
    pub open spec fn run_log_ok(
        &self,
        post: &Engine<S>,
        log: Seq<Admission>,
        r: Option<EngineReport>,
    ) -> bool {
        &&& log_arrivals(log) == self.events_model().filter(arrival_filter())
        &&& (forall|k: int|
            0 <= k < log.len() ==> (#[trigger] log[k]).0.submit_time <= log[k].1 && log[k].1
                + log[k].0.run_time <= post.clock && !log[k].0.scheduled)
        &&& (distinct_arrival_ids(self.events_model()) && self.cluster.running() =~= Map::empty()
            ==> post.cluster.used_resources == self.cluster.used_resources + log_used(log))
        &&& match r {
            Some(rep) => {
                &&& log.len() > 0
                &&& rep.total_wait == sat64(seq_sum(log_waits(log)))
                &&& rep.total_completion_time == sat64(seq_sum(log_ends(log)))
                &&& rep.avg_wait == rep.total_wait / (log.len() as u64)
                &&& (exists|ws: Seq<u64>|
                    #![trigger sorted_u64(ws)]
                    sorted_u64(ws) && ws.to_multiset() == log_waits(log).to_multiset() && ws.len()
                        == log.len() && rep.min_wait == ws[0] && rep.max_wait == ws[ws.len() - 1]
                        && rep.median_wait == ws[ws.len() as int / 2])
            },
            None => true,
        }
    }

    /// Drive the simulation to completion: repeatedly let the policy admit
    /// pending jobs, then advance the clock to the next event. Terminates
    /// with the timeline and the pending queue drained and every node back
    /// in the available pool. Yields the aggregate report, or nothing when
    /// no job was ever pending, the makespan is zero, or the offered
    /// node-seconds overflow 64 bits or fall short of the consumed ones.
    pub fn run(&mut self) -> (r: Option<EngineReport>)
        requires
            old(self).wf(),
        ensures
            final(self).wf(),
            final(self).clock >= old(self).clock,
            final(self).events_model().len() == 0,
            final(self).cluster.available_nodes == final(self).cluster.total_nodes,
            final(self).cluster.total_nodes == old(self).cluster.total_nodes,
            forall|e: EventRec|
                #[trigger] old(self).events_model().count(e) > 0 ==> e.0 <= final(self).clock,
            exists|log: Seq<Admission>| #[trigger] old(self).run_log_ok(final(self), log, r),
            (r is Some) <==> (old(self).n_arrivals() > 0 && final(self).clock > 0
                && final(self).cluster.total_nodes > 0
                && final(self).clock * final(self).cluster.total_nodes <= u64::MAX
                && final(self).cluster.used_resources
                    <= final(self).clock * final(self).cluster.total_nodes),
            match r {
                Some(rep) => rep.makespan == final(self).clock
                    && rep.used_ressources == final(self).cluster.used_resources
                    && rep.idle
                        == final(self).clock * final(self).cluster.total_nodes
                        - final(self).cluster.used_resources
                    && rep.idle_percent
                        == rep.idle as int * 100
                        / (final(self).clock * final(self).cluster.total_nodes)
                    && rep.min_wait <= rep.median_wait
                    && rep.median_wait <= rep.max_wait,
                None => true,
            },
    {
        let start = now_millis();
        let mut queue: Vec<Job> = Vec::new();
        let mut wait_times: Vec<u64> = Vec::new();
        let mut completion_times: Vec<u64> = Vec::new();
        let ghost (m0, c): (int, int) = choose|m: int, c: int|
            self.inv_bounded(Seq::empty(), m, c);
        let ghost mut m = m0;
        let ghost n0 = self.n_arrivals();
        let ghost mut log: Seq<Admission> = Seq::empty();
        proof {
            assert(queue@ =~= Seq::<Job>::empty());
            assert(log_waits(log) =~= Seq::<u64>::empty());
            assert(log_ends(log) =~= Seq::<u64>::empty());
            assert(old(self).events_model().filter(arrival_filter()) =~= log_arrivals(log).add(
                self.events_model().filter(arrival_filter()),
            ).add(queue_arrivals(queue@)));
            if old(self).cluster.running() =~= Map::empty() {
                assert(self.cluster.running().dom() =~= Set::empty());
                assert(used_sum(self.cluster.running()) == 0);
            }
        }
        while !heap_is_empty(&self.events) || queue.len() > 0
            invariant
                self.cluster.wf(),
                self.events_wf(),
                self.completions_pending(),
                self.queue_wf(queue@),
                self.inv_bounded(queue@, m, c),
                self.cluster.total_nodes == old(self).cluster.total_nodes,
                old(self).clock <= self.clock,
                wait_times@.len() + self.n_arrivals() + queue@.len() == n0,
                wait_times@ == log_waits(log),
                completion_times@ == log_ends(log),
                old(self).events_model().filter(arrival_filter()) == log_arrivals(log).add(
                    self.events_model().filter(arrival_filter()),
                ).add(queue_arrivals(queue@)),
                forall|k: int|
                    0 <= k < log.len() ==> (#[trigger] log[k]).0.submit_time <= log[k].1
                        && !log[k].0.scheduled && log[k].1 + log[k].0.run_time <= u64::MAX,
                forall|k: int|
                    0 <= k < log.len() ==> (#[trigger] log[k]).1 + log[k].0.run_time <= self.clock
                        || self.events_model().count(
                        completion_rec((log[k].1 + log[k].0.run_time) as u64, log[k].0.id),
                    ) > 0,
                forall|e: EventRec|
                    #[trigger] old(self).events_model().count(e) > 0 ==> e.0 <= self.clock
                        || self.events_model().count(e) > 0,
                distinct_arrival_ids(old(self).events_model()) && old(self).cluster.running()
                    =~= Map::empty() ==> self.ids_wf(queue@) && self.cluster.used_resources
                    + used_sum(self.cluster.running()) == old(self).cluster.used_resources
                    + log_used(log),
            decreases 3 * self.n_arrivals() + 2 * queue@.len() + self.n_completions(),
        {
            let ghost arr_at_start = self.n_arrivals();
            let ghost comp_at_start = self.n_completions();
            let ghost q_at_start = queue@.len();
            let mut draining = true;
            while draining && queue.len() > 0
                invariant
                    self.cluster.wf(),
                    self.events_wf(),
                    self.completions_pending(),
                    self.queue_wf(queue@),
                    self.inv_bounded(queue@, m, c),
                    self.cluster.total_nodes == old(self).cluster.total_nodes,
                    old(self).clock <= self.clock,
                    wait_times@.len() + self.n_arrivals() + queue@.len() == n0,
                    wait_times@ == log_waits(log),
                    completion_times@ == log_ends(log),
                    old(self).events_model().filter(arrival_filter()) == log_arrivals(log).add(
                        self.events_model().filter(arrival_filter()),
                    ).add(queue_arrivals(queue@)),
                    forall|k: int|
                        0 <= k < log.len() ==> (#[trigger] log[k]).0.submit_time <= log[k].1
                            && !log[k].0.scheduled && log[k].1 + log[k].0.run_time <= u64::MAX,
                    forall|k: int|
                        0 <= k < log.len() ==> (#[trigger] log[k]).1 + log[k].0.run_time <= self.clock
                            || self.events_model().count(
                            completion_rec((log[k].1 + log[k].0.run_time) as u64, log[k].0.id),
                        ) > 0,
                    forall|e: EventRec|
                        #[trigger] old(self).events_model().count(e) > 0 ==> e.0 <= self.clock
                            || self.events_model().count(e) > 0,
                    distinct_arrival_ids(old(self).events_model()) && old(self).cluster.running()
                        =~= Map::empty() ==> self.ids_wf(queue@) && self.cluster.used_resources
                        + used_sum(self.cluster.running()) == old(self).cluster.used_resources
                        + log_used(log),
                    self.n_arrivals() == arr_at_start,
                    self.n_completions() + queue@.len() == comp_at_start + q_at_start,
                    queue@.len() <= q_at_start,
                    !draining && queue@.len() > 0 ==> queue@[0].nodes
                        > self.cluster.available_nodes,
                decreases queue@.len() + (if draining { 1int } else { 0int }),
            {
                match self.scheduler.schedule(self.clock, &queue, &self.cluster) {
                    Some(index) => {
                        let ghost old_queue = queue@;
                        let ghost na = self.n_arrivals();
                        let ghost m_old = m;
                        let job = queue.remove(index);
                        proof {
                            assert(job == old_queue[index as int]);
                            assert forall|i: int| 0 <= i < queue@.len() implies job_cost(
                                #[trigger] queue@[i],
                            ) <= c && !queue@[i].scheduled && 1 <= queue@[i].nodes
                                <= self.cluster.total_nodes && queue@[i].submit_time
                                <= self.clock by {
                                assert(queue@[i] == old_queue[i] || queue@[i] == old_queue[i + 1]);
                            }
                            assert(job.nodes * job.run_time >= 0) by (nonlinear_arith);
                            assert(job_cost(job) <= c);
                            assert((na + old_queue.len()) * c >= 1 * c) by (nonlinear_arith)
                                requires
                                    na + old_queue.len() >= 1,
                                    c >= 0,
                            ;
                            assert(self.clock + job.run_time <= m_old + c);
                            assert(self.clock + job.requested_run_time <= m_old + c);
                        }
                        let end_time = self.clock + job.run_time;
                        wait_times.push(job.wait_time_from(self.clock));
                        completion_times.push(end_time);
                        let rec = (end_time, 0u8, job.id, 0u32, 0u64, 0u64);
                        let ghost pre_push = self.events_model();
                        proof {
                            lemma_filter_len_insert(pre_push, rec, arrival_filter());
                            lemma_filter_len_insert(pre_push, rec, completion_filter());
                        }
                        heap_push(&mut self.events, rec);
                        proof {
                            assert(self.events_model().count(rec) == pre_push.count(rec) + 1);
                            assert(self.n_arrivals() == na);
                            if end_time as int > m {
                                m = end_time as int;
                            }
                            assert(m <= m_old + c);
                            assert((na + queue@.len() + 1) * c == (na + queue@.len()) * c + c) by (
                            nonlinear_arith);
                            assert(m + (na + queue@.len()) * c <= u64::MAX);
                            // Record the admission in the ghost log.
                            lemma_queue_arrivals_contains(old_queue, index as int);
                            lemma_queue_arrivals_remove(old_queue, index as int);
                            lemma_log_push(log, (job, self.clock));
                            log = log.push((job, self.clock));
                            assert(wait_times@ == log_waits(log));
                            assert(completion_times@ == log_ends(log));
                            assert(rec == completion_rec(end_time, job.id));
                            assert(self.events_model().count(rec) > 0);
                            assert(old(self).events_model().filter(arrival_filter())
                                =~= log_arrivals(log).add(
                                self.events_model().filter(arrival_filter()),
                            ).add(queue_arrivals(queue@)));
                        }
                        let ghost pre_running = self.cluster.running();
                        let ghost pre_used = self.cluster.used_resources;
                        let ghost jobg: Job = job;
                        proof {
                            assert(pre_used + (na + old_queue.len() + pre_running.dom().len()) * c
                                <= u64::MAX);
                        }
                        let admitted = self.cluster.schedule_job(job, self.clock);
                        proof {
                            assert(self.events_model().count(rec) > 0);
                            if admitted {
                                assert(self.cluster.running() == pre_running.insert(
                                    job.id,
                                    (job.nodes, job.run_time, job.requested_run_time, (self.clock
                                        + job.requested_run_time) as u64),
                                ));
                                assert(self.cluster.running().dom() =~= pre_running.dom().insert(
                                    job.id,
                                ));
                                assert(self.cluster.running().dom().len() == pre_running.dom().len()
                                    + 1);
                                assert(self.cluster.running()[job.id].0
                                    * self.cluster.running()[job.id].1 <= job_cost(job));
                            } else {
                                assert(self.cluster.running() == pre_running);
                            }
                            // Every running job still has a pending completion.
                            assert forall|id: u32|
                                #[trigger] self.cluster.running().dom().contains(id) implies (
                            exists|e: EventRec|
                                #[trigger] self.events_model().count(e) > 0 && e.1 == 0 && e.2
                                    == id) by {
                                if id == job.id && admitted {
                                    assert(self.events_model().count(rec) > 0 && rec.1 == 0
                                        && rec.2 == id);
                                } else {
                                    assert(pre_running.dom().contains(id));
                                    let e0 = choose|e: EventRec|
                                        #[trigger] pre_push.count(e) > 0 && e.1 == 0 && e.2 == id;
                                    assert(self.events_model().count(e0) > 0);
                                }
                            }
                            // The node-second budget still holds.
                            let live = na + queue@.len() + self.cluster.running().dom().len();
                            if distinct_arrival_ids(old(self).events_model()) && old(
                                self,
                            ).cluster.running() =~= Map::empty() {
                                // Under distinct ids the admission cannot
                                // have been refused, and the node-second
                                // account follows the log.
                                if pre_running.dom().contains(jobg.id) {
                                    assert(old_queue[index as int].id != jobg.id);
                                }
                                assert(admitted);
                                lemma_used_sum_insert(
                                    pre_running,
                                    jobg.id,
                                    (jobg.nodes, jobg.run_time, jobg.requested_run_time, (
                                    self.clock + jobg.requested_run_time) as u64),
                                );
                                assert forall|e: EventRec|
                                    #[trigger] self.events_model().count(e) > 0 && e.1
                                        == 1 implies self.events_model().count(e) == 1 && e.2
                                    != jobg.id by {
                                    assert(e != rec);
                                    assert(pre_push.count(e) == self.events_model().count(e));
                                    assert(old_queue[index as int] == jobg);
                                }
                                assert forall|id: u32|
                                    #[trigger] self.cluster.running().dom().contains(
                                        id,
                                    ) implies (forall|i: int|
                                    0 <= i < queue@.len() ==> (#[trigger] queue@[i]).id != id) && (
                                forall|e: EventRec|
                                    #[trigger] self.events_model().count(e) > 0 && e.1 == 1
                                        ==> e.2 != id) by {
                                    if id == jobg.id {
                                        assert forall|i: int|
                                            0 <= i < queue@.len() implies (#[trigger] queue@[i]).id
                                            != id by {
                                            assert(queue@[i] == old_queue[i] || queue@[i]
                                                == old_queue[i + 1]);
                                        }
                                    } else {
                                        assert(pre_running.dom().contains(id));
                                        assert forall|i: int|
                                            0 <= i < queue@.len() implies (#[trigger] queue@[i]).id
                                            != id by {
                                            assert(queue@[i] == old_queue[i] || queue@[i]
                                                == old_queue[i + 1]);
                                        }
                                    }
                                }
                                assert(self.ids_wf(queue@));
                            }
                            if admitted {
                                assert(pre_used + (na + old_queue.len()
                                    + pre_running.dom().len()) * c <= u64::MAX);
                                assert(live == na + old_queue.len() + pre_running.dom().len());
                                assert(pre_used + live * c <= u64::MAX);
                            } else {
                                assert(self.cluster.running().dom().len()
                                    == pre_running.dom().len());
                                assert(queue@.len() + 1 == old_queue.len());
                                assert(pre_used + live * c <= u64::MAX) by (nonlinear_arith)
                                    requires
                                        pre_used + (na + old_queue.len()
                                            + pre_running.dom().len()) * c <= u64::MAX,
                                        live + 1 == na + old_queue.len()
                                            + pre_running.dom().len(),
                                        c >= 0,
                                        pre_used >= 0,
                                        live >= 0,
                                ;
                            }
                        }
                    },
                    None => {
                        draining = false;
                    },
                }
            }
            // The timeline cannot be empty here: a non-empty queue means its
            // head did not fit, so some job is still running, and every
            // running job has a completion event pending.
            proof {
                if queue@.len() > 0 {
                    assert(queue@[0].nodes > self.cluster.available_nodes);
                    assert(queue@[0].nodes <= self.cluster.total_nodes);
                    if self.cluster.running().dom().len() == 0 {
                        assert(self.cluster.running().dom() =~= Set::empty());
                        assert(crate::cluster::nodes_sum(self.cluster.running()) == 0);
                        assert(false);
                    }
                    assert(exists|id: u32| self.cluster.running().dom().contains(id)) by {
                        if forall|id: u32| !(#[trigger] self.cluster.running().dom().contains(id)) {
                            assert(self.cluster.running().dom() =~= Set::empty());
                        }
                    }
                    let id = choose|id: u32| self.cluster.running().dom().contains(id);
                    let e = choose|e: EventRec|
                        #[trigger] self.events_model().count(e) > 0 && e.1 == 0 && e.2 == id;
                    assert(self.events_model().len() > 0);
                }
                assert(self.events_model().len() > 0);
            }
            let ghost pre_events = self.events_model();
            let ghost pre_clock = self.clock;
            let popped = heap_pop_min(&mut self.events);
            proof {
                assert(popped is Some);
            }
            let rec = popped.unwrap();
            proof {
                lemma_filter_len_remove(pre_events, rec, arrival_filter());
                lemma_filter_len_remove(pre_events, rec, completion_filter());
                assert(pre_clock <= rec.0);
            }
            self.clock = rec.0;
            let ev = event_of(rec);
            match ev {
                Event::NewJob(job) => {
                    proof {
                        assert(job == arrival_job(rec));
                        assert(job_cost(job) == event_cost(rec));
                        assert((self.n_arrivals() + 1 + queue@.len()) * c == (self.n_arrivals() + (
                        queue@.len() + 1)) * c);
                        assert(arrival_rec(job) == rec);
                        lemma_queue_arrivals_push(queue@, job);
                        assert(old(self).events_model().filter(arrival_filter())
                            =~= log_arrivals(log).add(
                            self.events_model().filter(arrival_filter()),
                        ).add(queue_arrivals(queue@.push(job))));
                        if distinct_arrival_ids(old(self).events_model()) && old(
                            self,
                        ).cluster.running() =~= Map::empty() {
                            // The popped arrival was unique, so its id meets
                            // no pending, arriving or running job.
                            assert forall|e: EventRec|
                                #[trigger] self.events_model().count(e) > 0 && e.1
                                    == 1 implies e.2 != job.id by {
                                assert(pre_events.count(e) > 0);
                                if e == rec {
                                    assert(pre_events.count(rec) == 1);
                                    assert(self.events_model().count(rec) == 0);
                                }
                            }
                            assert(self.ids_wf(queue@.push(job)));
                        }
                        assert forall|rid: u32|
                            #[trigger] self.cluster.running().dom().contains(rid) implies (
                        exists|e: EventRec|
                            #[trigger] self.events_model().count(e) > 0 && e.1 == 0 && e.2
                                == rid) by {
                            let e0 = choose|e: EventRec|
                                #[trigger] pre_events.count(e) > 0 && e.1 == 0 && e.2 == rid;
                            assert(e0 != rec);
                            assert(self.events_model().count(e0) > 0);
                        }
                    }
                    queue.push(job);
                },
                Event::JobFinished(id) => {
                    let ghost pre_running = self.cluster.running();
                    let ghost pre_used = self.cluster.used_resources;
                    proof {
                        if self.cluster.running().dom().contains(id) {
                            assert(self.cluster.running().dom().len() >= 1) by {
                                if self.cluster.running().dom().len() == 0 {
                                    assert(self.cluster.running().dom() =~= Set::empty());
                                }
                            }
                            let live = self.n_arrivals() + queue@.len()
                                + self.cluster.running().dom().len();
                            assert(c <= live * c) by (nonlinear_arith)
                                requires
                                    live >= 1,
                                    c >= 0,
                            ;
                            assert(self.cluster.used_resources + self.cluster.running()[id].0
                                * self.cluster.running()[id].1 <= u64::MAX);
                        }
                    }
                    self.cluster.finish_job(id);
                    proof {
                        if pre_running.dom().contains(id) {
                            assert(self.cluster.running() == pre_running.remove(id));
                            assert(self.cluster.running().dom() =~= pre_running.dom().remove(id));
                            assert(self.cluster.running().dom().len() + 1
                                == pre_running.dom().len());
                            let live = self.n_arrivals() + queue@.len()
                                + self.cluster.running().dom().len();
                            assert((live + 1) * c == live * c + c) by (nonlinear_arith);
                            assert(self.cluster.used_resources <= pre_used + c);
                            assert(self.cluster.used_resources + live * c <= u64::MAX);
                            // Completions of other running jobs are untouched.
                            assert forall|rid: u32|
                                #[trigger] self.cluster.running().dom().contains(rid) implies (
                            exists|e: EventRec|
                                #[trigger] self.events_model().count(e) > 0 && e.1 == 0 && e.2
                                    == rid) by {
                                let e0 = choose|e: EventRec|
                                    #[trigger] pre_events.count(e) > 0 && e.1 == 0 && e.2 == rid;
                                assert(e0 != rec);
                                assert(self.events_model().count(e0) > 0);
                            }
                        } else {
                            assert(self.cluster.running() == pre_running);
                            assert forall|rid: u32|
                                #[trigger] self.cluster.running().dom().contains(rid) implies (
                            exists|e: EventRec|
                                #[trigger] self.events_model().count(e) > 0 && e.1 == 0 && e.2
                                    == rid) by {
                                let e0 = choose|e: EventRec|
                                    #[trigger] pre_events.count(e) > 0 && e.1 == 0 && e.2 == rid;
                                assert(e0 != rec);
                                assert(self.events_model().count(e0) > 0);
                            }
                        }
                        if distinct_arrival_ids(old(self).events_model()) && old(
                            self,
                        ).cluster.running() =~= Map::empty() {
                            if pre_running.dom().contains(id) {
                                lemma_used_sum_remove(pre_running, id);
                            }
                            assert(self.ids_wf(queue@));
                        }
                    }
                },
            }
            proof {
                assert forall|k: int|
                    0 <= k < log.len() implies (#[trigger] log[k]).1 + log[k].0.run_time
                    <= self.clock || self.events_model().count(
                    completion_rec((log[k].1 + log[k].0.run_time) as u64, log[k].0.id),
                ) > 0 by {
                    let w = completion_rec((log[k].1 + log[k].0.run_time) as u64, log[k].0.id);
                    if !(log[k].1 + log[k].0.run_time <= pre_clock) {
                        assert(pre_events.count(w) > 0);
                        if w == rec {
                            assert(self.clock == rec.0);
                        } else {
                            assert(self.events_model().count(w) > 0);
                        }
                    }
                }
                assert forall|e: EventRec|
                    #[trigger] old(self).events_model().count(e) > 0 implies e.0 <= self.clock
                    || self.events_model().count(e) > 0 by {
                    if !(e.0 <= pre_clock) {
                        assert(pre_events.count(e) > 0);
                        if e != rec {
                            assert(self.events_model().count(e) > 0);
                        }
                    }
                }
            }
        }
        // Termination: both the timeline and the pending queue are drained.
        proof {
            assert(self.events_model() =~= Multiset::empty());
            assert(self.events_model().filter(arrival_filter()) =~= Multiset::empty());
            assert(self.events_model().filter(completion_filter()) =~= Multiset::empty());
            assert forall|id: u32| !(#[trigger] self.cluster.running().dom().contains(id)) by {
                if self.cluster.running().dom().contains(id) {
                    let e = choose|e: EventRec|
                        #[trigger] self.events_model().count(e) > 0 && e.1 == 0 && e.2 == id;
                }
            }
            assert(self.cluster.running().dom() =~= Set::empty());
            assert(crate::cluster::nodes_sum(self.cluster.running()) == 0);
            assert(wait_times@.len() == n0);
            assert(queue@ =~= Seq::<Job>::empty());
            assert(self.inv_bounded(Seq::empty(), m, c));
            assert(queue_arrivals(queue@) =~= Multiset::<EventRec>::empty());
            assert(log_arrivals(log) =~= old(self).events_model().filter(arrival_filter()));
            lemma_log_lens(log);
            assert forall|k: int|
                0 <= k < log.len() implies (#[trigger] log[k]).1 + log[k].0.run_time
                <= self.clock by {
                if !(log[k].1 + log[k].0.run_time <= self.clock) {
                    assert(self.events_model().count(
                        completion_rec((log[k].1 + log[k].0.run_time) as u64, log[k].0.id),
                    ) > 0);
                }
            }
            assert forall|e: EventRec|
                #[trigger] old(self).events_model().count(e) > 0 implies e.0 <= self.clock by {
                if !(e.0 <= self.clock) {
                    assert(self.events_model().count(e) > 0);
                }
            }
        }
        if wait_times.len() == 0 {
            proof {
                assert(old(self).run_log_ok(self, log, None::<EngineReport>));
            }
            return None;
        }
        let total_wait = sum_saturating(&wait_times);
        let total_completion_time = sum_saturating(&completion_times);
        sort_u64(&mut wait_times);
        let ghost ws = wait_times@;
        let min_wait = wait_times[0];
        let max_wait = wait_times[wait_times.len() - 1];
        let median_wait = wait_times[wait_times.len() / 2];
        let avg_wait = total_wait / (wait_times.len() as u64);
        match self.cluster.utilization(self.clock) {
            None => {
                proof {
                    assert(old(self).run_log_ok(self, log, None::<EngineReport>));
                }
                None
            },
            Some(t) => {
                let end = now_millis();
                let time_took: u128 = if end >= start {
                    end - start
                } else {
                    0
                };
                let rep = EngineReport {
                    scheduler_name: self.scheduler.name(),
                    makespan: self.clock,
                    total_completion_time,
                    min_wait,
                    max_wait,
                    avg_wait,
                    median_wait,
                    total_wait,
                    used_ressources: self.cluster.used_resources,
                    idle: t.1,
                    idle_percent: t.2,
                    time_took,
                };
                proof {
                    assert(sorted_u64(ws) && ws.to_multiset() == log_waits(log).to_multiset()
                        && ws.len() == log.len() && rep.min_wait == ws[0] && rep.max_wait == ws[
                        ws.len() - 1] && rep.median_wait == ws[ws.len() as int / 2]);
                    assert(old(self).run_log_ok(self, log, Some(rep)));
                }
                Some(rep)
            },
        }
    }
}

} // verus!
