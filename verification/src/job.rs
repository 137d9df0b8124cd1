use vstd::prelude::*;
use crate::Clock;

verus! {

/// One workload item: identity, resource requirement, the times its trace
/// record carries, and the scheduling outcome once it is admitted.
///
/// `schedule_time` and `expected_end` are meaningful only after the job has
/// transitioned to scheduled; a job transitions at most once.
#[derive(Clone, Debug)]
pub struct Job {
    pub id: u32,
    pub nodes: u32,
    pub submit_time: Clock,
    pub schedule_time: Clock,
    pub requested_run_time: Clock,
    pub expected_end: Clock,
    pub scheduled: bool,
    pub run_time: Clock,
}

impl Job {
    pub fn new(
        id: u32,
        nodes: u32,
        submit_time: Clock,
        run_time: Clock,
        requested_run_time: Clock,
    ) -> (j: Job)
        ensures
            j.id == id,
            j.nodes == nodes,
            j.submit_time == submit_time,
            j.run_time == run_time,
            j.requested_run_time == requested_run_time,
            !j.scheduled,
            j.schedule_time == 0,
            j.expected_end == 0,
    {
        Job {
            id,
            nodes,
            requested_run_time,
            run_time,
            submit_time,
            scheduled: false,
            schedule_time: 0,
            expected_end: 0,
        }
    }

    /// The one mutation of a job's lifetime: mark it running as of `clock`.
    /// May be applied only to a job that is not yet scheduled.
    pub fn set_scheduled(&mut self, clock: Clock)
        requires
            !old(self).scheduled,
            clock + old(self).requested_run_time <= u64::MAX,
        ensures
            final(self).scheduled,
            final(self).schedule_time == clock,
            final(self).expected_end == clock + old(self).requested_run_time,
            final(self).id == old(self).id,
            final(self).nodes == old(self).nodes,
            final(self).submit_time == old(self).submit_time,
            final(self).requested_run_time == old(self).requested_run_time,
            final(self).run_time == old(self).run_time,
    {
        self.scheduled = true;
        self.schedule_time = clock;
        self.expected_end = clock + self.requested_run_time;
    }

    /// How long this job waited between submission and admission.
    pub fn wait_time(&self) -> (w: Clock)
        requires
            self.scheduled,
            self.submit_time <= self.schedule_time,
        ensures
            w == self.schedule_time - self.submit_time,
    {
        self.schedule_time - self.submit_time
    }

    /// The wait this job would have accumulated if admitted at `clock`.
    pub fn wait_time_from(&self, clock: Clock) -> (w: Clock)
        requires
            self.submit_time <= clock,
        ensures
            w == clock - self.submit_time,
    {
        clock - self.submit_time
    }
}

/// Job equality goes by id alone, independent of all other fields.
impl PartialEq for Job {
    fn eq(&self, other: &Self) -> (r: bool) {
        self.id == other.id
    }
}

impl vstd::std_specs::cmp::PartialEqSpecImpl for Job {
    open spec fn obeys_eq_spec() -> bool {
        true
    }

    open spec fn eq_spec(&self, other: &Job) -> bool {
        self.id == other.id
    }
}

} // verus!
