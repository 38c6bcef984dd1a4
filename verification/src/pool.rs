//! The decisions of the master/slave pool: which slave takes a job, and
//! what the master's bookkeeping records when a job is submitted or
//! comes back completed. The threads and channels that carry the
//! messages live outside; the state they update is decided here.

use vstd::prelude::*;
use crate::jobs::JobError;

verus! {

/// Where a job stands in the master's bookkeeping.
#[derive(Debug, PartialEq, Eq, Structural, Clone, Copy)]
pub enum JobStatus {
    JobStatusNeverSeen,
    JobStatusQueued,
    JobStatusRunning,
    JobStatusCompleted,
    JobStatusRetired,
    NumJobStatuses,
}

/// One record of the master's history: a job's numeric type and the
/// status it reached.
#[derive(Debug, PartialEq, Eq, Structural, Clone, Copy)]
pub struct HistoryEntry {
    pub job_type: usize,
    pub status: JobStatus,
}

/// What the master receives.
pub enum MasterMessage<J> {
    AddJob(J),
    RecvCompletedJob(Result<J, JobError>),
    StopRequest,
}

/// What a slave receives.
pub enum SlaveMessage<J> {
    Job(J),
    StopRequest,
}

/// The slave a job goes to: the one with the least pressure, ties going
/// to the last, as `min_by_key` over an iterator breaks them.
pub fn pick_slave(pressures: &Vec<usize>) -> (r: Option<usize>)
    ensures
        match r {
            Some(i) => {
                &&& (i as int) < pressures@.len()
                &&& forall|j: int| 0 <= j < pressures@.len() ==> pressures@[i as int]
                    <= #[trigger] pressures@[j]
                &&& forall|j: int| i < j < pressures@.len() ==> pressures@[i as int]
                    < #[trigger] pressures@[j]
            },
            None => pressures@.len() == 0,
        },
{
    if pressures.len() == 0 {
        return None;
    }
    let mut best: usize = 0;
    let mut i: usize = 1;
    while i < pressures.len()
        invariant
            0 <= best < i <= pressures@.len(),
            forall|j: int| 0 <= j < i ==> pressures@[best as int] <= #[trigger] pressures@[j],
            forall|j: int| best < j < i ==> pressures@[best as int] < #[trigger] pressures@[j],
        decreases pressures@.len() - i,
    {
        if pressures[i] <= pressures[best] {
            best = i;
        }
        i = i + 1;
    }
    Some(best)
}

/// The identifiers with one value struck out, order kept.
pub open spec fn remove_val(s: Seq<usize>, id: usize) -> Seq<usize>
    decreases s.len(),
{
    if s.len() == 0 {
        Seq::empty()
    } else if s[0] == id {
        remove_val(s.drop_first(), id)
    } else {
        seq![s[0]] + remove_val(s.drop_first(), id)
    }
}

/// The master's bookkeeping: which jobs run, which completed, and the
/// history of what came back.
pub struct MasterState<J> {
    pub running_ids: Vec<usize>,
    pub completed_jobs: Vec<J>,
    pub history: Vec<HistoryEntry>,
}

impl<J> MasterState<J> {
    /// Empty bookkeeping.
    pub fn new() -> (s: MasterState<J>)
        ensures
            s.running_ids@.len() == 0,
            s.completed_jobs@.len() == 0,
            s.history@.len() == 0,
    {
        MasterState { running_ids: Vec::new(), completed_jobs: Vec::new(), history: Vec::new() }
    }

    /// Records that the job with this identifier went to a slave.
    pub fn note_submitted(&mut self, id: usize)
        ensures
            final(self).running_ids@ == old(self).running_ids@.push(id),
            final(self).completed_jobs == old(self).completed_jobs,
            final(self).history == old(self).history,
    {
        self.running_ids.push(id);
    }

    /// Records a completed job: its identifier leaves the running list,
    /// the history gains a completed entry of its type, and the job
    /// joins the completed ones.
    pub fn note_completed(&mut self, id: usize, job_type: usize, job: J)
        ensures
            final(self).running_ids@ == remove_val(old(self).running_ids@, id),
            final(self).history@ == old(self).history@.push(
                HistoryEntry { job_type, status: JobStatus::JobStatusCompleted },
            ),
            final(self).completed_jobs@ == old(self).completed_jobs@.push(job),
    {
        let ghost s = self.running_ids@;
        let mut kept: Vec<usize> = Vec::new();
        let mut i: usize = 0;
        proof {
            assert(s.skip(0) =~= s);
            assert(kept@ + remove_val(s.skip(0), id) =~= remove_val(s, id));
        }
        while i < self.running_ids.len()
            invariant
                0 <= i <= self.running_ids@.len(),
                s == self.running_ids@,
                remove_val(s, id) == kept@ + remove_val(s.skip(i as int), id),
            decreases self.running_ids@.len() - i,
        {
            let ghost prev = kept@;
            let v = self.running_ids[i];
            proof {
                assert(s.skip(i as int)[0] == s[i as int]);
                assert(s.skip(i as int).drop_first() =~= s.skip(i + 1));
            }
            if v != id {
                kept.push(v);
                proof {
                    assert(remove_val(s.skip(i as int), id) == seq![s[i as int]] + remove_val(
                        s.skip(i + 1),
                        id,
                    ));
                    assert(kept@ + remove_val(s.skip(i + 1), id) =~= prev + remove_val(
                        s.skip(i as int),
                        id,
                    ));
                }
            } else {
                proof {
                    assert(remove_val(s.skip(i as int), id) == remove_val(s.skip(i + 1), id));
                }
            }
            i = i + 1;
        }
        proof {
            assert(s.skip(s.len() as int) =~= Seq::<usize>::empty());
            assert(remove_val(s.skip(s.len() as int), id) == Seq::<usize>::empty());
            assert(kept@ + remove_val(s.skip(s.len() as int), id) =~= kept@);
        }
        self.running_ids = kept;
        self.history.push(HistoryEntry { job_type, status: JobStatus::JobStatusCompleted });
        self.completed_jobs.push(job);
    }

}

} // verus!
