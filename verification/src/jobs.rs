//! Jobs as the pool sees them: a job's bookkeeping data, the trait a
//! job implements for the master/slave pool, and a sample rendering job.

use vstd::prelude::*;
use vstd::string::StringExecFns;

verus! {

/// Why a job failed.
#[derive(Debug)]
pub struct JobError {
    pub message: String,
}

impl JobError {
    pub fn new(message: &str) -> (e: JobError)
        ensures
            e.message@ == message@,
    {
        JobError { message: String::from_str(message) }
    }
}

/// A job's bookkeeping: its identifier, its numeric type, and the bit
/// mask of the channels it may run on. The caller hands out identifiers;
/// one counter per process is the usual source.
#[derive(Debug, PartialEq, Eq, Structural, Clone, Copy)]
pub struct JobData {
    pub id: usize,
    pub job_type: usize,
    pub channels: usize,
}

impl JobData {
    pub fn new(id: usize, job_type: usize, channels: usize) -> (d: JobData)
        ensures
            d == (JobData { id, job_type, channels }),
    {
        JobData { id, job_type, channels }
    }
}

/// What the master/slave pool asks of a job: its users implement this.
pub trait Job {
    /// The initial call, where the job runs to completion.
    fn execute(&mut self) -> Result<(), JobError>;

    /// Called once `execute` has completed, generally for cleanup.
    fn complete_callback(&mut self) -> Result<(), JobError>;

    /// An identifier unique to this job.
    fn get_unique_id(&self) -> usize;

    /// The job's numeric type.
    fn get_type(&self) -> usize;
}

/// The sum of a sequence of numbers.
pub open spec fn sum_of(s: Seq<i64>) -> int
    decreases s.len(),
{
    if s.len() == 0 {
        0
    } else {
        s[0] + sum_of(s.drop_first())
    }
}

/// The sums of all prefixes stay in machine range.
pub open spec fn sums_in_range(s: Seq<i64>) -> bool {
    forall|k: int| 0 <= k <= s.len() ==> i64::MIN <= sum_of(#[trigger] s.take(k)) <= i64::MAX
}

proof fn lemma_sum_take_step(s: Seq<i64>, k: int)
    requires
        0 <= k < s.len(),
    ensures
        sum_of(s.take(k + 1)) == sum_of(s.take(k)) + s[k],
    decreases k,
{
    if k == 0 {
        assert(s.take(1).drop_first() =~= Seq::<i64>::empty());
        assert(sum_of(Seq::<i64>::empty()) == 0);
        assert(s.take(1)[0] == s[0]);
        assert(sum_of(s.take(1)) == s[0]);
        assert(s.take(0) =~= Seq::<i64>::empty());
    } else {
        lemma_sum_take_step(s.drop_first(), k - 1);
        assert(s.take(k + 1).drop_first() =~= s.drop_first().take(k));
        assert(s.take(k).drop_first() =~= s.drop_first().take(k - 1));
        assert(sum_of(s.take(k + 1)) == s[0] + sum_of(s.drop_first().take(k)));
        assert(sum_of(s.take(k)) == s[0] + sum_of(s.drop_first().take(k - 1)));
    }
}

/// A sample job: it sums its rendering data twice over and stores the
/// total in the first slot.
#[derive(Debug)]
pub struct RenderJob {
    pub data: JobData,
    pub render_data: Vec<i64>,
}

impl RenderJob {
    pub fn new(id: usize, job_type: usize, channels: usize, render_data: Vec<i64>) -> (j:
        RenderJob)
        ensures
            j.data == (JobData { id, job_type, channels }),
            j.render_data == render_data,
    {
        RenderJob { data: JobData::new(id, job_type, channels), render_data }
    }

    /// Twice the sum of the rendering data, stored in the first slot;
    /// the other slots keep their values. Empty data stays empty.
    pub fn run_render(&mut self)
        requires
            sums_in_range(old(self).render_data@),
            i64::MIN <= 2 * sum_of(old(self).render_data@) <= i64::MAX,
        ensures
            final(self).data == old(self).data,
            final(self).render_data@.len() == old(self).render_data@.len(),
            old(self).render_data@.len() > 0 ==> final(self).render_data@ == old(
                self,
            ).render_data@.update(0, (2 * sum_of(old(self).render_data@)) as i64),
            old(self).render_data@.len() == 0 ==> final(self).render_data@ == old(
                self,
            ).render_data@,
    {
        let ghost s = self.render_data@;
        let mut total: i64 = 0;
        let mut i: usize = 0;
        while i < self.render_data.len()
            invariant
                0 <= i <= self.render_data@.len(),
                self.render_data@ == s,
                self.data == old(self).data,
                sums_in_range(s),
                total as int == sum_of(s.take(i as int)),
            decreases self.render_data@.len() - i,
        {
            proof {
                lemma_sum_take_step(s, i as int);
                assert(s.take(s.len() as int) =~= s);
            }
            total = total + self.render_data[i];
            i = i + 1;
        }
        proof {
            assert(s.take(s.len() as int) =~= s);
        }
        let doubled = total + total;
        if self.render_data.len() > 0 {
            self.render_data.set(0, doubled);
        }
    }
}

impl Job for RenderJob {
    /// Runs the rendering sum, refusing data whose sums would overflow.
    fn execute(&mut self) -> Result<(), JobError> {
        let ghost s = self.render_data@;
        let mut total: i64 = 0;
        let mut i: usize = 0;
        proof {
            assert(s.take(0) =~= Seq::<i64>::empty());
        }
        while i < self.render_data.len()
            invariant
                0 <= i <= self.render_data@.len(),
                self.render_data@ == s,
                self.data == old(self).data,
                *self == *old(self),
                total as int == sum_of(s.take(i as int)),
                forall|k: int| 0 <= k <= i ==> i64::MIN <= sum_of(#[trigger] s.take(k))
                    <= i64::MAX,
            decreases self.render_data@.len() - i,
        {
            let b = self.render_data[i];
            if b >= 0 {
                if total > i64::MAX - b {
                    return Err(JobError::new("render data sum overflows"));
                }
            } else {
                if total < i64::MIN - b {
                    return Err(JobError::new("render data sum overflows"));
                }
            }
            proof {
                lemma_sum_take_step(s, i as int);
            }
            total = total + b;
            i = i + 1;
        }
        proof {
            assert(s.take(s.len() as int) =~= s);
        }
        if total >= 0 {
            if total > i64::MAX - total {
                return Err(JobError::new("render data sum overflows"));
            }
        } else {
            if total < i64::MIN - total {
                return Err(JobError::new("render data sum overflows"));
            }
        }
        proof {
            assert(sums_in_range(s));
        }
        self.run_render();
        Ok(())
    }

    fn complete_callback(&mut self) -> Result<(), JobError> {
        Ok(())
    }

    fn get_unique_id(&self) -> usize {
        self.data.id
    }

    fn get_type(&self) -> usize {
        self.data.job_type
    }
}

} // verus!
