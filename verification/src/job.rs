//! The job record and its state machine.
//!
//! A job is queued text waiting for a device, then a running session, then
//! a terminal record.  `Completed` and `Failed` are terminal; no job ever
//! re-enters `Queued`.

use vstd::prelude::*;

verus! {

/// The lifecycle of a job.
#[derive(Clone, Copy, Debug, PartialEq, Eq, Structural)]
pub enum JobStatus {
    Queued,
    Running,
    Completed,
    Failed,
}

/// One queued, running or finished command.
///
/// `gpu_index` and `session` are set exactly when the job is started;
/// `id` is an opaque token, stable only within one process lifetime.
#[derive(Clone, Debug)]
pub struct Job {
    pub id: Vec<u8>,
    pub command: Vec<u8>,
    pub start_time: Option<u64>,
    pub gpu_index: Option<usize>,
    pub session: Option<Vec<u8>>,
    pub status: JobStatus,
    pub log_dir: Option<Vec<u8>>,
    pub env_vars: Vec<(Vec<u8>, Vec<u8>)>,
}

/// A single job is well formed: a running job names its device and its
/// session, and a queued job holds neither yet.
pub open spec fn job_wf(j: Job) -> bool {
    &&& j.status is Running ==> j.gpu_index is Some && j.session is Some
    &&& j.status is Queued ==> j.gpu_index is None
}

/// Does job `j` hold device `g`?
pub open spec fn holds_gpu(j: Job, g: usize) -> bool {
    j.status is Running && j.gpu_index == Some(g)
}

/// Is device `g` held by some running job?
pub open spec fn gpu_held(jobs: Seq<Job>, g: usize) -> bool {
    exists|i: int| 0 <= i < jobs.len() && holds_gpu(#[trigger] jobs[i], g)
}

/// The scheduler's core invariant: every job is well formed and no two
/// running jobs share a device.
pub open spec fn jobs_wf(jobs: Seq<Job>) -> bool {
    &&& forall|i: int| 0 <= i < jobs.len() ==> job_wf(#[trigger] jobs[i])
    &&& forall|i: int, k: int|
        0 <= i < jobs.len() && 0 <= k < jobs.len() && i != k && (#[trigger] jobs[i]).status
            is Running && (#[trigger] jobs[k]).status is Running ==> jobs[i].gpu_index
            != jobs[k].gpu_index
}

/// The command text of every queued job, in order.
pub open spec fn queued_commands(jobs: Seq<Job>) -> Seq<Seq<u8>> {
    jobs.filter(|j: Job| j.status is Queued).map_values(|j: Job| j.command@)
}

/// How many jobs are in status `st`.
pub open spec fn count_status(jobs: Seq<Job>, st: JobStatus) -> nat {
    jobs.filter(|j: Job| j.status == st).len()
}

/// Wraps command text in a fresh queued job under the given id.
pub fn create_job(command: Vec<u8>, id: Vec<u8>) -> (j: Job)
    ensures
        j.id == id,
        j.command == command,
        j.start_time is None,
        j.gpu_index is None,
        j.session is None,
        j.status == JobStatus::Queued,
        j.log_dir is None,
        j.env_vars@ =~= Seq::<(Vec<u8>, Vec<u8>)>::empty(),
        job_wf(j),
{
    Job {
        id,
        command,
        start_time: None,
        gpu_index: None,
        session: None,
        status: JobStatus::Queued,
        log_dir: None,
        env_vars: Vec::new(),
    }
}

/// Counts the jobs in status `st`.
pub fn count_jobs_with_status(jobs: &Vec<Job>, st: JobStatus) -> (n: usize)
    ensures
        n == count_status(jobs@, st),
{
    let mut n: usize = 0;
    let mut i: usize = 0;
    while i < jobs.len()
        invariant
            i <= jobs@.len(),
            n == count_status(jobs@.take(i as int), st),
            n <= i,
        decreases jobs@.len() - i,
    {
        proof {
            assert(jobs@.take(i + 1) =~= jobs@.take(i as int).push(jobs@[i as int]));
            crate::text::lemma_filter_push(jobs@.take(i as int), jobs@[i as int], |j: Job| j.status == st);
            jobs@.take(i as int).lemma_filter_len(|j: Job| j.status == st);
        }
        if jobs[i].status == st {
            n = n + 1;
        }
        i = i + 1;
    }
    proof {
        assert(jobs@.take(i as int) =~= jobs@);
    }
    n
}

} // verus!
