//! Command-level operations on the job set: the decisions behind showing
//! status, removing a queued job, killing a running one and attaching to
//! a session.  The process-level work around each decision stays outside
//! the library.

use vstd::prelude::*;

use crate::job::{gpu_held, holds_gpu, job_wf, jobs_wf, Job, JobStatus};
use crate::sched::with_status;
use crate::text::{all_digits, bytes_eq, dec_repr, dec_val, parse_u64, u64_to_dec};

verus! {

/// Finds the first running job holding device `gpu`.
pub fn find_running_by_gpu(jobs: &Vec<Job>, gpu: usize) -> (r: Option<usize>)
    ensures
        match r {
            Some(i) => i < jobs@.len() && holds_gpu(jobs@[i as int], gpu) && forall|t: int|
                0 <= t < i ==> !holds_gpu(#[trigger] jobs@[t], gpu),
            None => !gpu_held(jobs@, gpu),
        },
{
    let mut i: usize = 0;
    while i < jobs.len()
        invariant
            i <= jobs@.len(),
            forall|t: int| 0 <= t < i ==> !holds_gpu(#[trigger] jobs@[t], gpu),
        decreases jobs@.len() - i,
    {
        if matches!(jobs[i].status, JobStatus::Running) {
            let held = match &jobs[i].gpu_index {
                Some(x) => *x == gpu,
                None => false,
            };
            if held {
                assert(holds_gpu(jobs@[i as int], gpu));
                return Some(i);
            }
        }
        i = i + 1;
    }
    None
}

/// Finds the first job carrying this id.
pub fn find_by_id(jobs: &Vec<Job>, id: &[u8]) -> (r: Option<usize>)
    ensures
        match r {
            Some(i) => i < jobs@.len() && jobs@[i as int].id@ == id@ && forall|t: int|
                0 <= t < i ==> (#[trigger] jobs@[t]).id@ != id@,
            None => forall|t: int| 0 <= t < jobs@.len() ==> (#[trigger] jobs@[t]).id@ != id@,
        },
{
    let mut i: usize = 0;
    while i < jobs.len()
        invariant
            i <= jobs@.len(),
            forall|t: int| 0 <= t < i ==> (#[trigger] jobs@[t]).id@ != id@,
        decreases jobs@.len() - i,
    {
        if bytes_eq(jobs[i].id.as_slice(), id) {
            return Some(i);
        }
        i = i + 1;
    }
    None
}

/// The first queued job carrying this id, at or after `from`.
pub open spec fn first_queued_with_id(jobs: Seq<Job>, id: Seq<u8>, from: nat) -> Option<int>
    decreases jobs.len() - from when from <= jobs.len()
{
    if from >= jobs.len() {
        None
    } else if jobs[from as int].status is Queued && jobs[from as int].id@ == id {
        Some(from as int)
    } else {
        first_queued_with_id(jobs, id, from + 1)
    }
}

/// Removing one job keeps the invariant: the remaining jobs and their
/// devices are unchanged.
proof fn lemma_wf_remove(jobs: Seq<Job>, p: int)
    requires
        jobs_wf(jobs),
        0 <= p < jobs.len(),
    ensures
        jobs_wf(jobs.remove(p)),
{
    let r = jobs.remove(p);
    assert forall|t: int| 0 <= t < r.len() implies job_wf(#[trigger] r[t]) by {
        if t < p {
            assert(r[t] == jobs[t]);
        } else {
            assert(r[t] == jobs[t + 1]);
        }
    }
    assert forall|a: int, b: int|
        0 <= a < r.len() && 0 <= b < r.len() && a != b && (#[trigger] r[a]).status is Running && (
        #[trigger] r[b]).status is Running implies r[a].gpu_index != r[b].gpu_index by {
        let oa = if a < p {
            a
        } else {
            a + 1
        };
        let ob = if b < p {
            b
        } else {
            b + 1
        };
        assert(r[a] == jobs[oa]);
        assert(r[b] == jobs[ob]);
    }
}

/// Removes the first queued job carrying this id, if there is one; a
/// running or finished job is never removed this way.
pub fn remove_queued(jobs: &mut Vec<Job>, id: &[u8]) -> (removed: bool)
    requires
        jobs_wf(old(jobs)@),
    ensures
        removed == (first_queued_with_id(old(jobs)@, id@, 0) is Some),
        removed ==> final(jobs)@ == old(jobs)@.remove(
            first_queued_with_id(old(jobs)@, id@, 0)->0,
        ),
        !removed ==> final(jobs)@ == old(jobs)@,
        jobs_wf(final(jobs)@),
{
    let ghost orig = jobs@;
    let mut i: usize = 0;
    while i < jobs.len()
        invariant
            orig == old(jobs)@,
            jobs@ == orig,
            i <= orig.len(),
            jobs_wf(orig),
            first_queued_with_id(orig, id@, 0) == first_queued_with_id(orig, id@, i as nat),
        decreases orig.len() - i,
    {
        let hit = matches!(jobs[i].status, JobStatus::Queued) && bytes_eq(
            jobs[i].id.as_slice(),
            id,
        );
        if hit {
            proof {
                assert(first_queued_with_id(orig, id@, i as nat) == Some(i as int));
                assert(first_queued_with_id(orig, id@, 0) == Some(i as int));
                lemma_wf_remove(orig, i as int);
            }
            let _removed_job = jobs.remove(i);
            proof {
                assert(jobs@ == orig.remove(i as int));
            }
            return true;
        }
        i = i + 1;
    }
    proof {
        assert(first_queued_with_id(orig, id@, i as nat) is None);
    }
    false
}

/// The job a kill request names, if any: a numeric target is first read
/// as a device index and matched against the running job holding it; any
/// target also matches the first job with that id; only a job that names
/// a session can be killed.
pub open spec fn first_killable_by_gpu(jobs: Seq<Job>, g: usize, from: nat) -> Option<int>
    decreases jobs.len() - from when from <= jobs.len()
{
    if from >= jobs.len() {
        None
    } else if holds_gpu(jobs[from as int], g) && jobs[from as int].session is Some {
        Some(from as int)
    } else {
        first_killable_by_gpu(jobs, g, from + 1)
    }
}

/// The first job with this id that names a session.
pub open spec fn first_killable_by_id(jobs: Seq<Job>, id: Seq<u8>, from: nat) -> Option<int>
    decreases jobs.len() - from when from <= jobs.len()
{
    if from >= jobs.len() {
        None
    } else if jobs[from as int].id@ == id && jobs[from as int].session is Some {
        Some(from as int)
    } else {
        first_killable_by_id(jobs, id, from + 1)
    }
}

/// Which job a kill request for `target` picks.
pub open spec fn kill_pick(jobs: Seq<Job>, target: Seq<u8>) -> Option<int> {
    let by_gpu = if target.len() > 0 && all_digits(target) && dec_val(target) <= usize::MAX as int {
        first_killable_by_gpu(jobs, dec_val(target) as usize, 0)
    } else {
        None
    };
    if by_gpu is Some {
        by_gpu
    } else {
        first_killable_by_id(jobs, target, 0)
    }
}

/// Finds the job a kill request names: by device index for a numeric
/// target, else by id; in either reading only a job that names a session
/// counts.
pub fn kill_target(jobs: &Vec<Job>, target: &[u8]) -> (r: Option<usize>)
    ensures
        match r {
            Some(i) => i < jobs@.len() && Some(i as int) == kill_pick(jobs@, target@),
            None => kill_pick(jobs@, target@) is None,
        },
{
    let parsed = parse_u64(target);
    let by_gpu: Option<usize> = match parsed {
        Some(v) => {
            if v <= usize::MAX as u64 {
                let g = v as usize;
                let mut i: usize = 0;
                let mut found: Option<usize> = None;
                while i < jobs.len() && found.is_none()
                    invariant
                        i <= jobs@.len(),
                        match found {
                            Some(f) => f == i && i < jobs@.len() && first_killable_by_gpu(
                                jobs@,
                                g,
                                0,
                            ) == Some(f as int),
                            None => first_killable_by_gpu(jobs@, g, 0) == first_killable_by_gpu(
                                jobs@,
                                g,
                                i as nat,
                            ),
                        },
                    decreases jobs@.len() - i + (if found.is_none() {
                        1int
                    } else {
                        0int
                    }),
                {
                    let hit = matches!(jobs[i].status, JobStatus::Running) && (match &jobs[i]
                        .gpu_index {
                        Some(x) => *x == g,
                        None => false,
                    }) && jobs[i].session.is_some();
                    if hit {
                        proof {
                            assert(holds_gpu(jobs@[i as int], g));
                            assert(first_killable_by_gpu(jobs@, g, i as nat) == Some(i as int));
                        }
                        found = Some(i);
                    } else {
                        proof {
                            assert(!(holds_gpu(jobs@[i as int], g) && jobs@[i as int].session
                                is Some));
                        }
                        i = i + 1;
                    }
                }
                proof {
                    if found is None {
                        assert(first_killable_by_gpu(jobs@, g, i as nat) is None);
                    }
                }
                found
            } else {
                None
            }
        },
        None => None,
    };
    proof {
        let num_ok = target@.len() > 0 && all_digits(target@) && dec_val(target@)
            <= usize::MAX as int;
        if num_ok {
            assert(parsed is Some);
        }
    }
    if let Some(i) = by_gpu {
        return Some(i);
    }
    let mut i: usize = 0;
    while i < jobs.len()
        invariant
            i <= jobs@.len(),
            first_killable_by_id(jobs@, target@, 0) == first_killable_by_id(
                jobs@,
                target@,
                i as nat,
            ),
            kill_pick(jobs@, target@) == first_killable_by_id(jobs@, target@, 0),
        decreases jobs@.len() - i,
    {
        let hit = bytes_eq(jobs[i].id.as_slice(), target) && jobs[i].session.is_some();
        if hit {
            proof {
                assert(first_killable_by_id(jobs@, target@, i as nat) == Some(i as int));
            }
            return Some(i);
        }
        i = i + 1;
    }
    proof {
        assert(first_killable_by_id(jobs@, target@, i as nat) is None);
    }
    None
}

/// Records a kill: the job's session was told to quit, and the job is
/// closed out as completed.  The queued jobs are untouched.
pub fn mark_killed(jobs: &mut Vec<Job>, i: usize)
    requires
        i < old(jobs)@.len(),
        !(old(jobs)@[i as int].status is Queued),
        jobs_wf(old(jobs)@),
    ensures
        final(jobs)@.len() == old(jobs)@.len(),
        final(jobs)@[i as int] == with_status(old(jobs)@[i as int], JobStatus::Completed),
        forall|t: int|
            0 <= t < final(jobs)@.len() && t != i ==> #[trigger] final(jobs)@[t] == old(jobs)@[t],
        jobs_wf(final(jobs)@),
        crate::job::queued_commands(final(jobs)@) == crate::job::queued_commands(old(jobs)@),
{
    let ghost orig = jobs@;
    let mut j = jobs.remove(i);
    j.status = JobStatus::Completed;
    jobs.insert(i, j);
    proof {
        assert(jobs@ =~= orig.update(i as int, j));
        crate::sched::lemma_filter_update_keep_none(orig, i as int, j, |jb: Job| jb.status is Queued);
        assert forall|a: int, b: int|
            0 <= a < jobs@.len() && 0 <= b < jobs@.len() && a != b && (
            #[trigger] jobs@[a]).status is Running && (#[trigger] jobs@[b]).status
            is Running implies jobs@[a].gpu_index != jobs@[b].gpu_index by {
            assert(jobs@[a] == orig[a] && jobs@[b] == orig[b]);
        }
        assert forall|a: int| 0 <= a < jobs@.len() implies job_wf(#[trigger] jobs@[a]) by {
            if a != i {
                assert(jobs@[a] == orig[a]);
            }
        }
    }
}

/// The session an attach request names: "service" attaches to the
/// scheduler's own session, a numeric target to the session of that
/// device, anything else to the session of that job id.
pub open spec fn spec_attach_session(target: Seq<u8>) -> Seq<u8> {
    if target == seq![115u8, 101u8, 114u8, 118u8, 105u8, 99u8, 101u8] {
        seq![110u8, 101u8, 120u8, 117u8, 115u8]
    } else if target.len() > 0 && all_digits(target) && dec_val(target) <= usize::MAX as int {
        crate::session::session_prefix() + seq![103u8, 112u8, 117u8, 95u8] + dec_repr(
            dec_val(target) as nat,
        )
    } else {
        crate::session::session_prefix() + target
    }
}

/// Derives the session name an attach request points at.
pub fn attach_session_name(target: &[u8]) -> (r: Vec<u8>)
    ensures
        r@ == spec_attach_session(target@),
{
    let service: Vec<u8> = vec![115, 101, 114, 118, 105, 99, 101];
    proof {
        assert(service@ =~= seq![115u8, 101u8, 114u8, 118u8, 105u8, 99u8, 101u8]);
    }
    if bytes_eq(target, service.as_slice()) {
        let r: Vec<u8> = vec![110, 101, 120, 117, 115];
        proof {
            assert(r@ =~= seq![110u8, 101u8, 120u8, 117u8, 115u8]);
            assert(target@ == service@);
        }
        return r;
    }
    let parsed = parse_u64(target);
    match parsed {
        Some(v) => {
            if v <= usize::MAX as u64 {
                let mut r = crate::session::session_prefix_bytes();
                let gpu_tag: Vec<u8> = vec![103, 112, 117, 95];
                r.extend_from_slice(gpu_tag.as_slice());
                let num = u64_to_dec(v);
                r.extend_from_slice(num.as_slice());
                proof {
                    assert(gpu_tag@ =~= seq![103u8, 112u8, 117u8, 95u8]);
                    assert(r@ =~= spec_attach_session(target@));
                }
                r
            } else {
                let mut r = crate::session::session_prefix_bytes();
                r.extend_from_slice(target);
                proof {
                    assert(r@ =~= spec_attach_session(target@));
                }
                r
            }
        },
        None => {
            let mut r = crate::session::session_prefix_bytes();
            r.extend_from_slice(target);
            proof {
                assert(r@ =~= spec_attach_session(target@));
            }
            r
        },
    }
}

} // verus!
