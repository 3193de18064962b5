//! The scheduling core: one tick's reconciliation, availability and
//! assignment, as pure transitions on the in-memory job set.
//!
//! The surrounding program performs the external calls (probing devices,
//! asking whether a session is alive, creating a session) and feeds every
//! outcome back through the functions here, so each transition is checked
//! against the scheduler's invariant: no two running jobs ever share a
//! device.

use vstd::prelude::*;

use crate::device::GpuInfo;
use crate::job::{
    count_status, gpu_held, holds_gpu, job_wf, jobs_wf, queued_commands, Job, JobStatus,
};
use crate::text::lemma_filter_push;

verus! {

/// `j` with its status replaced.
pub open spec fn with_status(j: Job, st: JobStatus) -> Job {
    Job { status: st, ..j }
}

/// Replacing a job that the queue filter drops with another it drops
/// leaves the saved queue unchanged.
pub proof fn lemma_filter_update_keep_none(s: Seq<Job>, i: int, x: Job, pred: spec_fn(Job) -> bool)
    requires
        0 <= i < s.len(),
        !pred(s[i]),
        !pred(x),
    ensures
        s.update(i, x).filter(pred) == s.filter(pred),
    decreases s.len(),
{
    reveal(Seq::filter);
    let t = s.update(i, x);
    if i == s.len() - 1 {
        assert(t.drop_last() =~= s.drop_last());
        assert(t.last() == x);
        assert(s.last() == s[i]);
    } else {
        assert(t.drop_last() =~= s.drop_last().update(i, x));
        lemma_filter_update_keep_none(s.drop_last(), i, x, pred);
        assert(t.last() == s.last());
    }
}

/// Replacing a queued job with one the queue filter drops saves the same
/// queue as deleting it.
proof fn lemma_filter_update_drop(s: Seq<Job>, i: int, x: Job, pred: spec_fn(Job) -> bool)
    requires
        0 <= i < s.len(),
        !pred(x),
    ensures
        s.update(i, x).filter(pred) == s.remove(i).filter(pred),
    decreases s.len(),
{
    reveal(Seq::filter);
    let t = s.update(i, x);
    if i == s.len() - 1 {
        assert(t.drop_last() =~= s.remove(i));
        assert(t.last() == x);
    } else {
        assert(t.drop_last() =~= s.drop_last().update(i, x));
        lemma_filter_update_drop(s.drop_last(), i, x, pred);
        assert(s.remove(i).drop_last() =~= s.drop_last().update(i, x).remove(i));
        assert(s.drop_last().update(i, x).remove(i) =~= s.drop_last().remove(i));
        assert(s.remove(i).last() == s.last());
        assert(t.last() == s.last());
        if pred(s.last()) {
            assert(t.filter(pred) == t.drop_last().filter(pred).push(s.last()));
            assert(s.remove(i).filter(pred) == s.remove(i).drop_last().filter(pred).push(
                s.last(),
            ));
        }
    }
}

/// Marks every running job whose session has gone as completed.  Absence
/// of a session is definitive completion: there are no retries.  The
/// queued jobs, and so the saved queue, are untouched.
pub fn reconcile_sessions(jobs: &mut Vec<Job>, alive: &Vec<bool>)
    requires
        old(jobs)@.len() == alive@.len(),
        jobs_wf(old(jobs)@),
    ensures
        final(jobs)@.len() == old(jobs)@.len(),
        forall|i: int|
            0 <= i < final(jobs)@.len() ==> #[trigger] final(jobs)@[i] == (
            if old(jobs)@[i].status is Running && !alive@[i] {
                with_status(old(jobs)@[i], JobStatus::Completed)
            } else {
                old(jobs)@[i]
            }),
        jobs_wf(final(jobs)@),
        queued_commands(final(jobs)@) == queued_commands(old(jobs)@),
{
    let ghost orig = jobs@;
    let mut i: usize = 0;
    while i < jobs.len()
        invariant
            jobs@.len() == orig.len() == alive@.len(),
            i <= jobs@.len(),
            jobs_wf(orig),
            forall|t: int|
                0 <= t < i ==> #[trigger] jobs@[t] == (
                if orig[t].status is Running && !alive@[t] {
                    with_status(orig[t], JobStatus::Completed)
                } else {
                    orig[t]
                }),
            forall|t: int| i <= t < jobs@.len() ==> #[trigger] jobs@[t] == orig[t],
            queued_commands(jobs@) == queued_commands(orig),
        decreases jobs@.len() - i,
    {
        let dead = matches!(jobs[i].status, JobStatus::Running) && !alive[i];
        if dead {
            let ghost before = jobs@;
            let mut j = jobs.remove(i);
            j.status = JobStatus::Completed;
            proof {
                assert(j == with_status(orig[i as int], JobStatus::Completed));
            }
            jobs.insert(i, j);
            proof {
                assert(jobs@ =~= before.update(i as int, j));
                lemma_filter_update_keep_none(
                    before,
                    i as int,
                    j,
                    |jb: Job| jb.status is Queued,
                );
            }
        }
        i = i + 1;
    }
    proof {
        assert forall|a: int, b: int|
            0 <= a < jobs@.len() && 0 <= b < jobs@.len() && a != b && (
            #[trigger] jobs@[a]).status is Running && (#[trigger] jobs@[b]).status
            is Running implies jobs@[a].gpu_index != jobs@[b].gpu_index by {
            assert(jobs@[a].gpu_index == orig[a].gpu_index);
            assert(jobs@[b].gpu_index == orig[b].gpu_index);
            assert(orig[a].status is Running && orig[b].status is Running);
        }
        assert forall|a: int| 0 <= a < jobs@.len() implies job_wf(#[trigger] jobs@[a]) by {
            assert(job_wf(orig[a]));
        }
    }
}

/// Is device `g` held by some running job?
pub fn gpu_in_use(jobs: &Vec<Job>, g: usize) -> (r: bool)
    ensures
        r == gpu_held(jobs@, g),
{
    let mut i: usize = 0;
    while i < jobs.len()
        invariant
            i <= jobs@.len(),
            forall|t: int| 0 <= t < i ==> !holds_gpu(#[trigger] jobs@[t], g),
        decreases jobs@.len() - i,
    {
        if matches!(jobs[i].status, JobStatus::Running) {
            let held = match &jobs[i].gpu_index {
                Some(x) => *x == g,
                None => false,
            };
            if held {
                assert(holds_gpu(jobs@[i as int], g));
                return true;
            }
        }
        i = i + 1;
    }
    false
}

/// Inserting one value adds exactly it to what a sequence holds.
proof fn lemma_insert_contains(s: Seq<usize>, p: int, x: usize)
    requires
        0 <= p <= s.len(),
    ensures
        forall|y: usize| s.insert(p, x).contains(y) <==> s.contains(y) || y == x,
{
    let t = s.insert(p, x);
    assert forall|y: usize| t.contains(y) implies s.contains(y) || y == x by {
        let w = choose|w: int| 0 <= w < t.len() && t[w] == y;
        if w < p {
            assert(s[w] == y);
        } else if w > p {
            assert(s[w - 1] == y);
        }
    }
    assert forall|y: usize| s.contains(y) || y == x implies t.contains(y) by {
        if s.contains(y) {
            let w = choose|w: int| 0 <= w < s.len() && s[w] == y;
            if w < p {
                assert(t[w] == y);
            } else {
                assert(t[w + 1] == y);
            }
        } else {
            assert(t[p] == y);
        }
    }
}

/// Computes the devices open for assignment this tick: each reported
/// index that no running job holds, once each, in ascending index order.
pub fn available_gpus(gpus: &Vec<GpuInfo>, jobs: &Vec<Job>) -> (avail: Vec<usize>)
    ensures
        forall|k1: int, k2: int| 0 <= k1 < k2 < avail@.len() ==> avail@[k1] < avail@[k2],
        forall|g: usize|
            avail@.contains(g) <==> gpus@.map_values(|gg: GpuInfo| gg.index).contains(g)
                && !gpu_held(jobs@, g),
{
    let ghost m = gpus@.map_values(|gg: GpuInfo| gg.index);
    let mut avail: Vec<usize> = Vec::new();
    let mut i: usize = 0;
    proof {
        assert(m.take(0) =~= Seq::<usize>::empty());
    }
    while i < gpus.len()
        invariant
            i <= gpus@.len(),
            m == gpus@.map_values(|gg: GpuInfo| gg.index),
            forall|k1: int, k2: int| 0 <= k1 < k2 < avail@.len() ==> avail@[k1] < avail@[k2],
            forall|g: usize|
                avail@.contains(g) <==> m.take(i as int).contains(g) && !gpu_held(jobs@, g),
        decreases gpus@.len() - i,
    {
        let g = gpus[i].index;
        let held = gpu_in_use(jobs, g);
        let ghost avail0 = avail@;
        proof {
            assert(m[i as int] == g);
            assert forall|g2: usize| m.take(i + 1).contains(g2) implies m.take(i as int).contains(
                g2,
            ) || g2 == g by {
                let w = choose|w: int| 0 <= w < i + 1 && #[trigger] m.take(i + 1)[w] == g2;
                if w < i {
                    assert(m.take(i as int)[w] == g2);
                }
            }
            assert forall|g2: usize|
                m.take(i as int).contains(g2) || g2 == g implies m.take(i + 1).contains(g2) by {
                if m.take(i as int).contains(g2) {
                    let w = choose|w: int| 0 <= w < i && #[trigger] m.take(i as int)[w] == g2;
                    assert(m.take(i + 1)[w] == g2);
                } else {
                    assert(m.take(i + 1)[i as int] == g);
                }
            }
        }
        if !held {
            // keep the list sorted: find where this index belongs
            let mut p: usize = 0;
            while p < avail.len() && avail[p] < g
                invariant
                    p <= avail@.len(),
                    avail@ == avail0,
                    forall|t: int| 0 <= t < p ==> avail@[t] < g,
                decreases avail@.len() - p,
            {
                p = p + 1;
            }
            let present = p < avail.len() && avail[p] == g;
            if !present {
                proof {
                    assert(forall|k1: int, k2: int|
                        0 <= k1 < k2 < avail@.len() ==> avail@[k1] < avail@[k2]);
                    if p < avail@.len() {
                        assert(avail@[p as int] > g);
                    }
                    lemma_insert_contains(avail@, p as int, g);
                }
                avail.insert(p, g);
                proof {
                    assert forall|k1: int, k2: int|
                        0 <= k1 < k2 < avail@.len() implies avail@[k1] < avail@[k2] by {
                        let a1 = if k1 < p {
                            avail0[k1]
                        } else if k1 == p {
                            g
                        } else {
                            avail0[k1 - 1]
                        };
                        let a2 = if k2 < p {
                            avail0[k2]
                        } else if k2 == p {
                            g
                        } else {
                            avail0[k2 - 1]
                        };
                        assert(avail@[k1] == a1 && avail@[k2] == a2);
                        if k2 > p {
                            assert(p < avail0.len() ==> avail0[p as int] > g);
                        }
                    }
                    assert forall|g2: usize| avail@.contains(g2) implies m.take(i + 1).contains(
                        g2,
                    ) && !gpu_held(jobs@, g2) by {
                        assert(avail0.contains(g2) || g2 == g);
                        if g2 != g {
                            assert(m.take(i as int).contains(g2));
                        }
                    }
                    assert forall|g2: usize|
                        m.take(i + 1).contains(g2) && !gpu_held(jobs@, g2) implies avail@.contains(
                        g2,
                    ) by {
                        if g2 != g {
                            assert(m.take(i as int).contains(g2));
                            assert(avail0.contains(g2));
                        }
                    }
                }
            } else {
                proof {
                    assert(avail@[p as int] == g);
                    assert(avail@.contains(g));
                    assert forall|g2: usize|
                        m.take(i + 1).contains(g2) && !gpu_held(jobs@, g2) implies avail@.contains(
                        g2,
                    ) by {
                        if g2 != g {
                            assert(m.take(i as int).contains(g2));
                        }
                    }
                    assert forall|g2: usize| avail@.contains(g2) implies m.take(i + 1).contains(
                        g2,
                    ) && !gpu_held(jobs@, g2) by {
                        assert(m.take(i as int).contains(g2));
                    }
                }
            }
        } else {
            proof {
                assert forall|g2: usize| avail@.contains(g2) implies m.take(i + 1).contains(g2)
                    && !gpu_held(jobs@, g2) by {
                    assert(m.take(i as int).contains(g2));
                }
                assert forall|g2: usize|
                    m.take(i + 1).contains(g2) && !gpu_held(jobs@, g2) implies avail@.contains(
                    g2,
                ) by {
                    if g2 != g {
                        assert(m.take(i as int).contains(g2));
                    }
                }
            }
        }
        i = i + 1;
    }
    proof {
        assert(m.take(i as int) =~= m);
    }
    avail
}

/// The positions of the queued jobs at or after `from`, earliest first.
pub open spec fn queued_indices_from(jobs: Seq<Job>, from: nat) -> Seq<int>
    decreases jobs.len() - from when from <= jobs.len()
{
    if from >= jobs.len() {
        Seq::empty()
    } else if jobs[from as int].status is Queued {
        seq![from as int] + queued_indices_from(jobs, from + 1)
    } else {
        queued_indices_from(jobs, from + 1)
    }
}

/// The positions of the queued jobs, earliest first.
pub open spec fn queued_indices(jobs: Seq<Job>) -> Seq<int> {
    queued_indices_from(jobs, 0)
}

/// Queued positions point at queued jobs and come in increasing order.
pub proof fn lemma_queued_indices_from(jobs: Seq<Job>, from: nat)
    requires
        from <= jobs.len(),
    ensures
        forall|k: int|
            0 <= k < queued_indices_from(jobs, from).len() ==> from <= #[trigger] queued_indices_from(
                jobs,
                from,
            )[k] < jobs.len() && jobs[queued_indices_from(jobs, from)[k]].status is Queued,
        forall|k1: int, k2: int|
            0 <= k1 < k2 < queued_indices_from(jobs, from).len() ==> queued_indices_from(
                jobs,
                from,
            )[k1] < queued_indices_from(jobs, from)[k2],
    decreases jobs.len() - from,
{
    if from < jobs.len() {
        lemma_queued_indices_from(jobs, from + 1);
    }
}

/// Queued positions point at queued jobs and come in increasing order.
pub proof fn lemma_queued_indices(jobs: Seq<Job>)
    ensures
        forall|k: int|
            0 <= k < queued_indices(jobs).len() ==> 0 <= #[trigger] queued_indices(jobs)[k]
                < jobs.len() && jobs[queued_indices(jobs)[k]].status is Queued,
        forall|k1: int, k2: int|
            0 <= k1 < k2 < queued_indices(jobs).len() ==> queued_indices(jobs)[k1]
                < queued_indices(jobs)[k2],
{
    lemma_queued_indices_from(jobs, 0);
}

/// Pairs the earliest queued jobs with the available devices, first come
/// first served: the k-th available device receives the k-th queued job.
/// At most one job is paired with each device per tick.
pub fn plan_assignments(jobs: &Vec<Job>, avail: &Vec<usize>) -> (plan: Vec<(usize, usize)>)
    ensures
        plan@.len() == if queued_indices(jobs@).len() <= avail@.len() {
            queued_indices(jobs@).len() as int
        } else {
            avail@.len() as int
        },
        forall|k: int|
            0 <= k < plan@.len() ==> (#[trigger] plan@[k]).0 == queued_indices(jobs@)[k]
                && plan@[k].1 == avail@[k],
{
    let mut plan: Vec<(usize, usize)> = Vec::new();
    let mut cursor: usize = 0;
    let mut d: usize = 0;
    proof {
        assert(queued_indices(jobs@).skip(0) =~= queued_indices(jobs@));
    }
    while d < avail.len()
        invariant
            d <= avail@.len(),
            cursor <= jobs@.len(),
            plan@.len() == d,
            d <= queued_indices(jobs@).len(),
            queued_indices(jobs@).skip(d as int) == queued_indices_from(jobs@, cursor as nat),
            forall|k: int|
                0 <= k < d ==> (#[trigger] plan@[k]).0 == queued_indices(jobs@)[k] && plan@[k].1
                    == avail@[k],
        decreases avail@.len() - d,
    {
        let mut found = false;
        while cursor < jobs.len() && !found
            invariant
                cursor <= jobs@.len(),
                queued_indices(jobs@).skip(d as int) == queued_indices_from(jobs@, cursor as nat),
                found ==> cursor < jobs@.len() && jobs@[cursor as int].status is Queued,
            decreases jobs@.len() - cursor + (if found {
                0int
            } else {
                1int
            }),
        {
            if matches!(jobs[cursor].status, JobStatus::Queued) {
                found = true;
            } else {
                cursor = cursor + 1;
            }
        }
        if !found {
            proof {
                assert(queued_indices_from(jobs@, cursor as nat) =~= Seq::<int>::empty());
                assert(queued_indices(jobs@).skip(d as int).len() == 0);
                assert(queued_indices(jobs@).len() == d);
            }
            return plan;
        }
        proof {
            let qi = queued_indices(jobs@);
            assert(queued_indices_from(jobs@, cursor as nat) == seq![cursor as int]
                + queued_indices_from(jobs@, cursor as nat + 1));
            assert(qi.skip(d as int)[0] == cursor as int);
            assert(qi[d as int] == cursor as int);
            assert(qi.skip(d + 1) =~= qi.skip(d as int).drop_first());
            assert(qi.skip(d as int).drop_first() =~= queued_indices_from(jobs@, cursor as nat + 1));
        }
        plan.push((cursor, avail[d]));
        cursor = cursor + 1;
        d = d + 1;
    }
    proof {
        assert(queued_indices(jobs@).len() >= d);
    }
    plan
}

/// Records a successful session start: the queued job at `i` becomes the
/// running holder of `gpu`, carrying its session name, start time, log
/// directory and environment overlay.
pub fn start_assigned(
    jobs: &mut Vec<Job>,
    i: usize,
    gpu: usize,
    session: Vec<u8>,
    start_time: u64,
    log_dir: Vec<u8>,
    env_vars: Vec<(Vec<u8>, Vec<u8>)>,
)
    requires
        i < old(jobs)@.len(),
        old(jobs)@[i as int].status is Queued,
        !gpu_held(old(jobs)@, gpu),
        jobs_wf(old(jobs)@),
    ensures
        final(jobs)@.len() == old(jobs)@.len(),
        final(jobs)@[i as int].status is Running,
        final(jobs)@[i as int].gpu_index == Some(gpu),
        final(jobs)@[i as int].session == Some(session),
        final(jobs)@[i as int].start_time == Some(start_time),
        final(jobs)@[i as int].log_dir == Some(log_dir),
        final(jobs)@[i as int].env_vars == env_vars,
        final(jobs)@[i as int].id == old(jobs)@[i as int].id,
        final(jobs)@[i as int].command == old(jobs)@[i as int].command,
        forall|t: int|
            0 <= t < final(jobs)@.len() && t != i ==> #[trigger] final(jobs)@[t] == old(jobs)@[t],
        jobs_wf(final(jobs)@),
        gpu_held(final(jobs)@, gpu),
        forall|g: usize| g != gpu ==> gpu_held(final(jobs)@, g) == gpu_held(old(jobs)@, g),
        queued_commands(final(jobs)@) == queued_commands(old(jobs)@.remove(i as int)),
{
    let ghost orig = jobs@;
    let mut j = jobs.remove(i);
    j.status = JobStatus::Running;
    j.gpu_index = Some(gpu);
    j.session = Some(session);
    j.start_time = Some(start_time);
    j.log_dir = Some(log_dir);
    j.env_vars = env_vars;
    jobs.insert(i, j);
    proof {
        assert(jobs@ =~= orig.update(i as int, j));
        lemma_filter_update_drop(orig, i as int, j, |jb: Job| jb.status is Queued);
        assert(holds_gpu(jobs@[i as int], gpu));
        assert forall|a: int, b: int|
            0 <= a < jobs@.len() && 0 <= b < jobs@.len() && a != b && (
            #[trigger] jobs@[a]).status is Running && (#[trigger] jobs@[b]).status
            is Running implies jobs@[a].gpu_index != jobs@[b].gpu_index by {
            if a != i && b != i {
                assert(jobs@[a] == orig[a] && jobs@[b] == orig[b]);
            } else if a == i {
                assert(jobs@[b] == orig[b]);
                assert(!holds_gpu(orig[b], gpu));
            } else {
                assert(jobs@[a] == orig[a]);
                assert(!holds_gpu(orig[a], gpu));
            }
        }
        assert forall|a: int| 0 <= a < jobs@.len() implies job_wf(#[trigger] jobs@[a]) by {
            if a != i {
                assert(jobs@[a] == orig[a]);
            }
        }
        assert forall|g: usize| g != gpu implies gpu_held(jobs@, g) == gpu_held(orig, g) by {
            if gpu_held(jobs@, g) {
                let w = choose|w: int| 0 <= w < jobs@.len() && holds_gpu(jobs@[w], g);
                assert(w != i ==> holds_gpu(orig[w], g));
            }
            if gpu_held(orig, g) {
                let w = choose|w: int| 0 <= w < orig.len() && holds_gpu(orig[w], g);
                assert(w != i);
                assert(holds_gpu(jobs@[w], g));
            }
        }
    }
}

/// Records a failed session start: the queued job at `i` becomes failed,
/// terminally; nothing else changes, and the device stays open for the
/// next tick.  After the next save the job is absent from the queue file.
pub fn fail_assigned(jobs: &mut Vec<Job>, i: usize)
    requires
        i < old(jobs)@.len(),
        old(jobs)@[i as int].status is Queued,
        jobs_wf(old(jobs)@),
    ensures
        final(jobs)@.len() == old(jobs)@.len(),
        final(jobs)@[i as int] == with_status(old(jobs)@[i as int], JobStatus::Failed),
        forall|t: int|
            0 <= t < final(jobs)@.len() && t != i ==> #[trigger] final(jobs)@[t] == old(jobs)@[t],
        jobs_wf(final(jobs)@),
        forall|g: usize| gpu_held(final(jobs)@, g) == gpu_held(old(jobs)@, g),
        queued_commands(final(jobs)@) == queued_commands(old(jobs)@.remove(i as int)),
{
    let ghost orig = jobs@;
    let mut j = jobs.remove(i);
    j.status = JobStatus::Failed;
    jobs.insert(i, j);
    proof {
        assert(jobs@ =~= orig.update(i as int, j));
        lemma_filter_update_drop(orig, i as int, j, |jb: Job| jb.status is Queued);
        assert forall|a: int, b: int|
            0 <= a < jobs@.len() && 0 <= b < jobs@.len() && a != b && (
            #[trigger] jobs@[a]).status is Running && (#[trigger] jobs@[b]).status
            is Running implies jobs@[a].gpu_index != jobs@[b].gpu_index by {
            assert(jobs@[a] == orig[a] && jobs@[b] == orig[b]);
        }
        assert forall|a: int| 0 <= a < jobs@.len() implies job_wf(#[trigger] jobs@[a]) by {
            if a != i {
                assert(jobs@[a] == orig[a]);
            }
        }
        assert forall|g: usize| gpu_held(jobs@, g) implies gpu_held(orig, g) by {
            let w = choose|w: int| 0 <= w < jobs@.len() && holds_gpu(jobs@[w], g);
            assert(w != i);
            assert(holds_gpu(orig[w], g));
        }
        assert forall|g: usize| gpu_held(orig, g) implies gpu_held(jobs@, g) by {
            let w = choose|w: int| 0 <= w < orig.len() && holds_gpu(orig[w], g);
            assert(w != i);
            assert(holds_gpu(jobs@[w], g));
        }
    }
}

/// The session name a job carries, as plain text.
pub open spec fn session_view(j: Job) -> Option<Seq<u8>> {
    match j.session {
        Some(s) => Some(s@),
        None => None,
    }
}

/// Does some job already carry this session name?
pub open spec fn session_present(jobs: Seq<Job>, sv: Option<Seq<u8>>) -> bool {
    exists|i: int| 0 <= i < jobs.len() && session_view(#[trigger] jobs[i]) == sv
}

/// The shape of a job rebuilt from live system state: running, holding a
/// device and naming its session; its original command is unrecoverable.
pub open spec fn recovered_job(j: Job) -> bool {
    j.status is Running && j.gpu_index is Some && j.session is Some
}

/// Recovered jobs folded into the in-memory set, in order: one is taken
/// exactly when its device is not yet held and its session is not yet
/// known, so recovery keeps the invariant and repeating it adds nothing.
pub open spec fn merge_spec(jobs: Seq<Job>, rec: Seq<Job>) -> Seq<Job>
    decreases rec.len(),
{
    if rec.len() == 0 {
        jobs
    } else {
        let j = rec[0];
        let keep = !gpu_held(jobs, j.gpu_index->0) && !session_present(jobs, session_view(j));
        merge_spec(
            if keep {
                jobs.push(j)
            } else {
                jobs
            },
            rec.drop_first(),
        )
    }
}

/// Does some job already carry this session name?
fn session_known(jobs: &Vec<Job>, sv: &Option<Vec<u8>>) -> (r: bool)
    ensures
        r == session_present(
            jobs@,
            match sv {
                Some(s) => Some(s@),
                None => None,
            },
        ),
{
    let ghost target: Option<Seq<u8>> = match sv {
        Some(s) => Some(s@),
        None => None,
    };
    let mut i: usize = 0;
    while i < jobs.len()
        invariant
            i <= jobs@.len(),
            target == (match sv {
                Some(s) => Some(s@),
                None => None,
            }),
            forall|t: int| 0 <= t < i ==> session_view(#[trigger] jobs@[t]) != target,
        decreases jobs@.len() - i,
    {
        let same = match (&jobs[i].session, sv) {
            (Some(a), Some(b)) => crate::text::bytes_eq(a.as_slice(), b.as_slice()),
            (None, None) => true,
            _ => false,
        };
        if same {
            assert(session_view(jobs@[i as int]) == target);
            return true;
        }
        i = i + 1;
    }
    false
}

/// Folds the jobs recovered at startup into the in-memory set before the
/// first tick, so each taken job is running and its device is excluded
/// from availability from the start.  A candidate whose device is already
/// held, or whose session is already known, is dropped: recovery is
/// idempotent and never breaks the one-job-per-device invariant.
pub fn merge_recovered(jobs: &mut Vec<Job>, recovered: Vec<Job>)
    requires
        jobs_wf(old(jobs)@),
        forall|i: int| 0 <= i < recovered@.len() ==> recovered_job(#[trigger] recovered@[i]),
    ensures
        final(jobs)@ == merge_spec(old(jobs)@, recovered@),
        jobs_wf(final(jobs)@),
        queued_commands(final(jobs)@) == queued_commands(old(jobs)@),
{
    let ghost orig = jobs@;
    let ghost orec = recovered@;
    let mut rec = recovered;
    while rec.len() > 0
        invariant
            jobs_wf(jobs@),
            forall|t: int| 0 <= t < rec@.len() ==> recovered_job(#[trigger] rec@[t]),
            merge_spec(orig, orec) == merge_spec(jobs@, rec@),
            queued_commands(jobs@) == queued_commands(orig),
        decreases rec@.len(),
    {
        let ghost jobs_before = jobs@;
        let ghost rec_before = rec@;
        let j = rec.remove(0);
        proof {
            assert(rec@ =~= rec_before.drop_first());
            assert(j == rec_before[0]);
        }
        let g = if let Some(gv) = &j.gpu_index {
            *gv
        } else {
            0
        };
        proof {
            assert(recovered_job(j));
            assert(g == j.gpu_index->0);
        }
        let held = gpu_in_use(jobs, g);
        let fresh = !held && !session_known(jobs, &j.session);
        proof {
            let keep = !gpu_held(jobs_before, j.gpu_index->0) && !session_present(
                jobs_before,
                session_view(j),
            );
            assert(fresh == keep);
        }
        if fresh {
            proof {
                assert(job_wf(j));
                assert forall|a: int, b: int|
                    0 <= a < jobs@.push(j).len() && 0 <= b < jobs@.push(j).len() && a != b && (
                    #[trigger] jobs@.push(j)[a]).status is Running && (
                    #[trigger] jobs@.push(j)[b]).status is Running implies jobs@.push(
                    j,
                )[a].gpu_index != jobs@.push(j)[b].gpu_index by {
                    if b == jobs@.len() {
                        assert(jobs@.push(j)[a] == jobs@[a]);
                        assert(!holds_gpu(jobs@[a], g));
                    } else if a == jobs@.len() {
                        assert(jobs@.push(j)[b] == jobs@[b]);
                        assert(!holds_gpu(jobs@[b], g));
                    } else {
                        assert(jobs@.push(j)[a] == jobs@[a]);
                        assert(jobs@.push(j)[b] == jobs@[b]);
                    }
                }
                lemma_filter_push(jobs@, j, |jb: Job| jb.status is Queued);
            }
            jobs.push(j);
        }
    }
    proof {
        assert(rec@.len() == 0);
    }
}

/// While every running job holds a device the last probe reported, the
/// running jobs never outnumber the reported devices: each holds its own
/// device, and no device is held twice.
pub proof fn lemma_running_bounded(jobs: Seq<Job>, idxs: Seq<usize>)
    requires
        jobs_wf(jobs),
        forall|i: int|
            0 <= i < jobs.len() && (#[trigger] jobs[i]).status is Running ==> idxs.contains(
                jobs[i].gpu_index->0,
            ),
    ensures
        count_status(jobs, JobStatus::Running) <= idxs.len(),
    decreases jobs.len(),
{
    let pred = |j: Job| j.status == JobStatus::Running;
    if jobs.len() == 0 {
        crate::text::lemma_filter_empty(pred);
    } else {
        let rest = jobs.drop_last();
        let last = jobs.last();
        assert(jobs =~= rest.push(last));
        lemma_filter_push(rest, last, pred);
        assert(jobs_wf(rest)) by {
            assert(forall|i: int| 0 <= i < rest.len() ==> rest[i] == jobs[i]);
        }
        if last.status is Running {
            let g = last.gpu_index->0;
            assert(jobs[jobs.len() - 1] == last);
            assert(idxs.contains(g));
            let p = choose|p: int| 0 <= p < idxs.len() && idxs[p] == g;
            let smaller = idxs.remove(p);
            assert forall|i: int|
                0 <= i < rest.len() && (#[trigger] rest[i]).status is Running implies smaller.contains(
                rest[i].gpu_index->0,
            ) by {
                assert(rest[i] == jobs[i]);
                assert(jobs[i].gpu_index != last.gpu_index);
                assert(jobs[i].gpu_index is Some && last.gpu_index is Some);
                assert(rest[i].gpu_index->0 != g);
                assert(idxs.contains(jobs[i].gpu_index->0));
                lemma_remove_contains(idxs, p, rest[i].gpu_index->0);
            }
            lemma_running_bounded(rest, smaller);
        } else {
            lemma_running_bounded(rest, idxs);
        }
    }
}

/// The count of running jobs never exceeds the number of devices the
/// most recent probe reported, as long as each holds a reported device.
pub proof fn lemma_running_bounded_by_devices(jobs: Seq<Job>, gpus: Seq<GpuInfo>)
    requires
        jobs_wf(jobs),
        forall|i: int|
            0 <= i < jobs.len() && (#[trigger] jobs[i]).status is Running ==> gpus.map_values(
                |g: GpuInfo| g.index,
            ).contains(jobs[i].gpu_index->0),
    ensures
        count_status(jobs, JobStatus::Running) <= gpus.len(),
{
    lemma_running_bounded(jobs, gpus.map_values(|g: GpuInfo| g.index));
}

/// One recorded start keeps every running job on a reported device, so
/// the bound of `lemma_running_bounded_by_devices` carries from tick to
/// tick: the new holder's device was reported, and no other job moved.
pub proof fn lemma_start_keeps_reported(
    before: Seq<Job>,
    after: Seq<Job>,
    i: int,
    gpu: usize,
    idxs: Seq<usize>,
)
    requires
        0 <= i < before.len(),
        after.len() == before.len(),
        after[i].status is Running && after[i].gpu_index == Some(gpu),
        forall|t: int| 0 <= t < after.len() && t != i ==> after[t] == before[t],
        idxs.contains(gpu),
        forall|t: int|
            0 <= t < before.len() && (#[trigger] before[t]).status is Running ==> idxs.contains(
                before[t].gpu_index->0,
            ),
    ensures
        forall|t: int|
            0 <= t < after.len() && (#[trigger] after[t]).status is Running ==> idxs.contains(
                after[t].gpu_index->0,
            ),
{
    assert forall|t: int|
        0 <= t < after.len() && (#[trigger] after[t]).status is Running implies idxs.contains(
        after[t].gpu_index->0,
    ) by {
        if t != i {
            assert(after[t] == before[t]);
        }
    }
}

/// A job whose start failed is gone from the queue file after the next
/// save: saving writes exactly the still-queued commands, which are those
/// of the other jobs.
pub proof fn lemma_failed_job_unsaved(before: Seq<Job>, after: Seq<Job>, i: int)
    requires
        0 <= i < before.len(),
        after == before.update(i, with_status(before[i], JobStatus::Failed)),
    ensures
        queued_commands(after) == queued_commands(before.remove(i)),
{
    lemma_filter_update_drop(
        before,
        i,
        with_status(before[i], JobStatus::Failed),
        |jb: Job| jb.status is Queued,
    );
}

/// Removing one element leaves every other value present.
proof fn lemma_remove_contains<A>(s: Seq<A>, p: int, x: A)
    requires
        0 <= p < s.len(),
        s.contains(x),
        x != s[p],
    ensures
        s.remove(p).contains(x),
{
    let q = choose|q: int| 0 <= q < s.len() && s[q] == x;
    if q < p {
        assert(s.remove(p)[q] == x);
    } else {
        assert(s.remove(p)[q - 1] == x);
    }
}

/// A recovered job is treated as running: its device is excluded from any
/// availability list of the very next tick (`available_gpus` offers only
/// unheld devices), and the job, not being queued, is never planned for
/// assignment a second time.
pub proof fn lemma_recovered_not_reassigned(merged: Seq<Job>, avail: Seq<usize>, i: int)
    requires
        0 <= i < merged.len(),
        merged[i].status is Running,
        merged[i].gpu_index is Some,
        forall|g: usize| avail.contains(g) ==> !gpu_held(merged, g),
    ensures
        !avail.contains(merged[i].gpu_index->0),
        forall|k: int| 0 <= k < queued_indices(merged).len() ==> queued_indices(merged)[k] != i,
{
    let g = merged[i].gpu_index->0;
    assert(holds_gpu(merged[i], g));
    assert(gpu_held(merged, g));
    lemma_queued_indices(merged);
    assert forall|k: int|
        0 <= k < queued_indices(merged).len() implies queued_indices(merged)[k] != i by {
        assert(merged[queued_indices(merged)[k]].status is Queued);
    }
}

/// One tick proceeds only when the pause marker is absent and the refresh
/// interval has elapsed; while the marker exists nothing is assigned, and
/// removing it lets the next tick assign normally.
pub fn should_process(paused: bool, elapsed_secs: u64, refresh_rate: u64) -> (r: bool)
    ensures
        r == (!paused && elapsed_secs >= refresh_rate),
{
    !paused && elapsed_secs >= refresh_rate
}

} // verus!
