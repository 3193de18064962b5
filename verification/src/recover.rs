//! Crash recovery: rebuilding the running jobs from live system state.
//!
//! At startup the scheduler lists the live execution contexts, keeps the
//! ones named by the job-session convention, and reads each one's device
//! from the device-visibility variable in the live process table.  Each
//! match becomes a running job holding only its id, device and session
//! name: the original command text is unrecoverable by this path.  The
//! two listings arrive as plain text; everything here is a pure function
//! of them.

use vstd::prelude::*;

use crate::job::{Job, JobStatus};
use crate::sched::{recovered_job, session_view};
use crate::session::{session_prefix, session_prefix_bytes, visibility_var, visibility_var_bytes};
use crate::text::{
    all_digits, bytes_suffix, contains_seq, dec_val, is_space, lemma_find_at, lemma_token_end_at,
    lines, parse_u64, split_bytes, split_on, starts_with, starts_with_bytes, strip_cr, tokens,
    tokens_from, views,
};

verus! {

/// The first token of `ts` that begins with `p`.
pub open spec fn first_with_prefix(ts: Seq<Seq<u8>>, p: Seq<u8>) -> Option<Seq<u8>>
    decreases ts.len(),
{
    if ts.len() == 0 {
        None
    } else if starts_with(ts[0], p) {
        Some(ts[0])
    } else {
        first_with_prefix(ts.drop_first(), p)
    }
}

/// The first line of `ls` that holds `needle`.
pub open spec fn first_line_with(ls: Seq<Seq<u8>>, needle: Seq<u8>) -> Option<Seq<u8>>
    decreases ls.len(),
{
    if ls.len() == 0 {
        None
    } else if contains_seq(ls[0], needle) {
        Some(ls[0])
    } else {
        first_line_with(ls.drop_first(), needle)
    }
}

/// Finds the first whitespace-separated token of `line` that begins with
/// `prefix`.
pub fn first_token_with_prefix(line: &[u8], prefix: &[u8]) -> (r: Option<Vec<u8>>)
    ensures
        (match r {
            Some(t) => Some(t@),
            None => None,
        }) == first_with_prefix(tokens(line@), prefix@),
{
    let mut pos: usize = 0;
    while pos < line.len()
        invariant
            pos <= line@.len(),
            first_with_prefix(tokens(line@), prefix@) == first_with_prefix(
                tokens_from(line@, pos as nat),
                prefix@,
            ),
        decreases line@.len() - pos,
    {
        let b = line[pos];
        if b == 32 || b == 9 || b == 13 || b == 10 {
            proof {
                assert(is_space(line@[pos as int]));
            }
            pos = pos + 1;
        } else {
            let mut e: usize = pos;
            while e < line.len() && !(line[e] == 32 || line[e] == 9 || line[e] == 13 || line[e]
                == 10)
                invariant
                    pos <= e <= line@.len(),
                    forall|i: int| pos <= i < e ==> !is_space(line@[i]),
                decreases line@.len() - e,
            {
                e = e + 1;
            }
            proof {
                lemma_token_end_at(line@, pos as nat, e as nat);
            }
            let mut tok: Vec<u8> = Vec::new();
            let mut t = pos;
            while t < e
                invariant
                    pos <= t <= e <= line@.len(),
                    tok@ == line@.subrange(pos as int, t as int),
                decreases e - t,
            {
                tok.push(line[t]);
                proof {
                    assert(line@.subrange(pos as int, t + 1) =~= line@.subrange(
                        pos as int,
                        t as int,
                    ).push(line@[t as int]));
                }
                t = t + 1;
            }
            proof {
                assert(tokens_from(line@, pos as nat) == seq![tok@] + tokens_from(
                    line@,
                    e as nat,
                ));
            }
            if starts_with_bytes(tok.as_slice(), prefix) {
                return Some(tok);
            }
            proof {
                assert(seq![tok@][0] == tok@);
                assert((seq![tok@] + tokens_from(line@, e as nat)).drop_first() =~= tokens_from(
                    line@,
                    e as nat,
                ));
            }
            pos = e;
        }
    }
    proof {
        assert(tokens_from(line@, pos as nat) =~= Seq::<Seq<u8>>::empty());
    }
    None
}

/// The device named by a `KEY=VALUE` token: the text between the first
/// and second equals sign, read as a decimal numeral.
pub open spec fn gpu_of_token(tok: Seq<u8>) -> Option<usize> {
    let f = split_on(tok, 61);
    if f.len() >= 2 && f[1].len() > 0 && all_digits(f[1]) && dec_val(f[1]) <= usize::MAX as int {
        Some(dec_val(f[1]) as usize)
    } else {
        None
    }
}

/// The device a process-table line reveals: the value of the first
/// device-visibility token on it.
pub open spec fn gpu_of_ps_line(line: Seq<u8>) -> Option<usize> {
    match first_with_prefix(tokens(line), visibility_var() + seq![61u8]) {
        Some(tok) => gpu_of_token(tok),
        None => None,
    }
}

/// The device of a session, read from the live process table: the first
/// line naming the session is searched for the device-visibility
/// variable.
pub open spec fn ps_gpu(ps: Seq<u8>, session: Seq<u8>) -> Option<usize> {
    match first_line_with(lines(ps), session) {
        Some(l) => gpu_of_ps_line(l),
        None => None,
    }
}

/// Reads the device of `session` out of the process-table text.
pub fn gpu_from_ps(ps: &[u8], session: &[u8]) -> (r: Option<usize>)
    ensures
        r == ps_gpu(ps@, session@),
{
    let mut pos: usize = 0;
    proof {
        assert(ps@.skip(0) =~= ps@);
    }
    while pos < ps.len()
        invariant
            pos <= ps@.len(),
            first_line_with(lines(ps@), session@) == first_line_with(
                lines(ps@.skip(pos as int)),
                session@,
            ),
        decreases ps@.len() - pos,
    {
        let mut j: usize = pos;
        while j < ps.len() && ps[j] != 10
            invariant
                pos <= j <= ps@.len(),
                forall|t: int| pos <= t < j ==> ps@[t] != 10,
            decreases ps@.len() - j,
        {
            j = j + 1;
        }
        let mut end = j;
        if end > pos && ps[end - 1] == 13 {
            end = end - 1;
        }
        let mut line: Vec<u8> = Vec::new();
        let mut t = pos;
        while t < end
            invariant
                pos <= t <= end <= ps@.len(),
                line@ == ps@.subrange(pos as int, t as int),
            decreases end - t,
        {
            line.push(ps[t]);
            proof {
                assert(ps@.subrange(pos as int, t + 1) =~= ps@.subrange(pos as int, t as int).push(
                    ps@[t as int],
                ));
            }
            t = t + 1;
        }
        proof {
            let suf = ps@.skip(pos as int);
            assert forall|u: int| 0 <= u < j - pos implies suf[u] != 10 by {
                assert(suf[u] == ps@[pos + u]);
            }
            if j < ps@.len() {
                assert(suf[j - pos] == ps@[j as int]);
            }
            lemma_find_at(suf, 10, j - pos);
            assert(suf.take(j - pos) =~= ps@.subrange(pos as int, j as int));
            assert(strip_cr(ps@.subrange(pos as int, j as int)) == line@) by {
                if end < j {
                    assert(ps@.subrange(pos as int, j as int).last() == ps@[j - 1]);
                    assert(ps@.subrange(pos as int, j as int).drop_last() =~= ps@.subrange(
                        pos as int,
                        end as int,
                    ));
                } else {
                    assert(ps@.subrange(pos as int, j as int).len() > 0 ==> ps@.subrange(
                        pos as int,
                        j as int,
                    ).last() == ps@[j - 1]);
                }
            }
            if j < ps@.len() {
                assert(suf.skip(j - pos + 1) =~= ps@.skip(j + 1));
                assert(lines(suf) == seq![line@] + lines(ps@.skip(j + 1)));
                assert((seq![line@] + lines(ps@.skip(j + 1))).drop_first() =~= lines(
                    ps@.skip(j + 1),
                ));
            } else {
                assert(lines(suf) == seq![line@]);
                assert(seq![line@].drop_first() =~= Seq::<Seq<u8>>::empty());
            }
        }
        if crate::text::contains_bytes(line.as_slice(), session) {
            // the first line naming the session decides
            let vis_eq = {
                let mut v = visibility_var_bytes();
                v.push(61);
                v
            };
            proof {
                assert(vis_eq@ =~= visibility_var() + seq![61u8]);
            }
            let tok_opt = first_token_with_prefix(line.as_slice(), vis_eq.as_slice());
            match tok_opt {
                Some(tok) => {
                    let fields = split_bytes(tok.as_slice(), 61);
                    proof {
                        assert(views(fields@) == split_on(tok@, 61));
                    }
                    if fields.len() >= 2 {
                        proof {
                            assert(fields@[1]@ == split_on(tok@, 61)[1]);
                        }
                        match parse_u64(fields[1].as_slice()) {
                            Some(v) => {
                                if v <= usize::MAX as u64 {
                                    return Some(v as usize);
                                } else {
                                    return None;
                                }
                            },
                            None => {
                                return None;
                            },
                        }
                    } else {
                        return None;
                    }
                },
                None => {
                    return None;
                },
            }
        }
        pos = if j < ps.len() {
            j + 1
        } else {
            j
        };
        proof {
            if pos == ps@.len() {
                assert(ps@.skip(pos as int) =~= Seq::<u8>::empty());
            }
        }
    }
    proof {
        assert(ps@.skip(pos as int) =~= Seq::<u8>::empty());
    }
    None
}

/// What recovery yields from the two listings: for each context line, in
/// order, the first token carrying the job-session prefix, paired with
/// the device its process advertises; lines without both are dropped.
pub open spec fn recovered_entries(ls: Seq<Seq<u8>>, ps: Seq<u8>) -> Seq<(Seq<u8>, usize)>
    decreases ls.len(),
{
    if ls.len() == 0 {
        Seq::empty()
    } else {
        let rest = recovered_entries(ls.drop_first(), ps);
        match first_with_prefix(tokens(ls[0]), session_prefix()) {
            Some(sess) => match ps_gpu(ps, sess) {
                Some(g) => seq![(sess, g)] + rest,
                None => rest,
            },
            None => rest,
        }
    }
}

/// Rebuilds the running jobs from the context listing and the process
/// table.  Each recovered job holds only its id, device and session
/// name, with empty command text, and is running.
pub fn recover_jobs(screen_ls: &[u8], ps: &[u8]) -> (jobs: Vec<Job>)
    ensures
        jobs@.len() == recovered_entries(lines(screen_ls@), ps@).len(),
        forall|k: int|
            0 <= k < jobs@.len() ==> {
                let e = recovered_entries(lines(screen_ls@), ps@)[k];
                &&& session_view(#[trigger] jobs@[k]) == Some(e.0)
                &&& jobs@[k].id@ == e.0.skip(session_prefix().len() as int)
                &&& jobs@[k].gpu_index == Some(e.1)
                &&& jobs@[k].status is Running
                &&& jobs@[k].command@ == Seq::<u8>::empty()
                &&& jobs@[k].start_time is None
                &&& jobs@[k].log_dir is None
                &&& jobs@[k].env_vars@.len() == 0
                &&& recovered_job(jobs@[k])
            },
{
    let ghost all = recovered_entries(lines(screen_ls@), ps@);
    let mut out: Vec<Job> = Vec::new();
    let ghost mut done: Seq<(Seq<u8>, usize)> = Seq::empty();
    let prefix = session_prefix_bytes();
    let mut pos: usize = 0;
    proof {
        assert(screen_ls@.skip(0) =~= screen_ls@);
        assert(done + recovered_entries(lines(screen_ls@), ps@) =~= all);
    }
    while pos < screen_ls.len()
        invariant
            pos <= screen_ls@.len(),
            prefix@ == session_prefix(),
            all == recovered_entries(lines(screen_ls@), ps@),
            all == done + recovered_entries(lines(screen_ls@.skip(pos as int)), ps@),
            out@.len() == done.len(),
            forall|k: int|
                0 <= k < out@.len() ==> {
                    let e = done[k];
                    &&& session_view(#[trigger] out@[k]) == Some(e.0)
                    &&& out@[k].id@ == e.0.skip(session_prefix().len() as int)
                    &&& out@[k].gpu_index == Some(e.1)
                    &&& out@[k].status is Running
                    &&& out@[k].command@ == Seq::<u8>::empty()
                    &&& out@[k].start_time is None
                    &&& out@[k].log_dir is None
                    &&& out@[k].env_vars@.len() == 0
                    &&& recovered_job(out@[k])
                },
        decreases screen_ls@.len() - pos,
    {
        let mut j: usize = pos;
        while j < screen_ls.len() && screen_ls[j] != 10
            invariant
                pos <= j <= screen_ls@.len(),
                forall|t: int| pos <= t < j ==> screen_ls@[t] != 10,
            decreases screen_ls@.len() - j,
        {
            j = j + 1;
        }
        let mut end = j;
        if end > pos && screen_ls[end - 1] == 13 {
            end = end - 1;
        }
        let mut line: Vec<u8> = Vec::new();
        let mut t = pos;
        while t < end
            invariant
                pos <= t <= end <= screen_ls@.len(),
                line@ == screen_ls@.subrange(pos as int, t as int),
            decreases end - t,
        {
            line.push(screen_ls[t]);
            proof {
                assert(screen_ls@.subrange(pos as int, t + 1) =~= screen_ls@.subrange(
                    pos as int,
                    t as int,
                ).push(screen_ls@[t as int]));
            }
            t = t + 1;
        }
        proof {
            let suf = screen_ls@.skip(pos as int);
            assert forall|u: int| 0 <= u < j - pos implies suf[u] != 10 by {
                assert(suf[u] == screen_ls@[pos + u]);
            }
            if j < screen_ls@.len() {
                assert(suf[j - pos] == screen_ls@[j as int]);
            }
            lemma_find_at(suf, 10, j - pos);
            assert(suf.take(j - pos) =~= screen_ls@.subrange(pos as int, j as int));
            assert(strip_cr(screen_ls@.subrange(pos as int, j as int)) == line@) by {
                if end < j {
                    assert(screen_ls@.subrange(pos as int, j as int).last() == screen_ls@[j - 1]);
                    assert(screen_ls@.subrange(pos as int, j as int).drop_last()
                        =~= screen_ls@.subrange(pos as int, end as int));
                } else {
                    assert(screen_ls@.subrange(pos as int, j as int).len() > 0
                        ==> screen_ls@.subrange(pos as int, j as int).last() == screen_ls@[j - 1]);
                }
            }
            if j < screen_ls@.len() {
                assert(suf.skip(j - pos + 1) =~= screen_ls@.skip(j + 1));
                assert(lines(suf) == seq![line@] + lines(screen_ls@.skip(j + 1)));
                assert((seq![line@] + lines(screen_ls@.skip(j + 1)))[0] == line@);
                assert((seq![line@] + lines(screen_ls@.skip(j + 1))).drop_first() =~= lines(
                    screen_ls@.skip(j + 1),
                ));
            } else {
                assert(lines(suf) == seq![line@]);
                assert(seq![line@][0] == line@);
                assert(seq![line@].drop_first() =~= Seq::<Seq<u8>>::empty());
                assert(screen_ls@.skip(j as int) =~= Seq::<u8>::empty());
            }
        }
        let sess_opt = first_token_with_prefix(line.as_slice(), prefix.as_slice());
        match sess_opt {
            Some(sess) => {
                let gpu_opt = gpu_from_ps(ps, sess.as_slice());
                match gpu_opt {
                    Some(g) => {
                        proof {
                            assert(starts_with(sess@, session_prefix())) by {
                                let ts = tokens(line@);
                                lemma_first_with_prefix_starts(ts, session_prefix());
                            }
                        }
                        let id = bytes_suffix(sess.as_slice(), prefix.len());
                        let job = Job {
                            id,
                            command: Vec::new(),
                            start_time: None,
                            gpu_index: Some(g),
                            session: Some(sess),
                            status: JobStatus::Running,
                            log_dir: None,
                            env_vars: Vec::new(),
                        };
                        proof {
                            let e = (job.session->0@, g);
                            done = done + seq![e];
                        }
                        out.push(job);
                    },
                    None => {
                    },
                }
            },
            None => {
            },
        }
        pos = if j < screen_ls.len() {
            j + 1
        } else {
            j
        };
        proof {
            if pos == screen_ls@.len() {
                assert(screen_ls@.skip(pos as int) =~= Seq::<u8>::empty());
            }
            assert(all =~= done + recovered_entries(lines(screen_ls@.skip(pos as int)), ps@));
        }
    }
    proof {
        assert(screen_ls@.skip(pos as int) =~= Seq::<u8>::empty());
        assert(recovered_entries(lines(screen_ls@.skip(pos as int)), ps@)
            =~= Seq::<(Seq<u8>, usize)>::empty());
        assert(all =~= done);
    }
    out
}

/// Whatever `first_with_prefix` yields begins with the prefix.
proof fn lemma_first_with_prefix_starts(ts: Seq<Seq<u8>>, p: Seq<u8>)
    ensures
        first_with_prefix(ts, p) is Some ==> starts_with(first_with_prefix(ts, p)->0, p),
    decreases ts.len(),
{
    if ts.len() > 0 && !starts_with(ts[0], p) {
        lemma_first_with_prefix_starts(ts.drop_first(), p);
    }
}

} // verus!
