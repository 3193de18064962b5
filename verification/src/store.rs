//! The queue file: the durable store of not-yet-started commands.
//!
//! The file is newline-delimited command text.  Reading skips blank lines
//! and lines whose first visible byte is `#`; writing puts the command of
//! every queued job on a line of its own, in order, and nothing else.  Any
//! job not queued at save time is absent from the file afterwards, by
//! design.

use vstd::prelude::*;

use crate::job::{queued_commands, Job};
use crate::text::{
    contains_seq, lemma_filter_empty, lemma_filter_one, lemma_filter_push, lemma_find_at, lines,
    strip_cr, trim, trim_bytes, views,
};
use crate::job::create_job;

verus! {

/// A line the reader keeps: not blank, and not a comment.
pub open spec fn keepable(line: Seq<u8>) -> bool {
    trim(line).len() > 0 && trim(line)[0] != 35
}

/// What loading the queue file yields: its kept lines, in order.
pub open spec fn parse_queue_spec(s: Seq<u8>) -> Seq<Seq<u8>> {
    lines(s).filter(|l: Seq<u8>| keepable(l))
}

/// What saving writes: each command on a line of its own, in order.
pub open spec fn render_commands(cmds: Seq<Seq<u8>>) -> Seq<u8>
    decreases cmds.len(),
{
    if cmds.len() == 0 {
        Seq::empty()
    } else {
        cmds[0] + seq![10u8] + render_commands(cmds.drop_first())
    }
}

/// Command text that survives a trip through the queue file unchanged: a
/// kept line with no embedded newline and no trailing carriage return.
pub open spec fn storable(c: Seq<u8>) -> bool {
    &&& keepable(c)
    &&& !contains_seq(c, seq![10u8])
    &&& c.len() > 0 ==> c.last() != 13
}

/// Splits the queue file into the commands it holds.
pub fn parse_queue(s: &[u8]) -> (cmds: Vec<Vec<u8>>)
    ensures
        views(cmds@) == parse_queue_spec(s@),
{
    let mut out: Vec<Vec<u8>> = Vec::new();
    let mut pos: usize = 0;
    proof {
        assert(s@.skip(0) =~= s@);
        assert(views(out@) + parse_queue_spec(s@) =~= parse_queue_spec(s@));
    }
    while pos < s.len()
        invariant
            pos <= s@.len(),
            parse_queue_spec(s@) == views(out@) + parse_queue_spec(s@.skip(pos as int)),
        decreases s@.len() - pos,
    {
        let mut j: usize = pos;
        while j < s.len() && s[j] != 10
            invariant
                pos <= j <= s@.len(),
                forall|t: int| pos <= t < j ==> s@[t] != 10,
            decreases s@.len() - j,
        {
            j = j + 1;
        }
        let mut end = j;
        if end > pos && s[end - 1] == 13 {
            end = end - 1;
        }
        let mut line: Vec<u8> = Vec::new();
        let mut t = pos;
        while t < end
            invariant
                pos <= t <= end <= s@.len(),
                line@ == s@.subrange(pos as int, t as int),
            decreases end - t,
        {
            line.push(s[t]);
            proof {
                assert(s@.subrange(pos as int, t + 1) =~= s@.subrange(pos as int, t as int).push(
                    s@[t as int],
                ));
            }
            t = t + 1;
        }
        let tr = trim_bytes(line.as_slice());
        let keep = tr.len() > 0 && tr[0] != 35;
        proof {
            let suf = s@.skip(pos as int);
            let pred = |l: Seq<u8>| keepable(l);
            assert forall|u: int| 0 <= u < j - pos implies suf[u] != 10 by {
                assert(suf[u] == s@[pos + u]);
            }
            if j < s@.len() {
                assert(suf[j - pos] == s@[j as int]);
            }
            lemma_find_at(suf, 10, j - pos);
            assert(suf.take(j - pos) =~= s@.subrange(pos as int, j as int));
            assert(strip_cr(s@.subrange(pos as int, j as int)) == line@) by {
                if end < j {
                    assert(s@.subrange(pos as int, j as int).last() == s@[j - 1]);
                    assert(s@.subrange(pos as int, j as int).drop_last() =~= s@.subrange(
                        pos as int,
                        end as int,
                    ));
                } else {
                    assert(s@.subrange(pos as int, j as int).len() > 0 ==> s@.subrange(
                        pos as int,
                        j as int,
                    ).last() == s@[j - 1]);
                }
            }
            assert(keep == keepable(line@));
            lemma_filter_one(line@, pred);
            if j < s@.len() {
                assert(lines(suf) == seq![line@] + lines(suf.skip(j - pos + 1)));
                assert(suf.skip(j - pos + 1) =~= s@.skip(j + 1));
                Seq::filter_distributes_over_add(seq![line@], lines(s@.skip(j + 1)), pred);
                if keep {
                    assert(views(out@.push(line)) =~= views(out@).push(line@));
                    assert(views(out@.push(line)) + parse_queue_spec(s@.skip(j + 1))
                        =~= views(out@) + parse_queue_spec(suf));
                } else {
                    assert(views(out@) + parse_queue_spec(s@.skip(j + 1)) =~= views(out@)
                        + parse_queue_spec(suf));
                }
            } else {
                assert(lines(suf) == seq![line@]);
                assert(s@.skip(j as int) =~= Seq::<u8>::empty());
                lemma_filter_empty(pred);
                assert(lines(Seq::<u8>::empty()) == Seq::<Seq<u8>>::empty());
                if keep {
                    assert(views(out@.push(line)) =~= views(out@).push(line@));
                    assert(views(out@.push(line)) + parse_queue_spec(s@.skip(j as int))
                        =~= views(out@) + parse_queue_spec(suf));
                } else {
                    assert(views(out@) + parse_queue_spec(s@.skip(j as int)) =~= views(out@)
                        + parse_queue_spec(suf));
                }
            }
        }
        if keep {
            out.push(line);
        }
        pos = if j < s.len() {
            j + 1
        } else {
            j
        };
    }
    proof {
        assert(s@.skip(pos as int) =~= Seq::<u8>::empty());
        lemma_filter_empty(|l: Seq<u8>| keepable(l));
        assert(views(out@) + parse_queue_spec(s@.skip(pos as int)) =~= views(out@));
    }
    out
}

/// Appending a command to the rendered text.
proof fn lemma_render_push(cmds: Seq<Seq<u8>>, c: Seq<u8>)
    ensures
        render_commands(cmds.push(c)) == render_commands(cmds) + c + seq![10u8],
    decreases cmds.len(),
{
    let all = cmds.push(c);
    if cmds.len() == 0 {
        assert(all[0] == c);
        assert(all.drop_first() =~= Seq::<Seq<u8>>::empty());
        assert(render_commands(all.drop_first()) =~= Seq::<u8>::empty());
        assert(render_commands(all) =~= render_commands(cmds) + c + seq![10u8]);
    } else {
        assert(all[0] == cmds[0]);
        assert(all.drop_first() =~= cmds.drop_first().push(c));
        lemma_render_push(cmds.drop_first(), c);
        assert(render_commands(all) == all[0] + seq![10u8] + render_commands(all.drop_first()));
        assert(render_commands(all) =~= render_commands(cmds) + c + seq![10u8]);
    }
}

/// Renders the queue file: the command of every queued job, one per line.
pub fn render_queue(jobs: &Vec<Job>) -> (r: Vec<u8>)
    ensures
        r@ == render_commands(queued_commands(jobs@)),
{
    let mut r: Vec<u8> = Vec::new();
    let mut i: usize = 0;
    proof {
        lemma_filter_empty(|j: Job| j.status is Queued);
        assert(jobs@.take(0) =~= Seq::<Job>::empty());
        assert(queued_commands(jobs@.take(0)) =~= Seq::<Seq<u8>>::empty());
    }
    while i < jobs.len()
        invariant
            i <= jobs@.len(),
            r@ == render_commands(queued_commands(jobs@.take(i as int))),
        decreases jobs@.len() - i,
    {
        proof {
            let pred = |j: Job| j.status is Queued;
            assert(jobs@.take(i + 1) =~= jobs@.take(i as int).push(jobs@[i as int]));
            lemma_filter_push(jobs@.take(i as int), jobs@[i as int], pred);
            if pred(jobs@[i as int]) {
                assert(queued_commands(jobs@.take(i + 1)) =~= queued_commands(
                    jobs@.take(i as int),
                ).push(jobs@[i as int].command@));
                lemma_render_push(
                    queued_commands(jobs@.take(i as int)),
                    jobs@[i as int].command@,
                );
            } else {
                assert(queued_commands(jobs@.take(i + 1)) =~= queued_commands(
                    jobs@.take(i as int),
                ));
            }
        }
        if matches!(jobs[i].status, crate::job::JobStatus::Queued) {
            let mut k: usize = 0;
            let ghost base = r@;
            while k < jobs[i].command.len()
                invariant
                    i < jobs@.len(),
                    k <= jobs@[i as int].command@.len(),
                    r@ == base + jobs@[i as int].command@.take(k as int),
                decreases jobs@[i as int].command@.len() - k,
            {
                let b = jobs[i].command[k];
                r.push(b);
                proof {
                    assert(jobs@[i as int].command@.take(k + 1) =~= jobs@[i as int].command@.take(
                        k as int,
                    ).push(jobs@[i as int].command@[k as int]));
                    assert(r@ =~= base + jobs@[i as int].command@.take(k + 1));
                }
                k = k + 1;
            }
            r.push(10);
            proof {
                assert(jobs@[i as int].command@.take(jobs@[i as int].command@.len() as int)
                    =~= jobs@[i as int].command@);
                assert(r@ =~= base + jobs@[i as int].command@ + seq![10u8]);
            }
        }
        i = i + 1;
    }
    proof {
        assert(jobs@.take(i as int) =~= jobs@);
    }
    r
}

/// Wraps loaded commands in fresh queued jobs carrying the given ids.
pub fn jobs_from_commands(cmds: Vec<Vec<u8>>, ids: Vec<Vec<u8>>) -> (jobs: Vec<Job>)
    requires
        cmds@.len() == ids@.len(),
    ensures
        jobs@.len() == cmds@.len(),
        forall|i: int|
            0 <= i < jobs@.len() ==> (#[trigger] jobs@[i]).command@ == cmds@[i]@
                && jobs@[i].id@ == ids@[i]@ && jobs@[i].status is Queued && jobs@[i].gpu_index
                is None && jobs@[i].session is None && jobs@[i].start_time is None
                && jobs@[i].log_dir is None && jobs@[i].env_vars@.len() == 0,
        queued_commands(jobs@) == views(cmds@),
{
    let ghost ocmds = cmds@;
    let ghost oids = ids@;
    let mut jobs: Vec<Job> = Vec::new();
    let mut rest_cmds = cmds;
    let mut rest_ids = ids;
    proof {
        lemma_filter_empty(|j: Job| j.status is Queued);
        assert(rest_cmds@.skip(0) =~= ocmds);
        assert(rest_ids@.skip(0) =~= oids);
        assert(queued_commands(jobs@) =~= views(ocmds.take(0)));
    }
    while rest_cmds.len() > 0
        invariant
            rest_cmds@.len() == rest_ids@.len(),
            jobs@.len() + rest_cmds@.len() == ocmds.len(),
            ocmds.len() == oids.len(),
            rest_cmds@ == ocmds.skip(jobs@.len() as int),
            rest_ids@ == oids.skip(jobs@.len() as int),
            forall|t: int|
                0 <= t < jobs@.len() ==> (#[trigger] jobs@[t]).command@ == ocmds[t]@
                    && jobs@[t].id@ == oids[t]@ && jobs@[t].status is Queued
                    && jobs@[t].gpu_index is None && jobs@[t].session is None
                    && jobs@[t].start_time is None && jobs@[t].log_dir is None
                    && jobs@[t].env_vars@.len() == 0,
            queued_commands(jobs@) == views(ocmds.take(jobs@.len() as int)),
        decreases rest_cmds@.len(),
    {
        let ghost done = jobs@.len() as int;
        let command = rest_cmds.remove(0);
        let id = rest_ids.remove(0);
        proof {
            assert(command == ocmds[done]);
            assert(id == oids[done]);
            assert(rest_cmds@ =~= ocmds.skip(done + 1));
            assert(rest_ids@ =~= oids.skip(done + 1));
        }
        let j = create_job(command, id);
        proof {
            let pred = |jb: Job| jb.status is Queued;
            lemma_filter_push(jobs@, j, pred);
            assert(queued_commands(jobs@.push(j)) =~= queued_commands(jobs@).push(j.command@));
            assert(ocmds.take(done + 1) =~= ocmds.take(done).push(ocmds[done]));
            assert(views(ocmds.take(done + 1)) =~= views(ocmds.take(done)).push(ocmds[done]@));
        }
        jobs.push(j);
    }
    proof {
        assert(ocmds.take(jobs@.len() as int) =~= ocmds);
    }
    jobs
}

/// Saving and then loading, with no tick in between, reproduces the queued
/// commands exactly, in order, whenever each is storable text.  Job ids and
/// the other attributes are not expected to survive the trip.
pub proof fn lemma_queue_round_trip(cmds: Seq<Seq<u8>>)
    requires
        forall|i: int| 0 <= i < cmds.len() ==> storable(#[trigger] cmds[i]),
    ensures
        parse_queue_spec(render_commands(cmds)) == cmds,
    decreases cmds.len(),
{
    let pred = |l: Seq<u8>| keepable(l);
    if cmds.len() == 0 {
        lemma_filter_empty(pred);
        assert(lines(render_commands(cmds)) == Seq::<Seq<u8>>::empty());
    } else {
        let c0 = cmds[0];
        let rest = cmds.drop_first();
        let s = render_commands(cmds);
        assert(storable(c0));
        assert(c0.len() > 0);
        assert forall|t: int| 0 <= t < c0.len() implies s[t] != 10 by {
            assert(s[t] == c0[t]);
            if c0[t] == 10 {
                assert(c0.subrange(t, t + 1) =~= seq![10u8]);
                assert(contains_seq(c0, seq![10u8]));
            }
        }
        assert(s[c0.len() as int] == 10);
        lemma_find_at(s, 10, c0.len() as int);
        assert(s.take(c0.len() as int) =~= c0);
        assert(strip_cr(c0) == c0);
        assert(s.skip(c0.len() as int + 1) =~= render_commands(rest));
        assert(lines(s) == seq![c0] + lines(render_commands(rest)));
        Seq::filter_distributes_over_add(seq![c0], lines(render_commands(rest)), pred);
        lemma_filter_one(c0, pred);
        assert(forall|i: int| 0 <= i < rest.len() ==> storable(#[trigger] rest[i]));
        lemma_queue_round_trip(rest);
        assert(parse_queue_spec(s) =~= cmds);
    }
}

} // verus!
