//! Pure builders for the session collaborator.
//!
//! A job runs inside a detached, named, persistent execution context.
//! Everything textual about that context is built here: the session name
//! derived from the job id, the environment overlay, the shell text that
//! exports it, and the wrapped command that redirects output into the
//! job's log directory.  The process that creates, lists and terminates
//! contexts lives outside the library.

use vstd::prelude::*;

use crate::text::{
    contains_seq, dec_repr, lemma_filter_push, starts_with, starts_with_bytes, u64_to_dec,
};

verus! {

/// The prefix of every job session name; reads "nexus_job_".
pub open spec fn session_prefix() -> Seq<u8> {
    seq![110u8, 101u8, 120u8, 117u8, 115u8, 95u8, 106u8, 111u8, 98u8, 95u8]
}

/// The session-name prefix as bytes.
pub fn session_prefix_bytes() -> (r: Vec<u8>)
    ensures
        r@ == session_prefix(),
{
    let r: Vec<u8> = vec![110, 101, 120, 117, 115, 95, 106, 111, 98, 95];
    proof {
        assert(r@ =~= session_prefix());
    }
    r
}

/// The session name a job id maps to, rediscoverable after a restart.
pub open spec fn spec_session_name(id: Seq<u8>) -> Seq<u8> {
    session_prefix() + id
}

/// Derives the session name for a job id.
pub fn session_name_for(id: &[u8]) -> (r: Vec<u8>)
    ensures
        r@ == spec_session_name(id@),
{
    let mut r = session_prefix_bytes();
    r.extend_from_slice(id);
    proof {
        assert(r@ =~= spec_session_name(id@));
    }
    r
}

/// Is this session name in the collaborator's listing?  The listing
/// decorates each name, so membership is the name led by a dot occurring
/// anywhere in the text.
pub fn session_listed(listing: &[u8], session: &[u8]) -> (r: bool)
    ensures
        r == contains_seq(listing@, seq![46u8] + session@),
{
    let mut needle: Vec<u8> = Vec::new();
    needle.push(46);
    needle.extend_from_slice(session);
    proof {
        assert(needle@ =~= seq![46u8] + session@);
    }
    crate::text::contains_bytes(listing, needle.as_slice())
}

/// The device-visibility variable; reads "CUDA_VISIBLE_DEVICES".
pub open spec fn visibility_var() -> Seq<u8> {
    seq![
        67u8, 85u8, 68u8, 65u8, 95u8, 86u8, 73u8, 83u8, 73u8, 66u8, 76u8, 69u8, 95u8, 68u8, 69u8,
        86u8, 73u8, 67u8, 69u8, 83u8,
    ]
}

/// The device-visibility variable name as bytes.
pub fn visibility_var_bytes() -> (r: Vec<u8>)
    ensures
        r@ == visibility_var(),
{
    let r: Vec<u8> = vec![
        67, 85, 68, 65, 95, 86, 73, 83, 73, 66, 76, 69, 95, 68, 69, 86, 73, 67, 69, 83,
    ];
    proof {
        assert(r@ =~= visibility_var());
    }
    r
}

/// The job-id variable; reads "NEXUS_JOB_ID".
pub open spec fn job_id_var() -> Seq<u8> {
    seq![78u8, 69u8, 88u8, 85u8, 83u8, 95u8, 74u8, 79u8, 66u8, 95u8, 73u8, 68u8]
}

/// The gpu-id variable; reads "NEXUS_GPU_ID".
pub open spec fn gpu_id_var() -> Seq<u8> {
    seq![78u8, 69u8, 88u8, 85u8, 83u8, 95u8, 71u8, 80u8, 85u8, 95u8, 73u8, 68u8]
}

/// The reserved prefix of the session manager's own variables, which the
/// overlay drops from the inherited environment; reads "SCREEN_".
pub open spec fn reserved_prefix() -> Seq<u8> {
    seq![83u8, 67u8, 82u8, 69u8, 69u8, 78u8, 95u8]
}

/// A key the overlay sets itself.  An inherited variable under one of
/// these names is dropped, so no later export in the rendered text can
/// override the overlay's own assignment.
pub open spec fn overlay_key(k: Seq<u8>) -> bool {
    k == visibility_var() || k == job_id_var() || k == gpu_id_var()
}

/// Is an inherited variable carried into the overlay?  Neither the
/// session manager's reserved variables nor stale copies of the
/// overlay's own keys survive.
pub open spec fn inherited_kept(kv: (Seq<u8>, Seq<u8>)) -> bool {
    !starts_with(kv.0, reserved_prefix()) && !overlay_key(kv.0)
}

/// The views of a key/value list.
pub open spec fn pair_views(vs: Seq<(Vec<u8>, Vec<u8>)>) -> Seq<(Seq<u8>, Seq<u8>)> {
    vs.map_values(|kv: (Vec<u8>, Vec<u8>)| (kv.0@, kv.1@))
}

/// The environment a job's session starts with: the device-visibility
/// variable naming its device, the job-id and gpu-id variables, then the
/// inherited environment, in order, minus the session manager's reserved
/// variables and minus any inherited copy of those three keys, so each
/// key appears once.
pub open spec fn spec_env_overlay(
    id: Seq<u8>,
    gpu: nat,
    inherited: Seq<(Seq<u8>, Seq<u8>)>,
) -> Seq<(Seq<u8>, Seq<u8>)> {
    seq![
        (visibility_var(), dec_repr(gpu)),
        (job_id_var(), id),
        (gpu_id_var(), dec_repr(gpu)),
    ] + inherited.filter(|kv: (Seq<u8>, Seq<u8>)| inherited_kept(kv))
}

/// Builds the environment overlay for starting a job on device `gpu`.
pub fn build_env(id: &[u8], gpu: usize, inherited: Vec<(Vec<u8>, Vec<u8>)>) -> (r: Vec<
    (Vec<u8>, Vec<u8>),
>)
    ensures
        pair_views(r@) == spec_env_overlay(id@, gpu as nat, pair_views(inherited@)),
{
    let ghost oinh = pair_views(inherited@);
    let ghost pred = |kv: (Seq<u8>, Seq<u8>)| inherited_kept(kv);
    let mut r: Vec<(Vec<u8>, Vec<u8>)> = Vec::new();
    let gpu_text = u64_to_dec(gpu as u64);
    let mut id_copy: Vec<u8> = Vec::new();
    id_copy.extend_from_slice(id);
    let mut gpu_text2: Vec<u8> = Vec::new();
    gpu_text2.extend_from_slice(gpu_text.as_slice());
    let mut job_id_key: Vec<u8> = vec![78, 69, 88, 85, 83, 95, 74, 79, 66, 95, 73, 68];
    let mut gpu_id_key: Vec<u8> = vec![78, 69, 88, 85, 83, 95, 71, 80, 85, 95, 73, 68];
    proof {
        assert(job_id_key@ =~= job_id_var());
        assert(gpu_id_key@ =~= gpu_id_var());
        assert(id_copy@ =~= id@);
        assert(gpu_text2@ =~= gpu_text@);
    }
    r.push((visibility_var_bytes(), gpu_text));
    r.push((job_id_key, id_copy));
    r.push((gpu_id_key, gpu_text2));
    let ghost head = seq![
        (visibility_var(), dec_repr(gpu as nat)),
        (job_id_var(), id@),
        (gpu_id_var(), dec_repr(gpu as nat)),
    ];
    proof {
        crate::text::lemma_filter_empty(pred);
        assert(pair_views(r@) =~= head + oinh.take(0).filter(pred));
    }
    let mut inh = inherited;
    let screen: Vec<u8> = vec![83, 67, 82, 69, 69, 78, 95];
    let vis_key = visibility_var_bytes();
    let job_key: Vec<u8> = vec![78, 69, 88, 85, 83, 95, 74, 79, 66, 95, 73, 68];
    let gpu_key: Vec<u8> = vec![78, 69, 88, 85, 83, 95, 71, 80, 85, 95, 73, 68];
    proof {
        assert(screen@ =~= reserved_prefix());
        assert(job_key@ =~= job_id_var());
        assert(gpu_key@ =~= gpu_id_var());
    }
    while inh.len() > 0
        invariant
            pred == (|kv: (Seq<u8>, Seq<u8>)| inherited_kept(kv)),
            screen@ == reserved_prefix(),
            vis_key@ == visibility_var(),
            job_key@ == job_id_var(),
            gpu_key@ == gpu_id_var(),
            pair_views(inh@) == oinh.skip(oinh.len() - inh@.len()),
            inh@.len() <= oinh.len(),
            pair_views(r@) == head + oinh.take(oinh.len() - inh@.len()).filter(pred),
        decreases inh@.len(),
    {
        let ghost done = oinh.len() - inh@.len();
        let ghost inh_before = inh@;
        let kv = inh.remove(0);
        proof {
            assert(kv == inh_before[0]);
            assert(pair_views(inh_before)[0] == oinh[done]);
            assert((kv.0@, kv.1@) == oinh[done]);
            assert(inh@ =~= inh_before.drop_first());
            assert(pair_views(inh@) =~= pair_views(inh_before).drop_first());
            assert(pair_views(inh@) =~= oinh.skip(done + 1));
        }
        let keep = !starts_with_bytes(kv.0.as_slice(), screen.as_slice()) && !crate::text::bytes_eq(
            kv.0.as_slice(),
            vis_key.as_slice(),
        ) && !crate::text::bytes_eq(kv.0.as_slice(), job_key.as_slice())
            && !crate::text::bytes_eq(kv.0.as_slice(), gpu_key.as_slice());
        proof {
            lemma_filter_push(oinh.take(done), oinh[done], pred);
            assert(oinh.take(done + 1) =~= oinh.take(done).push(oinh[done]));
            assert(oinh[done].0 == kv.0@);
            assert(keep == (!starts_with(kv.0@, reserved_prefix()) && !overlay_key(kv.0@)));
            assert(pred(oinh[done]) == inherited_kept(oinh[done]));
            assert(keep == pred(oinh[done]));
        }
        if keep {
            let ghost r_pre = r@;
            r.push(kv);
            proof {
                assert(r@ =~= r_pre.push(kv));
                assert(pair_views(r@) =~= pair_views(r_pre).push((kv.0@, kv.1@)));
                assert(oinh.take(done + 1).filter(pred) == oinh.take(done).filter(pred).push(
                    oinh[done],
                ));
                assert(pair_views(r@) =~= head + oinh.take(done + 1).filter(pred));
            }
        } else {
            proof {
                assert(pair_views(r@) =~= head + oinh.take(done + 1).filter(pred));
            }
        }
    }
    proof {
        assert(oinh.take(oinh.len() as int) =~= oinh);
    }
    r
}

/// Does some pair of `s` carry key `k`?
pub open spec fn has_key(s: Seq<(Seq<u8>, Seq<u8>)>, k: Seq<u8>) -> bool {
    exists|j: int| 0 <= j < s.len() && (#[trigger] s[j]).0 == k
}

/// Filtering a list with pairwise-distinct keys keeps them pairwise
/// distinct, and keeps only keys of the list.
proof fn lemma_filter_keeps_distinct_keys(
    s: Seq<(Seq<u8>, Seq<u8>)>,
    pred: spec_fn((Seq<u8>, Seq<u8>)) -> bool,
)
    requires
        forall|i: int, k: int|
            0 <= i < k < s.len() ==> (#[trigger] s[i]).0 != (#[trigger] s[k]).0,
    ensures
        forall|i: int|
            0 <= i < s.filter(pred).len() ==> has_key(s, (#[trigger] s.filter(pred)[i]).0),
        forall|i: int, k: int|
            0 <= i < k < s.filter(pred).len() ==> (#[trigger] s.filter(pred)[i]).0 != (
            #[trigger] s.filter(pred)[k]).0,
    decreases s.len(),
{
    reveal(Seq::filter);
    if s.len() > 0 {
        let dl = s.drop_last();
        let f = s.filter(pred);
        lemma_filter_keeps_distinct_keys(dl, pred);
        assert forall|k2: Seq<u8>| has_key(dl, k2) implies has_key(s, k2) by {
            let j = choose|j: int| 0 <= j < dl.len() && (#[trigger] dl[j]).0 == k2;
            assert(s[j].0 == k2);
        }
        if pred(s.last()) {
            assert(f == dl.filter(pred).push(s.last()));
            assert forall|i: int, k: int|
                0 <= i < k < f.len() implies (#[trigger] f[i]).0 != (#[trigger] f[k]).0 by {
                if k == f.len() - 1 {
                    assert(f[k] == s.last());
                    assert(f[i] == dl.filter(pred)[i]);
                    assert(has_key(dl, f[i].0));
                    let j = choose|j: int| 0 <= j < dl.len() && (#[trigger] dl[j]).0 == f[i].0;
                    assert(s[j].0 != s[s.len() - 1].0);
                } else {
                    assert(f[i] == dl.filter(pred)[i] && f[k] == dl.filter(pred)[k]);
                }
            }
        } else {
            assert(f == dl.filter(pred));
        }
    }
}

/// The overlay's keys are unique whenever the inherited environment's
/// keys are: its own three are pairwise distinct, both the reserved
/// variables and any inherited copy of those three are dropped from the
/// tail, and distinct inherited keys stay distinct — so no later export
/// in the rendered shell text overrides an earlier one.
pub proof fn lemma_env_overlay_keys_unique(
    id: Seq<u8>,
    gpu: nat,
    inherited: Seq<(Seq<u8>, Seq<u8>)>,
)
    requires
        forall|i: int, k: int|
            0 <= i < k < inherited.len() ==> (#[trigger] inherited[i]).0 != (
            #[trigger] inherited[k]).0,
    ensures
        forall|i: int, k: int|
            0 <= i < k < spec_env_overlay(id, gpu, inherited).len() ==> (
            #[trigger] spec_env_overlay(id, gpu, inherited)[i]).0 != (#[trigger] spec_env_overlay(
                id,
                gpu,
                inherited,
            )[k]).0,
{
    let pred = |kv: (Seq<u8>, Seq<u8>)| inherited_kept(kv);
    let tail = inherited.filter(pred);
    let ov = spec_env_overlay(id, gpu, inherited);
    lemma_filter_keeps_distinct_keys(inherited, pred);
    assert(visibility_var() != job_id_var()) by {
        assert(visibility_var().len() != job_id_var().len());
    }
    assert(visibility_var() != gpu_id_var()) by {
        assert(visibility_var().len() != gpu_id_var().len());
    }
    assert(job_id_var() != gpu_id_var()) by {
        assert(job_id_var()[6] != gpu_id_var()[6]);
    }
    assert forall|i: int, k: int|
        0 <= i < k < ov.len() implies (#[trigger] ov[i]).0 != (#[trigger] ov[k]).0 by {
        if k >= 3 {
            assert(ov[k] == tail[k - 3]);
            inherited.lemma_filter_pred(pred, k - 3);
            assert(!overlay_key(tail[k - 3].0));
            if i >= 3 {
                assert(ov[i] == tail[i - 3]);
            }
        }
    }
}

/// `v` with every double quote preceded by a backslash, ready to sit
/// inside a quoted shell word.
pub open spec fn spec_escape_quotes(v: Seq<u8>) -> Seq<u8>
    decreases v.len(),
{
    if v.len() == 0 {
        Seq::empty()
    } else if v[0] == 34 {
        seq![92u8, 34u8] + spec_escape_quotes(v.drop_first())
    } else {
        seq![v[0]] + spec_escape_quotes(v.drop_first())
    }
}

/// Escapes double quotes for a quoted shell word.
pub fn escape_quotes(v: &[u8]) -> (r: Vec<u8>)
    ensures
        r@ == spec_escape_quotes(v@),
{
    let mut r: Vec<u8> = Vec::new();
    let mut i: usize = 0;
    proof {
        assert(v@.skip(0) =~= v@);
    }
    while i < v.len()
        invariant
            i <= v@.len(),
            spec_escape_quotes(v@) == r@ + spec_escape_quotes(v@.skip(i as int)),
        decreases v@.len() - i,
    {
        let b = v[i];
        proof {
            let suf = v@.skip(i as int);
            assert(suf[0] == v@[i as int]);
            assert(suf.drop_first() =~= v@.skip(i + 1));
            if b == 34 {
                assert(spec_escape_quotes(suf) == seq![92u8, 34u8] + spec_escape_quotes(
                    v@.skip(i + 1),
                ));
                assert(r@ + seq![92u8, 34u8] + spec_escape_quotes(v@.skip(i + 1)) =~= r@
                    + spec_escape_quotes(suf));
            } else {
                assert(spec_escape_quotes(suf) == seq![b] + spec_escape_quotes(v@.skip(i + 1)));
                assert(r@ + seq![b] + spec_escape_quotes(v@.skip(i + 1)) =~= r@
                    + spec_escape_quotes(suf));
            }
        }
        if b == 34 {
            r.push(92);
            r.push(34);
        } else {
            r.push(b);
        }
        i = i + 1;
    }
    proof {
        assert(v@.skip(i as int) =~= Seq::<u8>::empty());
        assert(r@ + spec_escape_quotes(v@.skip(i as int)) =~= r@);
    }
    r
}

/// One export statement: `export KEY="VALUE";` with quotes escaped.
pub open spec fn spec_export_piece(kv: (Seq<u8>, Seq<u8>)) -> Seq<u8> {
    seq![101u8, 120u8, 112u8, 111u8, 114u8, 116u8, 32u8] + kv.0 + seq![61u8, 34u8]
        + spec_escape_quotes(kv.1) + seq![34u8, 59u8]
}

/// The export statements of the whole overlay, separated by single
/// spaces.
pub open spec fn spec_exports(pairs: Seq<(Seq<u8>, Seq<u8>)>) -> Seq<u8>
    decreases pairs.len(),
{
    if pairs.len() == 0 {
        Seq::empty()
    } else if pairs.len() == 1 {
        spec_export_piece(pairs[0])
    } else {
        spec_export_piece(pairs[0]) + seq![32u8] + spec_exports(pairs.drop_first())
    }
}

/// Renders the overlay as shell text that exports every variable.
pub fn render_exports(pairs: &Vec<(Vec<u8>, Vec<u8>)>) -> (r: Vec<u8>)
    ensures
        r@ == spec_exports(pair_views(pairs@)),
{
    let ghost all = pair_views(pairs@);
    let mut r: Vec<u8> = Vec::new();
    let mut i: usize = 0;
    proof {
        assert(all.skip(0) =~= all);
        assert(r@ + spec_exports(all) =~= spec_exports(all));
    }
    while i < pairs.len()
        invariant
            i <= pairs@.len(),
            all == pair_views(pairs@),
            spec_exports(all) == r@ + spec_exports(all.skip(i as int)),
        decreases pairs@.len() - i,
    {
        let ghost suf = all.skip(i as int);
        let ghost r0 = r@;
        // export KEY="VALUE";
        r.push(101);
        r.push(120);
        r.push(112);
        r.push(111);
        r.push(114);
        r.push(116);
        r.push(32);
        r.extend_from_slice(pairs[i].0.as_slice());
        r.push(61);
        r.push(34);
        let esc = escape_quotes(pairs[i].1.as_slice());
        r.extend_from_slice(esc.as_slice());
        r.push(34);
        r.push(59);
        proof {
            assert(suf[0] == (pairs@[i as int].0@, pairs@[i as int].1@));
            assert(suf.drop_first() =~= all.skip(i + 1));
            assert(r@ =~= r0 + spec_export_piece(suf[0]));
        }
        if i + 1 < pairs.len() {
            r.push(32);
            proof {
                assert(suf.len() > 1);
                assert(r@ =~= r0 + spec_export_piece(suf[0]) + seq![32u8]);
                assert(spec_exports(suf) == spec_export_piece(suf[0]) + seq![32u8] + spec_exports(
                    suf.drop_first(),
                ));
                assert(spec_exports(all) =~= r@ + spec_exports(all.skip(i + 1)));
            }
        } else {
            proof {
                assert(suf.len() == 1);
                assert(spec_exports(suf) == spec_export_piece(suf[0]));
                assert(all.skip(i + 1) =~= Seq::<(Seq<u8>, Seq<u8>)>::empty());
                assert(spec_exports(all) =~= r@ + spec_exports(all.skip(i + 1)));
            }
        }
        i = i + 1;
    }
    proof {
        assert(all.skip(i as int) =~= Seq::<(Seq<u8>, Seq<u8>)>::empty());
        assert(r@ + spec_exports(all.skip(i as int)) =~= r@);
    }
    r
}

/// The job's command wrapped so its standard output and error land in two
/// fixed files in its log directory:
/// `exec 1> DIR/stdout.log 2> DIR/stderr.log; COMMAND`.
pub open spec fn spec_wrapped_command(log_dir: Seq<u8>, command: Seq<u8>) -> Seq<u8> {
    seq![101u8, 120u8, 101u8, 99u8, 32u8, 49u8, 62u8, 32u8] + log_dir + seq![
        47u8, 115u8, 116u8, 100u8, 111u8, 117u8, 116u8, 46u8, 108u8, 111u8, 103u8,
    ] + seq![32u8, 50u8, 62u8, 32u8] + log_dir + seq![
        47u8, 115u8, 116u8, 100u8, 101u8, 114u8, 114u8, 46u8, 108u8, 111u8, 103u8,
    ] + seq![59u8, 32u8] + command
}

/// Wraps the job's command with the redirections into its log directory.
pub fn wrap_command(log_dir: &[u8], command: &[u8]) -> (r: Vec<u8>)
    ensures
        r@ == spec_wrapped_command(log_dir@, command@),
{
    let mut r: Vec<u8> = vec![101, 120, 101, 99, 32, 49, 62, 32];
    r.extend_from_slice(log_dir);
    let out_log: Vec<u8> = vec![47, 115, 116, 100, 111, 117, 116, 46, 108, 111, 103];
    r.extend_from_slice(out_log.as_slice());
    let mid: Vec<u8> = vec![32, 50, 62, 32];
    r.extend_from_slice(mid.as_slice());
    r.extend_from_slice(log_dir);
    let err_log: Vec<u8> = vec![47, 115, 116, 100, 101, 114, 114, 46, 108, 111, 103];
    r.extend_from_slice(err_log.as_slice());
    let sep: Vec<u8> = vec![59, 32];
    r.extend_from_slice(sep.as_slice());
    r.extend_from_slice(command);
    proof {
        assert(r@ =~= spec_wrapped_command(log_dir@, command@));
    }
    r
}

/// The full text handed to the session collaborator: the exports, then
/// the wrapped command.
pub fn launch_command(exports: &[u8], wrapped: &[u8]) -> (r: Vec<u8>)
    ensures
        r@ == exports@ + seq![59u8, 32u8] + wrapped@,
{
    let mut r: Vec<u8> = Vec::new();
    r.extend_from_slice(exports);
    r.push(59);
    r.push(32);
    r.extend_from_slice(wrapped);
    proof {
        assert(r@ =~= exports@ + seq![59u8, 32u8] + wrapped@);
    }
    r
}

} // verus!
