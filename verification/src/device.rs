//! Accelerator devices as the probe reports them.
//!
//! The probe is an external command whose output is a header-less
//! comma-separated table with exactly four columns: index, name, total
//! memory and used memory, the memory values carrying a unit suffix.
//! Parsing that table is pure and lives here; running the command does
//! not.

use vstd::prelude::*;

use crate::text::{
    all_digits, dec_val, lemma_filter_empty, lemma_filter_one, lemma_find_at, lines, parse_u64,
    split_bytes, split_on, strip_cr, trim, trim_bytes, views,
};

verus! {

/// One device row from the probe: a stable ordinal, a display name, and
/// two informational memory figures.
pub struct GpuInfo {
    pub index: usize,
    pub name: Vec<u8>,
    pub memory_total: u64,
    pub memory_used: u64,
}

/// The plain values a `GpuInfo` holds.
pub open spec fn gpu_view(g: GpuInfo) -> (usize, Seq<u8>, u64, u64) {
    (g.index, g.name@, g.memory_total, g.memory_used)
}

/// The views of a device list.
pub open spec fn gpu_views(gs: Seq<GpuInfo>) -> Seq<(usize, Seq<u8>, u64, u64)> {
    gs.map_values(|g: GpuInfo| gpu_view(g))
}

/// "MiB" at the end of `t`.
pub open spec fn ends_in_mib(t: Seq<u8>) -> bool {
    t.len() >= 3 && t[t.len() - 3] == 77 && t[t.len() - 2] == 105 && t[t.len() - 1] == 66
}

/// A memory figure with its unit suffix stripped and the remainder
/// trimmed, ready for an integer parse.
pub open spec fn strip_unit(s: Seq<u8>) -> Seq<u8> {
    let t = trim(s);
    if ends_in_mib(t) {
        trim(t.take(t.len() - 3))
    } else {
        t
    }
}

/// A nonempty digit string whose value fits below `max`.
pub open spec fn numeral_ok(t: Seq<u8>, max: int) -> bool {
    t.len() > 0 && all_digits(t) && dec_val(t) <= max
}

/// A probe row the parser keeps: four fields whose numeric columns parse.
pub open spec fn gpu_line_ok(line: Seq<u8>) -> bool {
    let f = split_on(line, 44);
    &&& f.len() == 4
    &&& numeral_ok(trim(f[0]), usize::MAX as int)
    &&& numeral_ok(strip_unit(f[2]), u64::MAX as int)
    &&& numeral_ok(strip_unit(f[3]), u64::MAX as int)
}

/// The device a kept probe row describes.
pub open spec fn gpu_of_line(line: Seq<u8>) -> (usize, Seq<u8>, u64, u64) {
    let f = split_on(line, 44);
    (
        dec_val(trim(f[0])) as usize,
        trim(f[1]),
        dec_val(strip_unit(f[2])) as u64,
        dec_val(strip_unit(f[3])) as u64,
    )
}

/// Every device the probe output describes, in report order; rows with a
/// different shape are dropped, not failed.
pub open spec fn gpus_of_report(s: Seq<u8>) -> Seq<(usize, Seq<u8>, u64, u64)> {
    lines(s).filter(|l: Seq<u8>| gpu_line_ok(l)).map_values(|l: Seq<u8>| gpu_of_line(l))
}

/// Strips a trailing unit suffix from a memory figure.
fn strip_unit_bytes(s: &[u8]) -> (r: Vec<u8>)
    ensures
        r@ == strip_unit(s@),
{
    let t = trim_bytes(s);
    if t.len() >= 3 && t[t.len() - 3] == 77 && t[t.len() - 2] == 105 && t[t.len() - 1] == 66 {
        let mut head: Vec<u8> = Vec::new();
        let mut i: usize = 0;
        while i < t.len() - 3
            invariant
                t@.len() >= 3,
                i <= t@.len() - 3,
                head@ == t@.take(i as int),
            decreases t@.len() - 3 - i,
        {
            head.push(t[i]);
            proof {
                assert(t@.take(i + 1) =~= t@.take(i as int).push(t@[i as int]));
            }
            i = i + 1;
        }
        trim_bytes(head.as_slice())
    } else {
        t
    }
}

/// Parses one probe row.  Returns the device it describes exactly when the
/// row has four columns and its numerals parse.
fn parse_gpu_line(line: &[u8]) -> (r: Option<GpuInfo>)
    ensures
        r is Some <==> gpu_line_ok(line@),
        r is Some ==> gpu_view(r->0) == gpu_of_line(line@),
{
    let fields = split_bytes(line, 44);
    proof {
        assert(views(fields@) == split_on(line@, 44));
    }
    if fields.len() != 4 {
        return None;
    }
    proof {
        assert(fields@[0]@ == split_on(line@, 44)[0]);
        assert(fields@[1]@ == split_on(line@, 44)[1]);
        assert(fields@[2]@ == split_on(line@, 44)[2]);
        assert(fields@[3]@ == split_on(line@, 44)[3]);
    }
    let idx_text = trim_bytes(fields[0].as_slice());
    let index = match parse_u64(idx_text.as_slice()) {
        Some(v) => {
            if v <= usize::MAX as u64 {
                v as usize
            } else {
                return None;
            }
        },
        None => {
            return None;
        },
    };
    let name = trim_bytes(fields[1].as_slice());
    let total_text = strip_unit_bytes(fields[2].as_slice());
    let total = match parse_u64(total_text.as_slice()) {
        Some(v) => v,
        None => {
            return None;
        },
    };
    let used_text = strip_unit_bytes(fields[3].as_slice());
    let used = match parse_u64(used_text.as_slice()) {
        Some(v) => v,
        None => {
            return None;
        },
    };
    Some(GpuInfo { index, name, memory_total: total, memory_used: used })
}

/// Parses the probe output into its device list: kept rows in report
/// order, malformed rows dropped silently.
pub fn parse_gpu_report(s: &[u8]) -> (gpus: Vec<GpuInfo>)
    ensures
        gpu_views(gpus@) == gpus_of_report(s@),
{
    let mut out: Vec<GpuInfo> = Vec::new();
    let mut pos: usize = 0;
    proof {
        assert(s@.skip(0) =~= s@);
        assert(gpu_views(out@) + gpus_of_report(s@) =~= gpus_of_report(s@));
    }
    while pos < s.len()
        invariant
            pos <= s@.len(),
            gpus_of_report(s@) == gpu_views(out@) + gpus_of_report(s@.skip(pos as int)),
        decreases s@.len() - pos,
    {
        let mut j: usize = pos;
        while j < s.len() && s[j] != 10
            invariant
                pos <= j <= s@.len(),
                forall|t: int| pos <= t < j ==> s@[t] != 10,
            decreases s@.len() - j,
        {
            j = j + 1;
        }
        let mut end = j;
        if end > pos && s[end - 1] == 13 {
            end = end - 1;
        }
        let mut line: Vec<u8> = Vec::new();
        let mut t = pos;
        while t < end
            invariant
                pos <= t <= end <= s@.len(),
                line@ == s@.subrange(pos as int, t as int),
            decreases end - t,
        {
            line.push(s[t]);
            proof {
                assert(s@.subrange(pos as int, t + 1) =~= s@.subrange(pos as int, t as int).push(
                    s@[t as int],
                ));
            }
            t = t + 1;
        }
        let parsed = parse_gpu_line(line.as_slice());
        proof {
            let suf = s@.skip(pos as int);
            let pred = |l: Seq<u8>| gpu_line_ok(l);
            assert forall|u: int| 0 <= u < j - pos implies suf[u] != 10 by {
                assert(suf[u] == s@[pos + u]);
            }
            if j < s@.len() {
                assert(suf[j - pos] == s@[j as int]);
            }
            lemma_find_at(suf, 10, j - pos);
            assert(suf.take(j - pos) =~= s@.subrange(pos as int, j as int));
            assert(strip_cr(s@.subrange(pos as int, j as int)) == line@) by {
                if end < j {
                    assert(s@.subrange(pos as int, j as int).last() == s@[j - 1]);
                    assert(s@.subrange(pos as int, j as int).drop_last() =~= s@.subrange(
                        pos as int,
                        end as int,
                    ));
                } else {
                    assert(s@.subrange(pos as int, j as int).len() > 0 ==> s@.subrange(
                        pos as int,
                        j as int,
                    ).last() == s@[j - 1]);
                }
            }
            lemma_filter_one(line@, pred);
            let tail = if j < s@.len() {
                s@.skip(j + 1)
            } else {
                Seq::<u8>::empty()
            };
            if j < s@.len() {
                assert(suf.skip(j - pos + 1) =~= s@.skip(j + 1));
                assert(lines(suf) == seq![line@] + lines(tail));
            } else {
                assert(lines(suf) == seq![line@]);
                assert(s@.skip(j as int) =~= Seq::<u8>::empty());
                lemma_filter_empty(pred);
                assert(lines(tail) == Seq::<Seq<u8>>::empty());
                assert(lines(suf) =~= seq![line@] + lines(tail));
            }
            Seq::filter_distributes_over_add(seq![line@], lines(tail), pred);
            if gpu_line_ok(line@) {
                assert(gpus_of_report(suf) =~= seq![gpu_of_line(line@)] + gpus_of_report(tail));
            } else {
                assert(gpus_of_report(suf) =~= gpus_of_report(tail));
            }
        }
        if let Some(g) = parsed {
            proof {
                assert(gpu_views(out@.push(g)) =~= gpu_views(out@).push(gpu_view(g)));
                assert(gpu_views(out@.push(g)) + gpus_of_report(
                    if j < s@.len() {
                        s@.skip(j + 1)
                    } else {
                        Seq::<u8>::empty()
                    },
                ) =~= gpu_views(out@) + gpus_of_report(s@.skip(pos as int)));
            }
            out.push(g);
        } else {
            proof {
                assert(gpu_views(out@) + gpus_of_report(
                    if j < s@.len() {
                        s@.skip(j + 1)
                    } else {
                        Seq::<u8>::empty()
                    },
                ) =~= gpu_views(out@) + gpus_of_report(s@.skip(pos as int)));
            }
        }
        pos = if j < s.len() {
            j + 1
        } else {
            j
        };
        proof {
            if pos == s@.len() {
                assert(s@.skip(pos as int) =~= Seq::<u8>::empty());
            }
        }
    }
    proof {
        assert(s@.skip(pos as int) =~= Seq::<u8>::empty());
        lemma_filter_empty(|l: Seq<u8>| gpu_line_ok(l));
        assert(gpu_views(out@) + gpus_of_report(s@.skip(pos as int)) =~= gpu_views(out@));
    }
    out
}

/// The deterministic two-device fixture used when probing is switched off
/// for testing.
pub fn fixture_gpus() -> (gpus: Vec<GpuInfo>)
    ensures
        gpus@.len() == 2,
        gpus@[0].index == 0,
        gpus@[0].name@ == seq![77u8, 111u8, 99u8, 107u8, 32u8, 71u8, 80u8, 85u8, 32u8, 48u8],
        gpus@[0].memory_total == 8192,
        gpus@[0].memory_used == 2048,
        gpus@[1].index == 1,
        gpus@[1].name@ == seq![77u8, 111u8, 99u8, 107u8, 32u8, 71u8, 80u8, 85u8, 32u8, 49u8],
        gpus@[1].memory_total == 16384,
        gpus@[1].memory_used == 4096,
{
    // the names read "Mock GPU 0" and "Mock GPU 1"
    let name0: Vec<u8> = vec![77, 111, 99, 107, 32, 71, 80, 85, 32, 48];
    let name1: Vec<u8> = vec![77, 111, 99, 107, 32, 71, 80, 85, 32, 49];
    proof {
        assert(name0@ =~= seq![77u8, 111u8, 99u8, 107u8, 32u8, 71u8, 80u8, 85u8, 32u8, 48u8]);
        assert(name1@ =~= seq![77u8, 111u8, 99u8, 107u8, 32u8, 71u8, 80u8, 85u8, 32u8, 49u8]);
    }
    let mut gpus: Vec<GpuInfo> = Vec::new();
    gpus.push(GpuInfo { index: 0, name: name0, memory_total: 8192, memory_used: 2048 });
    gpus.push(GpuInfo { index: 1, name: name1, memory_total: 16384, memory_used: 4096 });
    gpus
}

} // verus!
