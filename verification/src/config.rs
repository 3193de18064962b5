//! Configuration: explicit values threaded through every component.
//!
//! The file on disk is a small key/value overlay over defaults.  Reading
//! and parsing it happens outside the library; the overlay decision —
//! which value wins, and how a leading tilde is expanded against the home
//! directory — is pure and lives here.

use vstd::prelude::*;

verus! {

/// The resolved configuration every component is built from.
pub struct Config {
    pub log_dir: Vec<u8>,
    pub jobs_file: Vec<u8>,
    pub refresh_rate: u64,
    pub colors_enabled: bool,
    pub datetime_format: Vec<u8>,
}

/// `s` with every tilde replaced by the home directory.
pub open spec fn spec_expand_tilde(s: Seq<u8>, home: Seq<u8>) -> Seq<u8>
    decreases s.len(),
{
    if s.len() == 0 {
        Seq::empty()
    } else {
        (if s[0] == 126 {
            home
        } else {
            seq![s[0]]
        }) + spec_expand_tilde(s.drop_first(), home)
    }
}

/// Replaces every tilde in `s` with the home directory.
pub fn expand_tilde(s: &[u8], home: &[u8]) -> (r: Vec<u8>)
    ensures
        r@ == spec_expand_tilde(s@, home@),
{
    let mut r: Vec<u8> = Vec::new();
    let mut i: usize = 0;
    proof {
        assert(s@.skip(0) =~= s@);
    }
    while i < s.len()
        invariant
            i <= s@.len(),
            spec_expand_tilde(s@, home@) == r@ + spec_expand_tilde(s@.skip(i as int), home@),
        decreases s@.len() - i,
    {
        let b = s[i];
        proof {
            let suf = s@.skip(i as int);
            assert(suf[0] == s@[i as int]);
            assert(suf.drop_first() =~= s@.skip(i + 1));
            if b == 126 {
                assert(spec_expand_tilde(suf, home@) == home@ + spec_expand_tilde(
                    s@.skip(i + 1),
                    home@,
                ));
                assert(r@ + home@ + spec_expand_tilde(s@.skip(i + 1), home@) =~= r@
                    + spec_expand_tilde(suf, home@));
            } else {
                assert(spec_expand_tilde(suf, home@) == seq![b] + spec_expand_tilde(
                    s@.skip(i + 1),
                    home@,
                ));
                assert(r@ + seq![b] + spec_expand_tilde(s@.skip(i + 1), home@) =~= r@
                    + spec_expand_tilde(suf, home@));
            }
        }
        if b == 126 {
            r.extend_from_slice(home);
        } else {
            r.push(b);
        }
        i = i + 1;
    }
    proof {
        assert(s@.skip(i as int) =~= Seq::<u8>::empty());
        assert(r@ + spec_expand_tilde(s@.skip(i as int), home@) =~= r@);
    }
    r
}

/// The default log directory under the home directory; reads
/// "/.nexus/logs".
pub open spec fn default_log_suffix() -> Seq<u8> {
    seq![47u8, 46u8, 110u8, 101u8, 120u8, 117u8, 115u8, 47u8, 108u8, 111u8, 103u8, 115u8]
}

/// The default queue file under the home directory; reads
/// "/.nexus/jobs.txt".
pub open spec fn default_jobs_suffix() -> Seq<u8> {
    seq![
        47u8, 46u8, 110u8, 101u8, 120u8, 117u8, 115u8, 47u8, 106u8, 111u8, 98u8, 115u8, 46u8,
        116u8, 120u8, 116u8,
    ]
}

/// The default timestamp format; reads "%Y-%m-%d %H:%M:%S".
pub open spec fn default_datetime_format() -> Seq<u8> {
    seq![
        37u8, 89u8, 45u8, 37u8, 109u8, 45u8, 37u8, 100u8, 32u8, 37u8, 72u8, 58u8, 37u8, 77u8,
        58u8, 37u8, 83u8,
    ]
}

/// Resolves the configuration: each overlay value wins over its default,
/// paths expand a tilde to the home directory, and a missing value falls
/// back: logs and queue file under a ".nexus" directory in the home
/// directory, a five-second refresh, colors on, the standard timestamp
/// format.
pub fn resolve_config(
    home: &[u8],
    log_dir: Option<Vec<u8>>,
    jobs_file: Option<Vec<u8>>,
    refresh_rate: Option<i64>,
    colors_enabled: Option<bool>,
    datetime_format: Option<Vec<u8>>,
) -> (c: Config)
    ensures
        c.log_dir@ == (match log_dir {
            Some(p) => spec_expand_tilde(p@, home@),
            None => home@ + default_log_suffix(),
        }),
        c.jobs_file@ == (match jobs_file {
            Some(p) => spec_expand_tilde(p@, home@),
            None => home@ + default_jobs_suffix(),
        }),
        c.refresh_rate == (match refresh_rate {
            Some(r) => r as u64,
            None => 5u64,
        }),
        c.colors_enabled == (match colors_enabled {
            Some(b) => b,
            None => true,
        }),
        c.datetime_format@ == (match datetime_format {
            Some(f) => f@,
            None => default_datetime_format(),
        }),
{
    let log_dir_v: Vec<u8> = match log_dir {
        Some(p) => expand_tilde(p.as_slice(), home),
        None => {
            let mut v: Vec<u8> = Vec::new();
            v.extend_from_slice(home);
            let suffix: Vec<u8> = vec![47, 46, 110, 101, 120, 117, 115, 47, 108, 111, 103, 115];
            proof {
                assert(suffix@ =~= default_log_suffix());
            }
            v.extend_from_slice(suffix.as_slice());
            v
        },
    };
    let jobs_file_v: Vec<u8> = match jobs_file {
        Some(p) => expand_tilde(p.as_slice(), home),
        None => {
            let mut v: Vec<u8> = Vec::new();
            v.extend_from_slice(home);
            let suffix: Vec<u8> = vec![
                47, 46, 110, 101, 120, 117, 115, 47, 106, 111, 98, 115, 46, 116, 120, 116,
            ];
            proof {
                assert(suffix@ =~= default_jobs_suffix());
            }
            v.extend_from_slice(suffix.as_slice());
            v
        },
    };
    let refresh = match refresh_rate {
        Some(r) => r as u64,
        None => 5,
    };
    let colors = match colors_enabled {
        Some(b) => b,
        None => true,
    };
    let fmt: Vec<u8> = match datetime_format {
        Some(f) => f,
        None => {
            let v: Vec<u8> = vec![
                37, 89, 45, 37, 109, 45, 37, 100, 32, 37, 72, 58, 37, 77, 58, 37, 83,
            ];
            proof {
                assert(v@ =~= default_datetime_format());
            }
            v
        },
    };
    Config {
        log_dir: log_dir_v,
        jobs_file: jobs_file_v,
        refresh_rate: refresh,
        colors_enabled: colors,
        datetime_format: fmt,
    }
}

/// The per-job log directory: the log root, a separator, the job id.
pub fn job_log_dir(log_root: &[u8], id: &[u8]) -> (r: Vec<u8>)
    ensures
        r@ == log_root@ + seq![47u8] + id@,
{
    let mut r: Vec<u8> = Vec::new();
    r.extend_from_slice(log_root);
    r.push(47);
    r.extend_from_slice(id);
    proof {
        assert(r@ =~= log_root@ + seq![47u8] + id@);
    }
    r
}

} // verus!
