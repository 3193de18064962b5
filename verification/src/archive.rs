//! Naming for the archive of a completed job's logs.
//!
//! When a job completes, its log directory is compressed, best effort,
//! into a single file named from a timestamp and the job id under an
//! "archived" subdirectory of the log root.  The compression is outside
//! work; the name it writes to is decided here.

use vstd::prelude::*;

use crate::text::{dec_repr, u64_to_dec};

verus! {

/// Where the archive of a job's logs goes:
/// `ROOT/archived/TIMESTAMP_ID.tar.gz`.
pub open spec fn spec_archive_path(log_root: Seq<u8>, timestamp_secs: nat, id: Seq<u8>) -> Seq<
    u8,
> {
    log_root + seq![47u8, 97u8, 114u8, 99u8, 104u8, 105u8, 118u8, 101u8, 100u8, 47u8] + dec_repr(
        timestamp_secs,
    ) + seq![95u8] + id + seq![46u8, 116u8, 97u8, 114u8, 46u8, 103u8, 122u8]
}

/// Builds the archive file name for a job completed at `timestamp_secs`.
pub fn archive_path(log_root: &[u8], timestamp_secs: u64, id: &[u8]) -> (r: Vec<u8>)
    ensures
        r@ == spec_archive_path(log_root@, timestamp_secs as nat, id@),
{
    let mut r: Vec<u8> = Vec::new();
    r.extend_from_slice(log_root);
    let dir: Vec<u8> = vec![47, 97, 114, 99, 104, 105, 118, 101, 100, 47];
    r.extend_from_slice(dir.as_slice());
    let ts = u64_to_dec(timestamp_secs);
    r.extend_from_slice(ts.as_slice());
    r.push(95);
    r.extend_from_slice(id);
    let ext: Vec<u8> = vec![46, 116, 97, 114, 46, 103, 122];
    r.extend_from_slice(ext.as_slice());
    proof {
        assert(dir@ =~= seq![47u8, 97u8, 114u8, 99u8, 104u8, 105u8, 118u8, 101u8, 100u8, 47u8]);
        assert(ext@ =~= seq![46u8, 116u8, 97u8, 114u8, 46u8, 103u8, 122u8]);
        assert(r@ =~= spec_archive_path(log_root@, timestamp_secs as nat, id@));
    }
    r
}

} // verus!
