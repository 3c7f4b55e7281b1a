//! Decisions of a scan that stand apart from reading the file system:
//! whether the root can be scanned, which entries are looked at, and how a
//! classified file enters the totals.
use vstd::prelude::*;

use crate::aggregate::{add_to, Aggregate};
use crate::category::Identity;
use crate::classify::{classified, classify_file, sample_view};

verus! {

/// Why a scan cannot start.
#[derive(Clone, Copy, Debug, PartialEq, Eq, Structural)]
pub enum ScanError {
    /// The root path does not exist.
    NotFound,
    /// The root path exists but is not a directory.
    NotADirectory,
}

/// Whether a scan may start at a root, from what the file system says of it.
pub fn check_root(exists: bool, is_dir: bool) -> (r: Result<(), ScanError>)
    ensures
        r is Ok <==> exists && is_dir,
        !exists ==> r == Err::<(), ScanError>(ScanError::NotFound),
        exists && !is_dir ==> r == Err::<(), ScanError>(ScanError::NotADirectory),
{
    if !exists {
        Err(ScanError::NotFound)
    } else if !is_dir {
        Err(ScanError::NotADirectory)
    } else {
        Ok(())
    }
}

/// Whether the path is recognised as vendored or third-party code; `None`
/// where the path is not valid text.
pub uninterp spec fn vendored_of(path: Seq<char>) -> Option<bool>;

/// Relies on `linguist::is_vendored`, with its error read as `None`.
#[verifier::external_body]
fn vendored(path: &str) -> (r: Option<bool>)
    ensures
        r == vendored_of(path@),
{
    linguist::is_vendored(path).ok()
}

/// Whether a walked entry is looked at, given what the vendored-code check
/// said of it (`None` where it could not tell): a regular file that is not
/// vendored.
pub fn keeps(is_file: bool, vendored: Option<bool>) -> (r: bool)
    ensures
        r == (is_file && vendored != Some(true)),
{
    match vendored {
        Some(v) => is_file && !v,
        None => is_file,
    }
}

/// Whether a walked entry is looked at: a regular file outside vendored
/// code. A path that cannot be checked is looked at.
pub fn keep_entry(path: &str, is_file: bool) -> (r: bool)
    ensures
        r == (is_file && vendored_of(path@) != Some(true)),
{
    if !is_file {
        return false;
    }
    keeps(is_file, vendored(path))
}

/// Counts a file of `size` bytes in the totals if it is classified as
/// counted; returns whether it was. A file that the totals could not hold
/// without overflow is not counted.
pub fn tally_file(agg: &mut Aggregate, path: &str, sample: Option<&str>, size: u64) -> (r: bool)
    requires
        old(agg).wf(),
    ensures
        final(agg).wf(),
        r ==> classified(path@, sample_view(sample)) is Some && final(agg)@ == add_to(
            old(agg)@,
            (classified(path@, sample_view(sample))->0).0,
            1,
            size as nat,
        ),
        !r ==> final(agg)@ == old(agg)@,
        r <== classified(path@, sample_view(sample)) is Some && old(agg).file_total() < u32::MAX
            && old(agg).byte_total() + size <= u64::MAX,
{
    match classify_file(path, sample) {
        Some(id) => {
            if agg.total_files() < u32::MAX && size <= u64::MAX - agg.total_bytes() {
                let Identity { name, category: _ } = id;
                agg.record(name, size);
                true
            } else {
                false
            }
        },
        None => false,
    }
}

} // verus!
