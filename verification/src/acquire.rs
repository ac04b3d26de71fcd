//! Partition acquisition: the deterministic file name and remote URL of a
//! monthly partition, and the decision whether a download must be issued.
//!
//! The filesystem check, the network GET and the file write are performed by
//! the surrounding process; this module fixes what they operate on.

use vstd::prelude::*;
use crate::digits::fixed_digits;
use crate::digits::int_digits;
use crate::digits::push_fixed;
use crate::digits::push_int;

verus! {

/// The local file name of the partition for (year, month).
pub open spec fn filename_chars(year: int, month: int) -> Seq<char> {
    "yellow_tripdata_"@ + int_digits(year) + "-"@ + fixed_digits(month, 2) + ".parquet"@
}

/// The remote URL the partition is fetched from when absent.
pub open spec fn url_chars(year: int, month: int) -> Seq<char> {
    "https://d37ci6vzurychx.cloudfront.net/trip-data/"@ + filename_chars(year, month)
}

/// A download is issued exactly when the local file is absent.
pub open spec fn download_needed(file_exists: bool) -> bool {
    !file_exists
}

/// What the fetch step does next, given whether the file is on disk.
#[derive(PartialEq, Eq, Structural, Clone, Copy, Debug)]
pub enum AcquireAction {
    UseLocal,
    Download,
}

/// The decision of the fetch step as a value.
pub open spec fn acquisition_decision(file_exists: bool) -> AcquireAction {
    if file_exists {
        AcquireAction::UseLocal
    } else {
        AcquireAction::Download
    }
}

/// Appends the partition file name for (year, month).
fn push_filename(s: &mut String, year: i32, month: i32)
    requires
        1 <= month <= 12,
    ensures
        final(s)@ == old(s)@ + filename_chars(year as int, month as int),
{
    proof {
        reveal_strlit("yellow_tripdata_");
        reveal_strlit("-");
        reveal_strlit(".parquet");
    }
    s.append("yellow_tripdata_");
    push_int(s, year as i64);
    s.append("-");
    push_fixed(s, month as u64, 2);
    s.append(".parquet");
    proof {
        assert(final(s)@ =~= old(s)@ + filename_chars(year as int, month as int));
    }
}

/// The local file name of the partition for (year, month), e.g.
/// `yellow_tripdata_2023-11.parquet`.
pub fn partition_filename(year: i32, month: i32) -> (r: String)
    requires
        1 <= month <= 12,
    ensures
        r@ == filename_chars(year as int, month as int),
{
    proof {
        reveal_strlit("");
    }
    let mut s = String::from_str("");
    push_filename(&mut s, year, month);
    proof {
        assert(s@ =~= filename_chars(year as int, month as int));
    }
    s
}

/// The remote URL of the partition for (year, month).
pub fn partition_url(year: i32, month: i32) -> (r: String)
    requires
        1 <= month <= 12,
    ensures
        r@ == url_chars(year as int, month as int),
{
    proof {
        reveal_strlit("https://d37ci6vzurychx.cloudfront.net/trip-data/");
    }
    let mut s = String::from_str("https://d37ci6vzurychx.cloudfront.net/trip-data/");
    push_filename(&mut s, year, month);
    proof {
        assert(s@ =~= url_chars(year as int, month as int));
    }
    s
}

/// The fetch step's decision and the path it will report: download exactly
/// when the file is absent, and in either case the deterministic local path.
pub fn acquisition_step(year: i32, month: i32, file_exists: bool) -> (r: (AcquireAction, String))
    requires
        1 <= month <= 12,
    ensures
        r.0 == acquisition_decision(file_exists),
        r.1@ == filename_chars(year as int, month as int),
{
    let action = if file_exists {
        AcquireAction::UseLocal
    } else {
        AcquireAction::Download
    };
    (action, partition_filename(year, month))
}

/// The path reported once the fetch step finishes: the deterministic local
/// path, for every download outcome. A failed download is only logged, and
/// the path still reported; the failure then surfaces at the query step as a
/// data-access error. That is the service's documented behaviour.
pub fn acquisition_report_path(year: i32, month: i32, download_succeeded: bool) -> (r: String)
    requires
        1 <= month <= 12,
    ensures
        r@ == filename_chars(year as int, month as int),
{
    let _ = download_succeeded;
    partition_filename(year, month)
}

/// Law: an acquisition that finds the file present issues no download and
/// reuses the same path that an earlier acquisition for the same
/// (year, month) reported, whatever that earlier download's outcome was.
/// A second acquisition in sequence therefore performs at most zero further
/// downloads once the first has put the file on disk.
pub proof fn lemma_second_acquisition_reuses_file(year: int, month: int)
    ensures
        acquisition_decision(true) == AcquireAction::UseLocal,
        !download_needed(true),
        acquisition_decision(false) == AcquireAction::Download,
{
}

} // verus!
