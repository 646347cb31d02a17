//! When a download reports its progress: at each new percentage when the
//! size is known, and at each further 4 MiB when it is not.
use vstd::prelude::*;

verus! {

/// A progress report of a download.
#[derive(Debug, Clone, Copy, PartialEq, Eq, Structural)]
pub enum Progress {
    /// The share of the known size that has arrived, in percent.
    Percent(u64),
    /// The bytes that have arrived, when the size is not known.
    Bytes(u64),
}

/// The bytes between two reports of a download of unknown size.
pub const BYTES_STEP: u64 = 4194304;

/// The share of `total` that `written` is, in whole percent (0 when the
/// product with 100 would not fit in 64 bits).
pub open spec fn percent_spec(written: u64, total: u64) -> u64 {
    if written * 100 <= u64::MAX && total > 0 {
        ((written * 100) / (total as int)) as u64
    } else {
        0
    }
}

/// The report after `n` more bytes arrived on top of `before`, given the
/// size `total` (when the server gave one) and the percentage reported
/// last: a new percentage when it changed, with a known non-zero size;
/// the byte count when the size is unknown and the count passed a
/// multiple of 4 MiB (only where `bytes_reports` asks for it).
pub open spec fn progress_spec(before: u64, n: u64, total: Option<u64>, last: Option<u64>, bytes_reports: bool) -> Option<
    Progress,
> {
    let after = (before + n) as u64;
    match total {
        Some(t) => if t > 0 && last != Some(percent_spec(after, t)) {
            Some(Progress::Percent(percent_spec(after, t)))
        } else {
            None
        },
        None => if bytes_reports && after / BYTES_STEP > before / BYTES_STEP {
            Some(Progress::Bytes(after))
        } else {
            None
        },
    }
}

/// The report, if any, once `n` more bytes arrived on top of `before`.
pub fn progress_step(before: u64, n: u64, total: Option<u64>, last: Option<u64>, bytes_reports: bool) -> (r: Option<Progress>)
    requires
        before + n <= u64::MAX,
    ensures
        r == progress_spec(before, n, total, last, bytes_reports),
{
    let after = before + n;
    match total {
        Some(t) => {
            if t == 0 {
                return None;
            }
            let pct = match after.checked_mul(100) {
                Some(v) => v / t,
                None => 0,
            };
            if last == Some(pct) {
                None
            } else {
                Some(Progress::Percent(pct))
            }
        },
        None => {
            if bytes_reports && after / BYTES_STEP > before / BYTES_STEP {
                Some(Progress::Bytes(after))
            } else {
                None
            }
        },
    }
}

} // verus!
