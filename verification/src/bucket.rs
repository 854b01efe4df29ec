//! Destination buckets: a file's modification timestamp (seconds since the
//! Unix epoch) is mapped to a `YYYY-MM` directory name via the calendar.

use vstd::prelude::*;
use vstd::string::StringExecFns;
use crate::decimal::{padded_dec, u64_to_dec_padded};

verus! {

/// The calendar year and month of a timestamp, or `None` when the calendar
/// library cannot represent it. The value depends on the seconds alone.
pub uninterp spec fn timestamp_parts(secs: i64) -> Option<(i32, u32)>;

/// Relies on chrono::DateTime::<Utc>::from_timestamp with zero nanoseconds,
/// and on chrono::Datelike::year / chrono::Datelike::month of the resulting
/// date: the parts are a function of the seconds value alone; construction
/// succeeds for every timestamp from the epoch through the end of year 9999
/// (it fails only hundreds of millennia away from the common era); the month
/// is always in 1..=12; at or after the epoch the year is at least 1970.
#[verifier::external_body]
fn year_month_of_timestamp(secs: i64) -> (r: Option<(i32, u32)>)
    ensures
        r == timestamp_parts(secs),
        0 <= secs <= 253402300799 ==> r is Some,
        r matches Some(p) ==> 1 <= p.1 <= 12 && (0 <= secs ==> 1970 <= p.0),
{
    match chrono::DateTime::<chrono::Utc>::from_timestamp(secs, 0) {
        Some(d) => Some((chrono::Datelike::year(&d), chrono::Datelike::month(&d))),
        None => None,
    }
}

/// Whether a modification time (seconds since the epoch) has a representable
/// calendar date.
pub open spec fn mtime_ok(mtime: u64) -> bool {
    mtime <= i64::MAX && timestamp_parts(mtime as i64) is Some
}

/// The bucket name for given calendar parts: the year padded to four digits,
/// a hyphen, the month padded to two digits.
pub open spec fn bucket_chars(y: i32, m: u32) -> Seq<char>
    recommends
        0 <= y,
{
    padded_dec(y as nat, 4) + seq!['-'] + padded_dec(m as nat, 2)
}

/// The bucket name of a representable modification time.
pub open spec fn bucket_of(mtime: u64) -> Seq<char>
    recommends
        mtime_ok(mtime),
{
    match timestamp_parts(mtime as i64) {
        Some(p) => bucket_chars(p.0, p.1),
        None => Seq::empty(),
    }
}

/// Computes the `YYYY-MM` bucket name for a file modification time, or
/// `None` when the timestamp has no representable calendar date.
pub fn bucket_name(mtime: u64) -> (r: Option<String>)
    ensures
        r is Some <==> mtime_ok(mtime),
        r matches Some(s) ==> s@ == bucket_of(mtime),
{
    if mtime > 0x7fff_ffff_ffff_ffff {
        return None;
    }
    match year_month_of_timestamp(mtime as i64) {
        None => None,
        Some((y, m)) => {
            let ys = u64_to_dec_padded(y as u64, 4);
            let ms = u64_to_dec_padded(m as u64, 2);
            let s = ys.concat("-").concat(ms.as_str());
            proof {
                reveal_strlit("-");
                assert("-"@ =~= seq!['-']);
                assert(s@ =~= bucket_of(mtime));
            }
            Some(s)
        },
    }
}

} // verus!
