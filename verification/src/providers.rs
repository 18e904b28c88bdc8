//! Where identifiers and the time come from. Both are taken as given:
//! nothing is known of a value but what holds of every one.

use crate::models::Timestamp;
use vstd::prelude::*;

verus! {

/// The text form of a random identifier: 36 characters, hyphens after the
/// 8th, 12th, 16th and 20th digit, lowercase hexadecimal digits elsewhere,
/// the 13th digit a `4` and the 17th one of `8`, `9`, `a`, `b`.
pub open spec fn is_random_id_text(s: Seq<char>) -> bool {
    &&& s.len() == 36
    &&& s[14] == '4'
    &&& (s[19] == '8' || s[19] == '9' || s[19] == 'a' || s[19] == 'b')
    &&& forall|i: int|
        0 <= i < 36 ==> if i == 8 || i == 13 || i == 18 || i == 23 {
            #[trigger] s[i] == '-'
        } else {
            ('0' <= s[i] <= '9') || ('a' <= s[i] <= 'f')
        }
}

/// A fresh identifier from `uuid::Uuid::new_v4`, in the text form that
/// `Uuid` displays as. Which identifier comes back is random; every one has
/// the hyphenated lowercase form, with the version digit `4` and a variant
/// digit from `8` to `b`.
#[verifier::external_body]
pub(crate) fn fresh_identifier() -> (id: String)
    ensures
        is_random_id_text(id@),
{
    uuid::Uuid::new_v4().to_string()
}

/// The current time from `chrono::Utc::now`, as seconds since the Unix epoch
/// and nanoseconds past the second. Nothing is known of the value but that
/// it does not lie before the epoch and that the nanoseconds stay below one
/// second. The call panics where the system clock is set before the epoch.
#[verifier::external_body]
pub(crate) fn current_time() -> (t: Timestamp)
    ensures
        t.seconds >= 0,
        t.nanos < 1_000_000_000,
{
    let now = chrono::Utc::now();
    Timestamp { seconds: now.timestamp(), nanos: now.timestamp_subsec_nanos() }
}

} // verus!
