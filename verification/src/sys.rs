//! Bindings to the outside world: the clock, random values, fresh object
//! identifiers, and calendar formatting.
//!
//! Each item here is trusted: its contract states no more than the called
//! crate's own source and documentation promise.  Everything that depends
//! on what these calls return is verified against these contracts alone.

use vstd::prelude::*;

verus! {

/// Relies on `String::push`: appends the given character to the end of
/// the string, as its documentation states.
pub assume_specification[ String::push ](s: &mut String, c: char)
    ensures
        final(s)@ == old(s)@.push(c),
;

/// Relies on `rand::random`: a value drawn from the thread-local
/// generator.  Nothing can be promised of a random value.
pub assume_specification<T>[ rand::random::<T> ]() -> (r: T)
    where
        rand::distr::StandardUniform: rand::distr::Distribution<T>,
;

/// The latest timestamp this layer formats: 9999-12-31T23:59:59.999 UTC,
/// in milliseconds since the Unix epoch.
pub const MAX_TIMESTAMP_MILLIS: i64 = 253_402_300_799_999;

/// The RFC 3339 rendering that `chrono` gives a UTC timestamp.  The result
/// is a function of the millisecond value alone.
pub uninterp spec fn rfc3339_of(millis: int) -> Seq<char>;

/// Relies on `chrono::DateTime::from_timestamp_millis`, which accepts every
/// value in the admitted range (its documentation returns `None` only for
/// timestamps more than about 262,000 years from the common era), and on
/// `chrono::DateTime::to_rfc3339`, whose result depends on the timestamp
/// alone.
#[verifier::external_body]
pub(crate) fn format_rfc3339(millis: i64) -> (r: String)
    requires
        0 <= millis <= MAX_TIMESTAMP_MILLIS,
    ensures
        r@ == rfc3339_of(millis as int),
{
    match chrono::DateTime::<chrono::Utc>::from_timestamp_millis(millis) {
        Some(dt) => dt.to_rfc3339(),
        None => String::new(),
    }
}

/// Relies on `chrono::Utc::now` and `chrono::DateTime::timestamp_millis`:
/// the clock reading, about which nothing is promised.
#[verifier::external_body]
fn now_millis_raw() -> i64 {
    chrono::Utc::now().timestamp_millis()
}

/// Relies on `uuid::Uuid::new_v4` and `uuid::Uuid::as_u128`: a freshly
/// drawn random identifier, about which nothing is promised.
#[verifier::external_body]
pub(crate) fn fresh_object_id() -> u128 {
    uuid::Uuid::new_v4().as_u128()
}

/// Reads the clock and clamps the reading into the range this layer can
/// format, whatever the clock returned.
pub fn current_time_millis() -> (r: i64)
    ensures
        0 <= r <= MAX_TIMESTAMP_MILLIS,
{
    let raw = now_millis_raw();
    if raw < 0 {
        0
    } else if raw > MAX_TIMESTAMP_MILLIS {
        MAX_TIMESTAMP_MILLIS
    } else {
        raw
    }
}

} // verus!
