use vstd::prelude::*;

verus! {

/// The RFC 3339 text that chrono writes for the UTC instant `secs` seconds and `nanos`
/// nanoseconds after the Unix epoch.
pub uninterp spec fn rfc3339_of(secs: u64, nanos: u32) -> Seq<char>;

/// Relies on std's `SystemTime::now` and `SystemTime::duration_since(UNIX_EPOCH)`:
/// the time since the Unix epoch as whole seconds and the nanoseconds beyond them, or
/// `None` where the system clock reads before the epoch. It depends on the clock, so
/// only that the nanoseconds stay below one second is promised.
#[verifier::external_body]
pub(crate) fn since_epoch() -> (r: Option<(u64, u32)>)
    ensures
        r matches Some(t) ==> t.1 < 1_000_000_000,
{
    std::time::SystemTime::now()
        .duration_since(std::time::UNIX_EPOCH)
        .ok()
        .map(|d| (d.as_secs(), d.subsec_nanos()))
}

/// Relies on chrono's `DateTime::from_timestamp` and `DateTime::to_rfc3339`: the UTC
/// instant `secs` seconds and `nanos` nanoseconds after the epoch in RFC 3339 form, or
/// `None` where chrono cannot represent it. The text always holds the date, a `T` and
/// the time, so it is never empty.
#[verifier::external_body]
pub(crate) fn rfc3339_at(secs: u64, nanos: u32) -> (r: Option<String>)
    ensures
        r matches Some(s) ==> s@ == rfc3339_of(secs, nanos) && s@.len() > 0,
{
    let secs = i64::try_from(secs).ok()?;
    chrono::DateTime::from_timestamp(secs, nanos).map(|t| t.to_rfc3339())
}

/// The current UTC time in RFC 3339 form, or `None` where the clock gives no time that
/// can be written.
pub(crate) fn now_rfc3339() -> (r: Option<String>)
    ensures
        r matches Some(s) ==> s@.len() > 0,
{
    match since_epoch() {
        Some((secs, nanos)) => rfc3339_at(secs, nanos),
        None => None,
    }
}

} // verus!
