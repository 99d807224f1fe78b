use vstd::prelude::*;

verus! {

/// Relies on `std::time::SystemTime::now` and `duration_since(UNIX_EPOCH)`:
/// whole seconds since the Unix epoch, 0 for a clock set before it. Nothing
/// is promised of the value.
#[verifier::external_body]
pub(crate) fn now_secs() -> (r: u64) {
    match std::time::SystemTime::now().duration_since(std::time::UNIX_EPOCH) {
        Ok(d) => d.as_secs(),
        Err(_) => 0,
    }
}

/// The id that [`get_sortable_id`] gives.
pub open spec fn next_id(now: u64, after: u64) -> Option<u64> {
    if now > after {
        Some(now)
    } else if after < u64::MAX {
        Some((after + 1) as u64)
    } else {
        None
    }
}

/// An id for a new segment that sorts after `after`: the clock reading when
/// it is later, else the next integer; none once the ids run out.
pub fn get_sortable_id(now: u64, after: u64) -> (r: Option<u64>)
    ensures
        r == next_id(now, after),
{
    if now > after {
        Some(now)
    } else if after < u64::MAX {
        Some(after + 1)
    } else {
        None
    }
}

} // verus!
