use vstd::prelude::*;

verus! {

/// Nanoseconds in one second: timestamps are nanoseconds since the UNIX epoch.
pub const NANOS_PER_SEC: u64 = 1_000_000_000;

/// Whole seconds elapsed between two timestamps given in nanoseconds.
pub open spec fn elapsed_secs(last: u64, now: u64) -> int {
    (now - last) / (NANOS_PER_SEC as int)
}

/// Seconds still to wait before a site may be queried again.
pub open spec fn spec_cooldown_wait(page_cooldown: u64, last: u64, now: u64) -> int {
    if elapsed_secs(last, now) < page_cooldown {
        page_cooldown - elapsed_secs(last, now)
    } else {
        0
    }
}

/// Between two requests to one site at least the cooldown passes, and no
/// more than needed: a request waits only until `page_cooldown` whole
/// seconds have passed since the previous one.
pub proof fn lemma_cooldown_respected(page_cooldown: u64, last: u64, now: u64)
    requires
        last <= now,
    ensures
        elapsed_secs(last, now) + spec_cooldown_wait(page_cooldown, last, now) >= page_cooldown,
        spec_cooldown_wait(page_cooldown, last, now) > 0 ==> elapsed_secs(last, now)
            + spec_cooldown_wait(page_cooldown, last, now) == page_cooldown,
        elapsed_secs(last, now) >= page_cooldown ==> spec_cooldown_wait(page_cooldown, last, now)
            == 0,
{
}

/// When a request that arrives at `now` goes out: after waiting the
/// cooldown that remains since the previous request, made at `last`.
pub open spec fn request_time(page_cooldown: u64, last: u64, now: u64) -> int {
    now + spec_cooldown_wait(page_cooldown, last, now) * (NANOS_PER_SEC as int)
}

/// Two successive requests to one site go out at least `page_cooldown`
/// seconds apart: the previous one at `last`, the next one once its wait
/// from `now` is over.
pub proof fn lemma_requests_apart(page_cooldown: u64, last: u64, now: u64)
    requires
        last <= now,
    ensures
        request_time(page_cooldown, last, now) - last >= page_cooldown * (NANOS_PER_SEC as int),
{
    let d: int = now - last;
    let s: int = d / 1_000_000_000;
    assert(s * 1_000_000_000 <= d);
    assert(elapsed_secs(last, now) == s);
    if s < page_cooldown {
        assert((page_cooldown - s) * 1_000_000_000 + s * 1_000_000_000 == page_cooldown
            * 1_000_000_000);
    } else {
        assert(page_cooldown * 1_000_000_000 <= s * 1_000_000_000);
    }
}

/// How many seconds to sleep so that at least `page_cooldown` whole seconds
/// separate the request made at `last` from the next one, at time `now`.
pub fn cooldown_wait(page_cooldown: u64, last: u64, now: u64) -> (wait: u64)
    requires
        last <= now,
    ensures
        wait == spec_cooldown_wait(page_cooldown, last, now),
        elapsed_secs(last, now) + wait >= page_cooldown,
        wait <= page_cooldown,
{
    let secs = (now - last) / NANOS_PER_SEC;
    if secs < page_cooldown {
        page_cooldown - secs
    } else {
        0
    }
}

} // verus!
