use vstd::prelude::*;

use crate::score::Score;
use crate::service::Service;
use crate::settings::ResultOutputSpec;

verus! {

/// A staged request to stop a monitored process: the platform's polite
/// stop first, its unconditional kill after.
#[derive(Clone, Copy, PartialEq, Eq, Structural, Debug)]
pub enum StopSignal {
    Graceful,
    Forceful,
}

/// What the watchdog sends at a check: nothing to a process that has
/// ended, the polite stop at the first check, the kill at the second.
pub open spec fn spec_watchdog_signal(second_check: bool, alive: bool) -> Option<StopSignal> {
    if !alive {
        None
    } else if second_check {
        Some(StopSignal::Forceful)
    } else {
        Some(StopSignal::Graceful)
    }
}

/// What the watchdog sends at a check.
pub fn watchdog_signal(second_check: bool, alive: bool) -> (r: Option<StopSignal>)
    ensures r == spec_watchdog_signal(second_check, alive),
{
    if !alive {
        None
    } else if second_check {
        Some(StopSignal::Forceful)
    } else {
        Some(StopSignal::Graceful)
    }
}

/// The watchdog's two waits, in milliseconds: first the timeout itself,
/// then three more timeouts, so the second check falls at four timeouts.
pub fn watchdog_delays(timeout: &Score) -> (r: (u64, u64))
    requires 0 <= timeout.micros,
    ensures
        r.0 as int == timeout.micros as int / 1000,
        r.1 == 3 * r.0,
        r.0 + r.1 == 4 * r.0,
{
    let ms: u64 = (timeout.micros as u64) / 1000;
    proof {
        assert(timeout.micros as int / 1000 == (timeout.micros as u64) as int / 1000);
    }
    (ms, 3 * ms)
}

/// Once a process has ended it stays ended.
pub open spec fn lifetime_monotone(alive: spec_fn(int) -> bool) -> bool {
    forall|a: int, b: int| a <= b && !#[trigger] alive(a) ==> !#[trigger] alive(b)
}

/// Over any process lifetime that never resumes once ended, with the
/// checks the watchdog schedules at `t` and at `4 * t`: a process still
/// running at four timeouts is sent the forceful kill there, and one that
/// ended before the first timeout is never sent anything.
pub proof fn lemma_watchdog_staged(alive: spec_fn(int) -> bool, t: int)
    requires
        lifetime_monotone(alive),
        t >= 0,
    ensures
        alive(4 * t) ==> spec_watchdog_signal(true, alive(4 * t)) == Some(StopSignal::Forceful),
        !alive(t) ==> spec_watchdog_signal(false, alive(t)) is None
            && spec_watchdog_signal(true, alive(4 * t)) is None,
{
    if !alive(t) {
        assert(t <= 4 * t);
        assert(!alive(4 * t));
    }
}

/// The milliseconds a gated check sleeps before looking again, when the
/// connectivity probe failed: a service that has never had a verdict (its
/// result still the fresh `Boolean(false)`) sleeps one timeout; one that
/// lost the net after working sleeps its plain interval.
pub fn pause_sleep_millis(service: &Service) -> (r: u64)
    requires 0 <= service.timeout.micros,
    ensures
        r as int == (if service.result@ == ResultOutputSpec::Boolean(false) {
            service.timeout.micros as int / 1000
        } else if service.interval as int * 1000 <= u64::MAX as int {
            service.interval as int * 1000
        } else {
            u64::MAX as int
        }),
{
    let fresh = match &service.result {
        crate::settings::ResultOutput::Boolean(b) => !*b,
        _ => false,
    };
    if fresh {
        (service.timeout.micros as u64) / 1000
    } else {
        if service.interval <= u64::MAX / 1000 {
            service.interval * 1000
        } else {
            u64::MAX
        }
    }
}

} // verus!
