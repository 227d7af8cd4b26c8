//! Points in time, and the clocks that they are read from.

use std::rc::Rc;
use std::time::Duration;
use vstd::cell::invcell::InvCell;
use vstd::predicate::Predicate;
use vstd::prelude::*;

verus! {

/// The length of a [`Duration`] in nanoseconds.
pub uninterp spec fn duration_nanos(duration: Duration) -> nat;

/// [`Duration::as_nanos`] returns the length of the duration in nanoseconds. The length of a
/// given duration never changes, so it has a name here; nothing else is claimed of it.
pub assume_specification[ Duration::as_nanos ](duration: &Duration) -> (nanos: u128)
    ensures
        nanos == duration_nanos(*duration),
;

/// [`std::time::Instant`], a reading of the system's monotonic clock.
#[verifier::external_type_specification]
#[verifier::external_body]
pub struct ExMonotonicInstant(std::time::Instant);

/// [`std::time::Instant::now`] reads the system's monotonic clock. Nothing is claimed of the
/// reading.
pub assume_specification[ std::time::Instant::now ]() -> (now: std::time::Instant)
;

/// [`std::time::Instant::elapsed`] returns the time that has passed since the reading. Nothing
/// is claimed of it.
pub assume_specification[ std::time::Instant::elapsed ](since: &std::time::Instant) -> (elapsed:
    Duration)
;

/// A point in time, in nanoseconds since the clock that it was read from was made.
#[derive(Clone, Copy, PartialEq, Eq, Debug, Structural)]
pub struct Instant {
    pub nanos: u128,
}

impl Instant {
    /// The point in time that lies `nanos` nanoseconds after the clock was made.
    pub fn new(nanos: u128) -> (instant: Self)
        ensures
            instant.nanos == nanos,
    {
        Instant { nanos }
    }

    /// The point in time that lies `duration` later, or `None` if it cannot be represented.
    pub fn checked_add(&self, duration: Duration) -> (later: Option<Self>)
        ensures
            later is Some <==> self.nanos + duration_nanos(duration) <= u128::MAX,
            later matches Some(instant) ==> instant.nanos == self.nanos + duration_nanos(duration),
    {
        match self.nanos.checked_add(duration.as_nanos()) {
            Some(nanos) => Some(Instant { nanos }),
            None => None,
        }
    }
}

/// Any number of nanoseconds may stand in a mocked clock.
pub struct AnyNanos;

impl Predicate<u128> for AnyNanos {
    open spec fn predicate(&self, nanos: u128) -> bool {
        true
    }
}

enum ClockSource {
    Monotonic(std::time::Instant),
    Mock(Rc<InvCell<u128, AnyNanos>>),
}

/// A clock: the system's monotonic clock, or a mocked one.
pub struct Clock {
    source: ClockSource,
}

/// The handle by which a mocked clock is moved on.
pub struct Mock {
    nanos: Rc<InvCell<u128, AnyNanos>>,
}

/// Whether `nanos` is what may be read from the cell of a mocked clock.
spec fn may_hold(cell: InvCell<u128, AnyNanos>, nanos: u128) -> bool {
    call_ensures(InvCell::<u128, AnyNanos>::get, (&cell,), nanos)
}

/// Whether `nanos` may have been written to the cell of a mocked clock.
spec fn may_be_set(cell: InvCell<u128, AnyNanos>, nanos: u128) -> bool {
    call_ensures(InvCell::<u128, AnyNanos>::set, (&cell, nanos), ())
}

impl Clock {
    /// Whether the clock is a mocked one that `mock` moves.
    pub closed spec fn follows(&self, mock: &Mock) -> bool {
        self.source == ClockSource::Mock(mock.nanos)
    }

    /// Whether the clock may show `now` when it is read: as many nanoseconds as may have passed
    /// since the system's clock was read when this one was made, or as may stand in the cell of
    /// a mocked clock.
    pub closed spec fn may_show(&self, now: Instant) -> bool {
        match self.source {
            ClockSource::Monotonic(origin) => exists|elapsed: Duration| #[trigger]
                call_ensures(std::time::Instant::elapsed, (&origin,), elapsed) && now.nanos
                    == duration_nanos(elapsed),
            ClockSource::Mock(nanos) => may_hold(*nanos, now.nanos),
        }
    }

    /// A clock that starts at zero and follows the system's monotonic clock.
    pub fn monotonic() -> (clock: Self)
        ensures
            forall|mock: Mock| !clock.follows(&mock),
    {
        Clock { source: ClockSource::Monotonic(std::time::Instant::now()) }
    }

    /// A clock that stands at zero and moves only when it is told to, and the handle to do so.
    pub fn mock() -> (pair: (Self, Mock))
        ensures
            pair.0.follows(&pair.1),
    {
        let nanos = Rc::new(InvCell::new(0u128, Ghost(AnyNanos)));
        let mock = Mock { nanos: Rc::clone(&nanos) };
        (Clock { source: ClockSource::Mock(nanos) }, mock)
    }

    /// Reads the clock. What it shows depends on the system, or on what has been done with the
    /// handle of a mocked clock.
    pub fn now(&self) -> (now: Instant)
        ensures
            self.may_show(now),
    {
        match &self.source {
            ClockSource::Monotonic(origin) => Instant::new(origin.elapsed().as_nanos()),
            ClockSource::Mock(nanos) => Instant::new(nanos.get()),
        }
    }
}

impl Mock {
    /// Whether the clock may have been moved on by `duration`: the number of nanoseconds that it
    /// showed, with those of `duration` put on, up to the greatest number, has been written to
    /// its cell.
    pub closed spec fn may_have_moved(&self, duration: Duration) -> bool {
        exists|before: u128| #[trigger]
            may_hold(*self.nanos, before) && may_be_set(
                *self.nanos,
                if before + duration_nanos(duration) <= u128::MAX {
                    (before + duration_nanos(duration)) as u128
                } else {
                    u128::MAX
                },
            )
    }

    /// Moves the clock on by `duration`.
    pub fn increment(&self, duration: Duration)
        ensures
            self.may_have_moved(duration),
    {
        let nanos: u128 = self.nanos.get();
        let moved: u128 = nanos.saturating_add(duration.as_nanos());
        self.nanos.set(moved);
        assert(may_hold(*self.nanos, nanos));
        assert(may_be_set(*self.nanos, moved));
    }
}

/// A monotonic clock shows the nanoseconds that have passed since it was made, and a mocked one
/// what stands in its cell.
proof fn law_clock_shows(clock: Clock, now: Instant)
    requires
        clock.may_show(now),
    ensures
        match clock.source {
            ClockSource::Monotonic(origin) => exists|elapsed: Duration| #[trigger]
                call_ensures(std::time::Instant::elapsed, (&origin,), elapsed) && now.nanos
                    == duration_nanos(elapsed),
            ClockSource::Mock(nanos) => call_ensures(
                InvCell::<u128, AnyNanos>::get,
                (&*nanos,),
                now.nanos,
            ),
        },
{
}

/// Moving a mocked clock on writes to its cell what stood there, with the nanoseconds of the
/// duration put on as far as they can be represented.
proof fn law_mock_moves(mock: Mock, duration: Duration)
    requires
        mock.may_have_moved(duration),
    ensures
        exists|before: u128, moved: u128| #[trigger]
            call_ensures(InvCell::<u128, AnyNanos>::get, (&*mock.nanos,), before) && #[trigger]
            call_ensures(InvCell::<u128, AnyNanos>::set, (&*mock.nanos, moved), ()) && (moved
                == before + duration_nanos(duration) || moved == u128::MAX && before
                + duration_nanos(duration) > u128::MAX),
{
    let before = choose|before: u128| #[trigger]
        may_hold(*mock.nanos, before) && may_be_set(
            *mock.nanos,
            if before + duration_nanos(duration) <= u128::MAX {
                (before + duration_nanos(duration)) as u128
            } else {
                u128::MAX
            },
        );
    let moved = if before + duration_nanos(duration) <= u128::MAX {
        (before + duration_nanos(duration)) as u128
    } else {
        u128::MAX
    };
    assert(may_be_set(*mock.nanos, moved));
    assert(call_ensures(InvCell::<u128, AnyNanos>::get, (&*mock.nanos,), before));
    assert(call_ensures(InvCell::<u128, AnyNanos>::set, (&*mock.nanos, moved), ()));
}

} // verus!
