use vstd::prelude::*;

verus! {

/// Number of simulation ticks in one second of simulated time.
///
/// Event times are kept as whole ticks so that events can be ordered by
/// integers.
pub const TIME_QUANTIZATION: u64 = 100000000;

/// What happens at a point of simulated time.
#[derive(Clone, Copy, PartialEq, Eq, Structural, Debug)]
pub enum Event {
    /// A notification arrives.
    Notify,
    /// The server starts processing a notification.
    ProcessingStart,
    /// The server finishes processing a notification.
    ProcessingEnd,
    /// The server is switched on.
    ServerOn,
    /// The server is switched off.
    ServerOff,
}

/// Which random duration an event needs when it is handled.
#[derive(Clone, Copy, PartialEq, Eq, Structural, Debug)]
pub enum DurationKind {
    /// Time until the next notification arrives.
    NotificationInterval,
    /// Time the server takes to process one notification.
    ProcessingTime,
    /// How long the server stays on.
    OnPeriod,
    /// How long the server stays off.
    OffPeriod,
}

/// Which variant of the system is simulated.
#[derive(Clone, Copy, PartialEq, Eq, Structural, Debug)]
pub enum OastPart {
    /// The server is always on.
    Part1,
    /// The server is switched on and off.
    Part2,
}

impl Event {
    /// The events that belong to the processing of a notification.
    pub open spec fn spec_is_processing(self) -> bool {
        self is ProcessingStart || self is ProcessingEnd
    }

    /// The events that switch the server on or off.
    pub open spec fn spec_is_switch(self) -> bool {
        self is ServerOn || self is ServerOff
    }

    /// The random duration that handling this event draws, if any.
    pub open spec fn spec_duration_kind(self) -> Option<DurationKind> {
        match self {
            Event::Notify => Some(DurationKind::NotificationInterval),
            Event::ProcessingStart => Some(DurationKind::ProcessingTime),
            Event::ProcessingEnd => None,
            Event::ServerOn => Some(DurationKind::OnPeriod),
            Event::ServerOff => Some(DurationKind::OffPeriod),
        }
    }

    pub fn is_processing(&self) -> (r: bool)
        ensures
            r == self.spec_is_processing(),
    {
        match self {
            Event::ProcessingStart | Event::ProcessingEnd => true,
            _ => false,
        }
    }

    /// Tells which random duration the simulation needs to handle this event.
    pub fn duration_kind(&self) -> (r: Option<DurationKind>)
        ensures
            r == self.spec_duration_kind(),
    {
        match self {
            Event::Notify => Some(DurationKind::NotificationInterval),
            Event::ProcessingStart => Some(DurationKind::ProcessingTime),
            Event::ProcessingEnd => None,
            Event::ServerOn => Some(DurationKind::OnPeriod),
            Event::ServerOff => Some(DurationKind::OffPeriod),
        }
    }
}

/// An event together with the tick at which it happens.
#[derive(Clone, Copy, PartialEq, Eq, Structural, Debug)]
pub struct TimeEvent {
    pub time: u64,
    pub event: Event,
}

impl TimeEvent {
    /// The same event, `ticks` later.
    pub open spec fn delayed(self, ticks: u64) -> TimeEvent {
        TimeEvent { time: (self.time + ticks) as u64, event: self.event }
    }

    /// Returns the same event moved `ticks` later.
    pub fn add_ticks(&self, ticks: u64) -> (r: TimeEvent)
        requires
            self.time + ticks <= u64::MAX,
        ensures
            r == self.delayed(ticks),
            r.time == self.time + ticks,
    {
        TimeEvent { time: self.time + ticks, event: self.event }
    }
}

} // verus!
