use vstd::prelude::*;

use std::collections::VecDeque;

use crate::event::{Event, OastPart, TimeEvent};
use crate::queue::{
    all_events, count_event, count_processing, insert_all_by_time, one_if_same, insert_by_time, lemma_count_insert,
    lemma_count_postpone, lemma_insert_all, lemma_insert_all_events, lemma_insert_sorted,
    postpone_all, postponable, postponed, sorted_by_time, OastQueue, lemma_get_keeps_events,
    lemma_put_keeps_events, lemma_insert_all_keeps_events, lemma_insert_position, lemma_postpone_law,
    lemma_shift_insert, shifted_by,
};

verus! {

/// Tick at which the first notification arrives (a ten-thousandth of a second).
pub const FIRST_NOTIFICATION_TICKS: u64 = 10000;

/// A notification waiting for the server, with the tick at which it arrived.
#[derive(Clone, Copy, PartialEq, Eq, Structural, Debug)]
pub struct Notification {
    pub time_queued: u64,
}

impl Notification {
    pub fn new(time_queued: u64) -> (n: Notification)
        ensures
            n.time_queued == time_queued,
    {
        Notification { time_queued }
    }
}

/// What the simulation measures: notifications that arrived, notifications
/// that were processed, and the sum of their delays in the system, in ticks.
#[derive(Debug)]
pub struct Measurements {
    pub spawned_notifications: i64,
    pub processed_notifications: i64,
    pub cumulative_delay: u128,
}

impl Default for Measurements {
    fn default() -> (m: Measurements)
        ensures
            m.spawned_notifications == 0,
            m.processed_notifications == 0,
            m.cumulative_delay == 0,
    {
        Measurements { spawned_notifications: 0, processed_notifications: 0, cumulative_delay: 0 }
    }
}

/// The server: whether it is on, the notifications waiting for it, and
/// whether it is processing one of them.
pub struct SimulatedServer {
    pub running: bool,
    pub queue: VecDeque<Notification>,
    pub processing: bool,
}

impl Default for SimulatedServer {
    fn default() -> (s: SimulatedServer)
        ensures
            !s.running,
            s.queue@ == Seq::<Notification>::empty(),
            !s.processing,
    {
        SimulatedServer { running: false, queue: VecDeque::new(), processing: false }
    }
}

/// The state of a simulation, as mathematical values.
pub struct SimState {
    pub part: OastPart,
    /// Pending events, in the order in which they fall due.
    pub events: Seq<TimeEvent>,
    /// Notifications waiting for the server, the latest arrival last.
    pub waiting: Seq<Notification>,
    pub running: bool,
    pub processing: bool,
    pub spawned: int,
    pub processed: int,
    pub total_delay: int,
    /// The tick of the event handled last.
    pub now: u64,
}

/// The server starts processing when it is on, idle, and a notification waits:
/// it schedules the start of processing for the current tick.
pub open spec fn start_processing_if_idle(v: SimState) -> SimState {
    if v.running && v.waiting.len() > 0 && !v.processing {
        SimState {
            processing: true,
            events: insert_by_time(v.events, TimeEvent { time: v.now, event: Event::ProcessingStart }),
            ..v
        }
    } else {
        v
    }
}

/// Handling `e` at tick `v.now` (after it left the queue), with `sample` the
/// random duration that `e` draws.
pub open spec fn handle(v: SimState, e: Event, sample: u64) -> SimState {
    let t = v.now;
    let later = (t + sample) as u64;
    match e {
        Event::Notify => start_processing_if_idle(
            SimState {
                spawned: v.spawned + 1,
                events: insert_by_time(v.events, TimeEvent { time: later, event: Event::Notify }),
                waiting: v.waiting.push(Notification { time_queued: t }),
                ..v
            },
        ),
        Event::ProcessingStart => SimState {
            events: insert_by_time(v.events, TimeEvent { time: later, event: Event::ProcessingEnd }),
            ..v
        },
        Event::ProcessingEnd => {
            let done = v.waiting.last();
            let w = start_processing_if_idle(
                SimState { waiting: v.waiting.drop_last(), processing: false, ..v },
            );
            SimState {
                processed: w.processed + 1,
                total_delay: w.total_delay + (t - done.time_queued),
                ..w
            }
        },
        Event::ServerOn => start_processing_if_idle(
            SimState {
                running: true,
                events: insert_by_time(v.events, TimeEvent { time: later, event: Event::ServerOff }),
                ..v
            },
        ),
        Event::ServerOff => SimState {
            running: false,
            events: insert_all_by_time(
                postpone_all(
                    insert_by_time(v.events, TimeEvent { time: later, event: Event::ServerOn }),
                    sample,
                ),
            ),
            ..v
        },
    }
}

/// One step: the event that falls due first leaves the queue and is handled;
/// nothing happens when no event is pending.
pub open spec fn step_state(v: SimState, sample: u64) -> SimState {
    if v.events.len() == 0 {
        v
    } else {
        let x = v.events[0];
        handle(SimState { events: v.events.drop_first(), now: x.time, ..v }, x.event, sample)
    }
}

/// The events that begin a simulation: the first notification and, in the
/// second part, the server switched on at tick 0; in the first part the
/// server is simply on.
pub open spec fn start_state(v: SimState) -> SimState {
    let first = insert_by_time(
        v.events,
        TimeEvent { time: FIRST_NOTIFICATION_TICKS, event: Event::Notify },
    );
    if v.part == OastPart::Part2 {
        SimState {
            events: insert_by_time(first, TimeEvent { time: 0, event: Event::ServerOn }),
            ..v
        }
    } else {
        SimState { events: first, running: true, ..v }
    }
}

/// Events due at tick `t` or later.
pub open spec fn due_from(t: u64) -> spec_fn(TimeEvent) -> bool {
    |e: TimeEvent| t <= e.time
}

/// One for a processing event, zero for any other.
pub open spec fn processing_weight(e: Event) -> nat {
    if e.spec_is_processing() { 1nat } else { 0nat }
}

/// The invariant of the simulation.
pub open spec fn consistent(v: SimState) -> bool {
    &&& sorted_by_time(v.events)
    &&& all_events(v.events, due_from(v.now))
    &&& forall|i: int| 0 <= i < v.waiting.len() ==> (#[trigger] v.waiting[i]).time_queued <= v.now
    &&& count_processing(v.events) == (if v.processing { 1nat } else { 0nat })
    &&& v.processing ==> v.waiting.len() > 0
}

/// The server never idles while it is on and a notification waits.
pub open spec fn work_conserving(v: SimState) -> bool {
    v.running && v.waiting.len() > 0 ==> v.processing
}

/// The pending events of a started simulation: exactly one arrival; in the
/// first part the server is on and nothing would switch it; in the second
/// part exactly one switch is pending, a switch-off exactly when the server
/// is on.
pub open spec fn well_started(v: SimState) -> bool {
    &&& count_event(v.events, Event::Notify) == 1
    &&& v.part == OastPart::Part1 ==> {
        &&& v.running
        &&& count_event(v.events, Event::ServerOn) == 0
        &&& count_event(v.events, Event::ServerOff) == 0
    }
    &&& v.part == OastPart::Part2 ==> {
        &&& count_event(v.events, Event::ServerOff) == (if v.running { 1nat } else { 0nat })
        &&& count_event(v.events, Event::ServerOn) == (if v.running { 0nat } else { 1nat })
    }
}

/// `v` with `x` back in front of its pending events.
pub open spec fn with_first(v: SimState, x: TimeEvent) -> SimState {
    SimState { events: seq![x] + v.events, ..v }
}

/// What handling `e` at `v.now` needs in order to compute without overflow:
/// the new event's tick, on switch-off the postponed ticks, and the counter
/// that grows.
pub open spec fn handling_fits(v: SimState, e: Event, sample: u64) -> bool {
    &&& !(e is ProcessingEnd) ==> v.now + sample <= u64::MAX
    &&& e is ServerOff ==> all_events(v.events, postponable(sample))
    &&& e is Notify ==> v.spawned < i64::MAX
    &&& e is ProcessingEnd ==> {
        &&& v.processed < i64::MAX
        &&& v.total_delay + (v.now - v.waiting.last().time_queued) <= u128::MAX
    }
}

/// The next step computes without overflow: handling the event that falls
/// due first fits.
pub open spec fn has_room(v: SimState, sample: u64) -> bool {
    v.events.len() > 0 ==> handling_fits(
        SimState { events: v.events.drop_first(), now: v.events[0].time, ..v },
        v.events[0].event,
        sample,
    )
}

/// What handling `e` at `v.now` needs in order to compute without overflow or
/// panic.
pub open spec fn can_handle(v: SimState, e: Event, sample: u64) -> bool {
    &&& sorted_by_time(v.events)
    &&& handling_fits(v, e, sample)
    &&& e is ProcessingEnd ==> v.waiting.len() > 0
    &&& forall|i: int| 0 <= i < v.waiting.len() ==> (#[trigger] v.waiting[i]).time_queued <= v.now
}

/// An event removed from the front leaves the others satisfying what they did.
pub proof fn lemma_all_events_drop_first(s: Seq<TimeEvent>, p: spec_fn(TimeEvent) -> bool)
    requires
        s.len() > 0,
        all_events(s, p),
    ensures
        all_events(s.drop_first(), p),
        p(s[0]),
{
    assert forall|i: int| 0 <= i < s.drop_first().len() implies #[trigger] p(s.drop_first()[i]) by {
        assert(s.drop_first()[i] == s[i + 1]);
    }
}

/// The counts of a sequence with `x` in front.
pub proof fn lemma_count_first(x: TimeEvent, s: Seq<TimeEvent>)
    ensures
        forall|e: Event| #[trigger] count_event(seq![x] + s, e) == one_if_same(x.event, e) + count_event(s, e),
{
    assert((seq![x] + s).drop_first() =~= s);
    assert forall|e: Event| #[trigger] count_event(seq![x] + s, e) == one_if_same(x.event, e) + count_event(s, e) by {
        assert((seq![x] + s)[0] == x);
    }
}

/// Starting to process keeps the invariant, leaves a server that does not
/// idle, and adds only a processing start at the current tick.
pub proof fn lemma_start_if_idle(v: SimState)
    requires
        consistent(v),
    ensures
        consistent(start_processing_if_idle(v)),
        work_conserving(start_processing_if_idle(v)),
        forall|e: Event| e != Event::ProcessingStart ==> #[trigger] count_event(start_processing_if_idle(v).events, e) == count_event(v.events, e),
        start_processing_if_idle(v).running == v.running,
        start_processing_if_idle(v).part == v.part,
{
    if v.running && v.waiting.len() > 0 && !v.processing {
        let x = TimeEvent { time: v.now, event: Event::ProcessingStart };
        lemma_insert_sorted(v.events, x);
        lemma_insert_all_events(v.events, x, due_from(v.now));
        lemma_count_insert(v.events, x);
    }
}

/// Starting to process a second time changes nothing: at most one start of
/// processing is queued.
pub proof fn lemma_start_if_idle_twice(v: SimState)
    ensures
        start_processing_if_idle(start_processing_if_idle(v)) == start_processing_if_idle(v),
{
}

/// Handling an event that has just left the queue keeps the invariant.
pub proof fn lemma_handle(u: SimState, e: Event, sample: u64)
    requires
        sorted_by_time(u.events),
        all_events(u.events, due_from(u.now)),
        forall|i: int| 0 <= i < u.waiting.len() ==> (#[trigger] u.waiting[i]).time_queued <= u.now,
        count_processing(u.events) + processing_weight(e) == (if u.processing { 1nat } else { 0nat }),
        u.processing ==> u.waiting.len() > 0,
        !(e is ProcessingEnd) ==> u.now + sample <= u64::MAX,
        e is ServerOff ==> all_events(u.events, postponable(sample)),
    ensures
        consistent(handle(u, e, sample)),
        work_conserving(u) ==> work_conserving(handle(u, e, sample)),
        well_started(with_first(u, TimeEvent { time: u.now, event: e })) ==> well_started(handle(u, e, sample)),
        handle(u, e, sample).now == u.now,
        handle(u, e, sample).part == u.part,
        handle(u, e, sample).spawned >= u.spawned,
        handle(u, e, sample).processed >= u.processed,
        handle(u, e, sample).total_delay >= u.total_delay,
{
    let t = u.now;
    let later = (t + sample) as u64;
    let r = handle(u, e, sample);
    lemma_count_first(TimeEvent { time: u.now, event: e }, u.events);
    match e {
        Event::Notify => {
            let x = TimeEvent { time: later, event: Event::Notify };
            let w = SimState {
                spawned: u.spawned + 1,
                events: insert_by_time(u.events, x),
                waiting: u.waiting.push(Notification { time_queued: t }),
                ..u
            };
            lemma_insert_sorted(u.events, x);
            lemma_insert_all_events(u.events, x, due_from(t));
            lemma_count_insert(u.events, x);
            assert forall|i: int| 0 <= i < w.waiting.len() implies (#[trigger] w.waiting[i]).time_queued <= w.now by {
                if i < u.waiting.len() {
                    assert(w.waiting[i] == u.waiting[i]);
                }
            }
            lemma_start_if_idle(w);
            assert(count_event(w.events, Event::Notify) == count_event(u.events, Event::Notify) + 1);
            assert(count_event(w.events, Event::ServerOn) == count_event(u.events, Event::ServerOn));
            assert(count_event(w.events, Event::ServerOff) == count_event(u.events, Event::ServerOff));
            assert(count_event(r.events, Event::Notify) == count_event(w.events, Event::Notify));
            assert(count_event(r.events, Event::ServerOn) == count_event(w.events, Event::ServerOn));
            assert(count_event(r.events, Event::ServerOff) == count_event(w.events, Event::ServerOff));
        },
        Event::ProcessingStart => {
            let x = TimeEvent { time: later, event: Event::ProcessingEnd };
            lemma_insert_sorted(u.events, x);
            lemma_insert_all_events(u.events, x, due_from(t));
            lemma_count_insert(u.events, x);
            assert(count_event(r.events, Event::Notify) == count_event(u.events, Event::Notify));
            assert(count_event(r.events, Event::ServerOn) == count_event(u.events, Event::ServerOn));
            assert(count_event(r.events, Event::ServerOff) == count_event(u.events, Event::ServerOff));
        },
        Event::ProcessingEnd => {
            let w = SimState { waiting: u.waiting.drop_last(), processing: false, ..u };
            assert forall|i: int| 0 <= i < w.waiting.len() implies (#[trigger] w.waiting[i]).time_queued <= w.now by {
                assert(w.waiting[i] == u.waiting[i]);
            }
            assert(u.waiting.last() == u.waiting[u.waiting.len() - 1]);
            lemma_start_if_idle(w);
            assert(count_event(r.events, Event::Notify) == count_event(u.events, Event::Notify));
            assert(count_event(r.events, Event::ServerOn) == count_event(u.events, Event::ServerOn));
            assert(count_event(r.events, Event::ServerOff) == count_event(u.events, Event::ServerOff));
        },
        Event::ServerOn => {
            let x = TimeEvent { time: later, event: Event::ServerOff };
            let w = SimState { running: true, events: insert_by_time(u.events, x), ..u };
            lemma_insert_sorted(u.events, x);
            lemma_insert_all_events(u.events, x, due_from(t));
            lemma_count_insert(u.events, x);
            lemma_start_if_idle(w);
            assert(count_event(r.events, Event::Notify) == count_event(u.events, Event::Notify));
            assert(count_event(r.events, Event::ServerOn) == count_event(u.events, Event::ServerOn));
            assert(count_event(r.events, Event::ServerOff) == count_event(u.events, Event::ServerOff) + 1);
        },
        Event::ServerOff => {
            let x = TimeEvent { time: later, event: Event::ServerOn };
            let s1 = insert_by_time(u.events, x);
            let s2 = postpone_all(s1, sample);
            lemma_insert_sorted(u.events, x);
            lemma_insert_all_events(u.events, x, due_from(t));
            lemma_insert_all_events(u.events, x, postponable(sample));
            lemma_count_insert(u.events, x);
            lemma_count_postpone(s1, sample);
            assert forall|i: int| 0 <= i < s2.len() implies #[trigger] due_from(t)(s2[i]) by {
                assert(s2[i] == postponed(s1[i], sample));
                assert(due_from(t)(s1[i]));
                assert(postponable(sample)(s1[i]));
            }
            lemma_insert_all(s2, due_from(t));
            assert(count_event(r.events, Event::Notify) == count_event(s2, Event::Notify));
            assert(count_event(r.events, Event::ServerOn) == count_event(s2, Event::ServerOn));
            assert(count_event(r.events, Event::ServerOff) == count_event(s2, Event::ServerOff));
            assert(count_event(s2, Event::Notify) == count_event(u.events, Event::Notify));
            assert(count_event(s2, Event::ServerOn) == count_event(u.events, Event::ServerOn) + 1);
            assert(count_event(s2, Event::ServerOff) == count_event(u.events, Event::ServerOff));
        },
    }
}

/// One step keeps the invariant, never idles a server that did not idle,
/// keeps the pending arrival and switch of a started simulation, moves the
/// clock only forward, and never lowers a counter.
pub proof fn lemma_step(v: SimState, sample: u64)
    requires
        consistent(v),
        has_room(v, sample),
    ensures
        consistent(step_state(v, sample)),
        work_conserving(v) ==> work_conserving(step_state(v, sample)),
        well_started(v) ==> well_started(step_state(v, sample)),
        v.now <= step_state(v, sample).now,
        step_state(v, sample).part == v.part,
        v.spawned <= step_state(v, sample).spawned,
        v.processed <= step_state(v, sample).processed,
        v.total_delay <= step_state(v, sample).total_delay,
{
    if v.events.len() > 0 {
        let x = v.events[0];
        let u = SimState { events: v.events.drop_first(), now: x.time, ..v };
        lemma_all_events_drop_first(v.events, due_from(v.now));
        assert forall|i: int| 0 <= i < u.events.len() implies #[trigger] due_from(x.time)(u.events[i]) by {
            assert(u.events[i] == v.events[i + 1]);
        }
        assert(count_processing(v.events) == processing_weight(x.event) + count_processing(v.events.drop_first()));
        assert(with_first(u, TimeEvent { time: u.now, event: x.event }).events =~= v.events);
        lemma_handle(u, x.event, sample);
    }
}

/// Starting a fresh simulation keeps the invariant; the server does not idle
/// when nothing waits; with nothing pending before and the server off, the
/// simulation is well started.
pub proof fn lemma_start(v: SimState)
    requires
        consistent(v),
        v.now == 0,
    ensures
        consistent(start_state(v)),
        v.waiting.len() == 0 ==> work_conserving(start_state(v)),
        v.events.len() == 0 && !v.running ==> well_started(start_state(v)),
{
    let x = TimeEvent { time: FIRST_NOTIFICATION_TICKS, event: Event::Notify };
    let first = insert_by_time(v.events, x);
    if v.events.len() == 0 {
        assert(count_event(v.events, Event::Notify) == 0);
        assert(count_event(v.events, Event::ServerOn) == 0);
        assert(count_event(v.events, Event::ServerOff) == 0);
    }
    lemma_insert_sorted(v.events, x);
    lemma_insert_all_events(v.events, x, due_from(0));
    lemma_count_insert(v.events, x);
    if v.part == OastPart::Part2 {
        let y = TimeEvent { time: 0, event: Event::ServerOn };
        lemma_insert_sorted(first, y);
        lemma_insert_all_events(first, y, due_from(0));
        lemma_count_insert(first, y);
    }
}

/// Handling an arrival: it is counted (whatever the server's state), queued
/// stamped with its own tick, and the next arrival is scheduled `sample` ticks
/// later; processing starts at once exactly when the server is on and idle.
/// Nothing is processed and no delay is added.
pub proof fn lemma_arrival_law(v: SimState, x: TimeEvent, sample: u64)
    requires
        consistent(v),
        has_room(v, sample),
        v.events.len() > 0,
        v.events[0] == x,
        x.event == Event::Notify,
    ensures
        step_state(v, sample).spawned == v.spawned + 1,
        step_state(v, sample).processed == v.processed,
        step_state(v, sample).total_delay == v.total_delay,
        step_state(v, sample).waiting == v.waiting.push(Notification { time_queued: x.time }),
        step_state(v, sample).running == v.running,
        step_state(v, sample).processing == (v.processing || v.running),
        step_state(v, sample).now == x.time,
        v.running && !v.processing ==> step_state(v, sample).events.to_multiset()
            == v.events.to_multiset().remove(x).insert(
            TimeEvent { time: (x.time + sample) as u64, event: Event::Notify },
        ).insert(TimeEvent { time: x.time, event: Event::ProcessingStart }),
        !(v.running && !v.processing) ==> step_state(v, sample).events.to_multiset()
            == v.events.to_multiset().remove(x).insert(
            TimeEvent { time: (x.time + sample) as u64, event: Event::Notify },
        ),
        x.time + sample <= u64::MAX,
{
    let u = SimState { events: v.events.drop_first(), now: x.time, ..v };
    let n = TimeEvent { time: (x.time + sample) as u64, event: Event::Notify };
    lemma_get_keeps_events(v.events);
    lemma_put_keeps_events(u.events, n);
    lemma_put_keeps_events(insert_by_time(u.events, n), TimeEvent { time: x.time, event: Event::ProcessingStart });
}

/// Handling a start of processing schedules its end `sample` ticks later and
/// changes nothing else: the waiting notifications keep their arrival ticks.
pub proof fn lemma_processing_start_law(v: SimState, x: TimeEvent, sample: u64)
    requires
        consistent(v),
        has_room(v, sample),
        v.events.len() > 0,
        v.events[0] == x,
        x.event == Event::ProcessingStart,
    ensures
        step_state(v, sample).spawned == v.spawned,
        step_state(v, sample).processed == v.processed,
        step_state(v, sample).total_delay == v.total_delay,
        step_state(v, sample).waiting == v.waiting,
        step_state(v, sample).running == v.running,
        step_state(v, sample).processing == v.processing,
        step_state(v, sample).processing,
        step_state(v, sample).now == x.time,
        step_state(v, sample).events.to_multiset() == v.events.to_multiset().remove(x).insert(
            TimeEvent { time: (x.time + sample) as u64, event: Event::ProcessingEnd },
        ),
        x.time + sample <= u64::MAX,
{
    let u = SimState { events: v.events.drop_first(), now: x.time, ..v };
    lemma_get_keeps_events(v.events);
    lemma_put_keeps_events(u.events, TimeEvent { time: (x.time + sample) as u64, event: Event::ProcessingEnd });
    assert(count_processing(v.events) == processing_weight(x.event) + count_processing(v.events.drop_first()));
}

/// Handling an end of processing removes from the waiting notifications
/// exactly the latest one and adds exactly its delay, from its arrival to
/// this tick; one more notification counts as processed. Processing starts
/// again at once exactly when the server is on and another notification
/// waits.
pub proof fn lemma_processing_end_law(v: SimState, x: TimeEvent, sample: u64)
    requires
        consistent(v),
        has_room(v, sample),
        v.events.len() > 0,
        v.events[0] == x,
        x.event == Event::ProcessingEnd,
    ensures
        v.waiting.len() > 0,
        step_state(v, sample).waiting.push(v.waiting.last()) == v.waiting,
        step_state(v, sample).waiting == v.waiting.drop_last(),
        step_state(v, sample).waiting.to_multiset() == v.waiting.to_multiset().remove(v.waiting.last()),
        step_state(v, sample).total_delay == v.total_delay + (x.time - v.waiting.last().time_queued),
        v.waiting.last().time_queued <= x.time,
        step_state(v, sample).processed == v.processed + 1,
        step_state(v, sample).spawned == v.spawned,
        step_state(v, sample).running == v.running,
        step_state(v, sample).processing == (v.running && v.waiting.len() > 1),
        step_state(v, sample).now == x.time,
        v.running && v.waiting.len() > 1 ==> step_state(v, sample).events.to_multiset()
            == v.events.to_multiset().remove(x).insert(
            TimeEvent { time: x.time, event: Event::ProcessingStart },
        ),
        !(v.running && v.waiting.len() > 1) ==> step_state(v, sample).events.to_multiset()
            == v.events.to_multiset().remove(x),
{
    broadcast use vstd::seq_lib::group_to_multiset_ensures;

    lemma_processing_end_finds_notification(v);
    let u = SimState { events: v.events.drop_first(), now: x.time, ..v };
    lemma_get_keeps_events(v.events);
    lemma_put_keeps_events(u.events, TimeEvent { time: x.time, event: Event::ProcessingStart });
    assert(v.waiting.drop_last().push(v.waiting.last()) =~= v.waiting);
    assert(v.waiting.remove(v.waiting.len() - 1) =~= v.waiting.drop_last());
    assert(v.waiting.last() == v.waiting[v.waiting.len() - 1]);
    assert(due_from(v.now)(x));
}

/// Switching the server on schedules the switch-off `sample` ticks later and
/// starts processing at once when the server was idle and a notification
/// waits; the waiting notifications and the measurements are unchanged.
pub proof fn lemma_server_on_law(v: SimState, x: TimeEvent, sample: u64)
    requires
        consistent(v),
        has_room(v, sample),
        v.events.len() > 0,
        v.events[0] == x,
        x.event == Event::ServerOn,
    ensures
        step_state(v, sample).running,
        step_state(v, sample).waiting == v.waiting,
        step_state(v, sample).spawned == v.spawned,
        step_state(v, sample).processed == v.processed,
        step_state(v, sample).total_delay == v.total_delay,
        step_state(v, sample).processing == (v.processing || v.waiting.len() > 0),
        step_state(v, sample).now == x.time,
        !v.processing && v.waiting.len() > 0 ==> step_state(v, sample).events.to_multiset()
            == v.events.to_multiset().remove(x).insert(
            TimeEvent { time: (x.time + sample) as u64, event: Event::ServerOff },
        ).insert(TimeEvent { time: x.time, event: Event::ProcessingStart }),
        !(!v.processing && v.waiting.len() > 0) ==> step_state(v, sample).events.to_multiset()
            == v.events.to_multiset().remove(x).insert(
            TimeEvent { time: (x.time + sample) as u64, event: Event::ServerOff },
        ),
        x.time + sample <= u64::MAX,
{
    let u = SimState { events: v.events.drop_first(), now: x.time, ..v };
    let off = TimeEvent { time: (x.time + sample) as u64, event: Event::ServerOff };
    lemma_get_keeps_events(v.events);
    lemma_put_keeps_events(u.events, off);
    lemma_put_keeps_events(insert_by_time(u.events, off), TimeEvent { time: x.time, event: Event::ProcessingStart });
}

/// Switching the server off schedules the switch-on `sample` ticks later and
/// moves every pending start or end of processing exactly `sample` ticks
/// later, leaving every other pending event as it was; the waiting
/// notifications and the measurements are unchanged.
pub proof fn lemma_server_off_law(v: SimState, x: TimeEvent, sample: u64)
    requires
        consistent(v),
        has_room(v, sample),
        v.events.len() > 0,
        v.events[0] == x,
        x.event == Event::ServerOff,
    ensures
        !step_state(v, sample).running,
        step_state(v, sample).waiting == v.waiting,
        step_state(v, sample).spawned == v.spawned,
        step_state(v, sample).processed == v.processed,
        step_state(v, sample).total_delay == v.total_delay,
        step_state(v, sample).processing == v.processing,
        step_state(v, sample).now == x.time,
        step_state(v, sample).events.to_multiset() == shifted_by(v.events.drop_first(), sample).to_multiset().insert(
            TimeEvent { time: (x.time + sample) as u64, event: Event::ServerOn },
        ),
        x.time + sample <= u64::MAX,
{
    broadcast use vstd::seq_lib::group_to_multiset_ensures;

    let rest = v.events.drop_first();
    let on = TimeEvent { time: (x.time + sample) as u64, event: Event::ServerOn };
    let s1 = insert_by_time(rest, on);
    let k = lemma_insert_position(rest, on);
    lemma_insert_all_events(rest, on, postponable(sample));
    assert forall|i: int|
        0 <= i < s1.len() && (#[trigger] s1[i]).event.spec_is_processing() implies s1[i].time + sample <= u64::MAX by {
        assert(postponable(sample)(s1[i]));
    }
    lemma_postpone_law(s1, sample);
    lemma_shift_insert(rest, k, on, sample);
}

/// Starting queues the first arrival at `FIRST_NOTIFICATION_TICKS`; in the
/// second part it also queues the switch-on at tick 0 and leaves the server as
/// it was, in the first part it switches the server on. Nothing else changes.
pub proof fn lemma_start_law(v: SimState)
    ensures
        v.part == OastPart::Part2 ==> start_state(v).events.to_multiset() == v.events.to_multiset().insert(
            TimeEvent { time: FIRST_NOTIFICATION_TICKS, event: Event::Notify },
        ).insert(TimeEvent { time: 0, event: Event::ServerOn }),
        v.part == OastPart::Part2 ==> start_state(v).running == v.running,
        v.part == OastPart::Part1 ==> start_state(v).events.to_multiset() == v.events.to_multiset().insert(
            TimeEvent { time: FIRST_NOTIFICATION_TICKS, event: Event::Notify },
        ),
        v.part == OastPart::Part1 ==> start_state(v).running,
        start_state(v).waiting == v.waiting,
        start_state(v).processing == v.processing,
        start_state(v).spawned == v.spawned,
        start_state(v).processed == v.processed,
        start_state(v).total_delay == v.total_delay,
        start_state(v).now == v.now,
{
    let x = TimeEvent { time: FIRST_NOTIFICATION_TICKS, event: Event::Notify };
    lemma_put_keeps_events(v.events, x);
    lemma_put_keeps_events(insert_by_time(v.events, x), TimeEvent { time: 0, event: Event::ServerOn });
}

/// The state after one step for each of `samples`, in order.
pub open spec fn run_steps(v: SimState, samples: Seq<u64>) -> SimState
    decreases samples.len(),
{
    if samples.len() == 0 {
        v
    } else {
        run_steps(step_state(v, samples[0]), samples.drop_first())
    }
}

/// Every one of those steps computes without overflow.
pub open spec fn steps_fit(v: SimState, samples: Seq<u64>) -> bool
    decreases samples.len(),
{
    samples.len() == 0 || (has_room(v, samples[0]) && steps_fit(
        step_state(v, samples[0]),
        samples.drop_first(),
    ))
}

/// A notification is waiting whenever the event that falls due next is the
/// end of a processing: handling it never finds the server's queue empty.
pub proof fn lemma_processing_end_finds_notification(v: SimState)
    requires
        consistent(v),
        v.events.len() > 0,
        v.events[0].event is ProcessingEnd,
    ensures
        v.processing,
        v.waiting.len() > 0,
{
    assert(count_processing(v.events) == processing_weight(v.events[0].event)
        + count_processing(v.events.drop_first()));
}

/// Any number of steps keeps the invariant, never idles a server that did not
/// idle, keeps the pending arrival and switch of a started simulation, moves the clock only forward, and never
/// lowers a counter.
pub proof fn lemma_run(v: SimState, samples: Seq<u64>)
    requires
        consistent(v),
        steps_fit(v, samples),
    ensures
        consistent(run_steps(v, samples)),
        work_conserving(v) ==> work_conserving(run_steps(v, samples)),
        well_started(v) ==> well_started(run_steps(v, samples)),
        v.now <= run_steps(v, samples).now,
        run_steps(v, samples).part == v.part,
        v.spawned <= run_steps(v, samples).spawned,
        v.processed <= run_steps(v, samples).processed,
        v.total_delay <= run_steps(v, samples).total_delay,
    decreases samples.len(),
{
    if samples.len() > 0 {
        lemma_step(v, samples[0]);
        lemma_run(step_state(v, samples[0]), samples.drop_first());
    }
}

/// From its start, a simulation never idles the server while a notification
/// waits, always has exactly one arrival pending, in the first part never
/// switches the server off, and in the second part always has exactly one
/// switch pending, a switch-off exactly when the server is on.
pub proof fn lemma_simulation(part: OastPart, samples: Seq<u64>)
    requires
        steps_fit(start_state(initial_state(part)), samples),
    ensures
        consistent(run_steps(start_state(initial_state(part)), samples)),
        work_conserving(run_steps(start_state(initial_state(part)), samples)),
        well_started(run_steps(start_state(initial_state(part)), samples)),
        part == OastPart::Part1 ==> run_steps(start_state(initial_state(part)), samples).running,
{
    let v = initial_state(part);
    assert(count_processing(v.events) == 0);
    lemma_start(v);
    lemma_run(start_state(v), samples);
}

/// The state of a simulation that has not begun.
pub open spec fn initial_state(part: OastPart) -> SimState {
    SimState {
        part,
        events: Seq::empty(),
        waiting: Seq::empty(),
        running: false,
        processing: false,
        spawned: 0,
        processed: 0,
        total_delay: 0,
        now: 0,
    }
}

/// A simulation of the server: the pending events, the measurements, and the
/// server itself. Durations that the simulation draws at random are handed to
/// `step` as ticks.
pub struct Oast {
    events: OastQueue,
    measurements: Measurements,
    server: SimulatedServer,
    part: OastPart,
    now: Ghost<u64>,
}

impl View for Oast {
    type V = SimState;

    closed spec fn view(&self) -> SimState {
        SimState {
            part: self.part,
            events: self.events@,
            waiting: self.server.queue@,
            running: self.server.running,
            processing: self.server.processing,
            spawned: self.measurements.spawned_notifications as int,
            processed: self.measurements.processed_notifications as int,
            total_delay: self.measurements.cumulative_delay as int,
            now: self.now@,
        }
    }
}

impl Oast {
    pub open spec fn wf(&self) -> bool {
        consistent(self@)
    }

    /// A simulation of `part` that has not begun.
    pub fn new(part: OastPart) -> (o: Oast)
        ensures
            o.wf(),
            o@ == initial_state(part),
            work_conserving(o@),
    {
        let o = Oast {
            events: OastQueue::new(),
            measurements: Measurements::default(),
            server: SimulatedServer::default(),
            part,
            now: Ghost(0),
        };
        assert(count_processing(o@.events) == 0);
        o
    }

    /// Queues the events that begin the simulation: the first notification,
    /// and in the second part the server switched on at tick 0; in the first
    /// part the server is on from the start.
    pub fn start(&mut self)
        requires
            old(self).wf(),
            old(self)@.now == 0,
        ensures
            final(self).wf(),
            final(self)@ == start_state(old(self)@),
            old(self)@.waiting.len() == 0 ==> work_conserving(final(self)@),
            old(self)@.events.len() == 0 && !old(self)@.running ==> well_started(final(self)@),
    {
        proof {
            lemma_start(self@);
        }
        self.events.put(FIRST_NOTIFICATION_TICKS, Event::Notify);
        if self.part == OastPart::Part2 {
            self.events.put(0, Event::ServerOn);
        } else {
            self.server.running = true;
        }
    }

    /// Forgets what was measured so far; the rest of the state stays.
    pub fn reset_measurements(&mut self)
        requires
            old(self).wf(),
        ensures
            final(self).wf(),
            final(self)@ == (SimState { spawned: 0, processed: 0, total_delay: 0, ..old(self)@ }),
    {
        self.measurements = Measurements::default();
    }

    /// Tells whether a step with the random duration `sample` computes
    /// without overflow.
    pub fn has_room(&self, sample: u64) -> (r: bool)
        requires
            self.wf(),
        ensures
            r == has_room(self@, sample),
    {
        match self.events.peek() {
            None => true,
            Some((t, event)) => {
                let tick_fits = t <= u64::MAX - sample;
                match event {
                    Event::Notify => tick_fits && self.measurements.spawned_notifications < i64::MAX,
                    Event::ProcessingStart | Event::ServerOn => tick_fits,
                    Event::ServerOff => {
                        let others_fit = self.events.can_postpone(sample);
                        proof {
                            let s = self@.events;
                            if others_fit {
                                lemma_all_events_drop_first(s, postponable(sample));
                            } else if all_events(s.drop_first(), postponable(sample)) {
                                assert forall|i: int| 0 <= i < s.len() implies #[trigger] postponable(sample)(s[i]) by {
                                    if i > 0 {
                                        assert(s[i] == s.drop_first()[i - 1]);
                                    }
                                }
                            }
                        }
                        tick_fits && others_fit
                    },
                    Event::ProcessingEnd => {
                        proof {
                            lemma_processing_end_finds_notification(self@);
                        }
                        let n = self.server.queue.len();
                        let queued = self.server.queue[n - 1].time_queued;
                        assert(self@.waiting.last() == self@.waiting[n - 1]);
                        assert(self@.waiting[n - 1].time_queued <= self@.now);
                        assert(due_from(self@.now)(self@.events[0]));
                        let delay = t - queued;
                        self.measurements.processed_notifications < i64::MAX
                            && self.measurements.cumulative_delay <= u128::MAX - (delay as u128)
                    },
                }
            },
        }
    }

    /// Takes a step as `step` does and tells whether the event handled falls
    /// due after tick `finish`; `None`, changing nothing, when no event is
    /// pending.
    pub fn step_until(&mut self, sample: u64, finish: u64) -> (r: Option<bool>)
        requires
            old(self).wf(),
            has_room(old(self)@, sample),
        ensures
            final(self).wf(),
            final(self)@ == step_state(old(self)@, sample),
            old(self)@.events.len() == 0 ==> r is None,
            old(self)@.events.len() > 0 ==> r == Some(old(self)@.events[0].time > finish),
    {
        match self.step(sample) {
            None => None,
            Some((t, _)) => Some(t > finish),
        }
    }

    /// The event that falls due next, left pending.
    pub fn peek_event(&self) -> (r: Option<(u64, Event)>)
        requires
            self.wf(),
        ensures
            self@.events.len() == 0 ==> r is None,
            self@.events.len() > 0 ==> r == Some((self@.events[0].time, self@.events[0].event)),
    {
        self.events.peek()
    }

    /// What has been measured.
    pub fn measurements(&self) -> (m: &Measurements)
        ensures
            m.spawned_notifications == self@.spawned,
            m.processed_notifications == self@.processed,
            m.cumulative_delay == self@.total_delay,
    {
        &self.measurements
    }

    /// Whether the server is on.
    pub fn is_running(&self) -> (r: bool)
        ensures
            r == self@.running,
    {
        self.server.running
    }

    /// Whether the server is processing a notification.
    pub fn is_processing(&self) -> (r: bool)
        ensures
            r == self@.processing,
    {
        self.server.processing
    }

    /// The number of notifications waiting for the server.
    pub fn waiting_len(&self) -> (n: usize)
        ensures
            n == self@.waiting.len(),
    {
        self.server.queue.len()
    }

    /// The number of pending events.
    pub fn pending_len(&self) -> (n: usize)
        ensures
            n == self@.events.len(),
    {
        self.events.len()
    }

    /// Which part is simulated.
    pub fn part(&self) -> (p: OastPart)
        ensures
            p == self@.part,
    {
        self.part
    }

    fn try_start_processing(&mut self, now: u64)
        requires
            sorted_by_time(old(self)@.events),
            now == old(self)@.now,
        ensures
            sorted_by_time(final(self)@.events),
            final(self)@ == start_processing_if_idle(old(self)@),
    {
        if self.server.running {
            if self.server.queue.len() == 0 {
                // nothing waits
            } else {
                if !self.server.processing {
                    self.server.processing = true;
                    proof {
                        lemma_insert_sorted(
                            self.events@,
                            TimeEvent { time: now, event: Event::ProcessingStart },
                        );
                    }
                    self.events.put(now, Event::ProcessingStart);
                }
            }
        }
    }

    fn process_event(&mut self, t: u64, event: Event, sample: u64)
        requires
            can_handle(old(self)@, event, sample),
            t == old(self)@.now,
        ensures
            sorted_by_time(final(self)@.events),
            final(self)@ == handle(old(self)@, event, sample),
    {
        match event {
            Event::Notify => {
                self.measurements.spawned_notifications = self.measurements.spawned_notifications + 1;
                self.events.put(t + sample, Event::Notify);
                self.server.queue.push_back(Notification::new(t));
                self.try_start_processing(t);
            },
            Event::ProcessingStart => {
                self.events.put(t + sample, Event::ProcessingEnd);
            },
            Event::ProcessingEnd => {
                let notification = self.server.queue.pop_back().unwrap();
                self.server.processing = false;
                self.try_start_processing(t);
                self.measurements.processed_notifications = self.measurements.processed_notifications + 1;
                let delay = t - notification.time_queued;
                self.measurements.cumulative_delay = self.measurements.cumulative_delay + delay as u128;
            },
            Event::ServerOn => {
                self.server.running = true;
                let on_duration = sample;
                self.events.put(t + on_duration, Event::ServerOff);
                self.try_start_processing(t);
            },
            Event::ServerOff => {
                self.server.running = false;
                let off_duration = sample;
                let ghost before = self@.events;
                let ghost x = TimeEvent { time: (t + off_duration) as u64, event: Event::ServerOn };
                self.events.put(t + off_duration, Event::ServerOn);
                proof {
                    lemma_insert_all_events(before, x, postponable(off_duration));
                    assert forall|i: int|
                        0 <= i < self@.events.len() && (#[trigger] self@.events[i]).event.spec_is_processing()
                            implies self@.events[i].time + off_duration <= u64::MAX by {
                        assert(postponable(off_duration)(self@.events[i]));
                    }
                }
                self.events.postpone_processing(off_duration);
            },
        }
    }

    /// Takes the event that falls due first out of the queue and handles it,
    /// with `sample` the random duration that this event draws; returns the
    /// event and its tick, or `None`, changing nothing, when no event is
    /// pending.
    pub fn step(&mut self, sample: u64) -> (r: Option<(u64, Event)>)
        requires
            old(self).wf(),
            has_room(old(self)@, sample),
        ensures
            final(self).wf(),
            final(self)@ == step_state(old(self)@, sample),
            old(self)@.events.len() == 0 ==> r is None,
            old(self)@.events.len() > 0 ==> r == Some(
                (old(self)@.events[0].time, old(self)@.events[0].event),
            ),
            r matches Some((t, _)) ==> old(self)@.now <= t && final(self)@.now == t,
            work_conserving(old(self)@) ==> work_conserving(final(self)@),
            well_started(old(self)@) ==> well_started(final(self)@),
            old(self)@.spawned <= final(self)@.spawned,
            old(self)@.processed <= final(self)@.processed,
            old(self)@.total_delay <= final(self)@.total_delay,
    {
        proof {
            lemma_step(self@, sample);
        }
        match self.events.get() {
            None => None,
            Some((t, event)) => {
                self.now = Ghost(t);
                proof {
                    let v = old(self)@;
                    assert(self@ == (SimState { events: v.events.drop_first(), now: v.events[0].time, ..v }));
                    lemma_all_events_drop_first(v.events, due_from(v.now));
                    if event is ProcessingEnd {
                        lemma_processing_end_finds_notification(v);
                    }
                }
                self.process_event(t, event, sample);
                Some((t, event))
            },
        }
    }
}

} // verus!
