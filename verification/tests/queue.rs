use oast::event::{DurationKind, Event, TimeEvent};
use oast::queue::OastQueue;

#[test]
fn new_queue_is_empty() {
    let mut q = OastQueue::new();
    assert_eq!(q.len(), 0);
    assert_eq!(q.peek(), None);
    assert_eq!(q.get(), None);
    assert_eq!(q.latest_time(), None);
}

#[test]
fn get_returns_events_in_time_order() {
    let mut q = OastQueue::new();
    q.put(30, Event::ServerOff);
    q.put(10, Event::Notify);
    q.put(20, Event::ProcessingEnd);
    q.put(5, Event::ServerOn);
    assert_eq!(q.len(), 4);
    assert_eq!(q.latest_time(), Some(30));
    assert_eq!(q.get(), Some((5, Event::ServerOn)));
    assert_eq!(q.get(), Some((10, Event::Notify)));
    assert_eq!(q.get(), Some((20, Event::ProcessingEnd)));
    assert_eq!(q.get(), Some((30, Event::ServerOff)));
    assert_eq!(q.get(), None);
}

#[test]
fn events_due_together_leave_in_order_put() {
    let mut q = OastQueue::new();
    q.put(7, Event::Notify);
    q.put(7, Event::ProcessingStart);
    q.put(3, Event::ServerOn);
    q.put(7, Event::ServerOff);
    assert_eq!(q.get(), Some((3, Event::ServerOn)));
    assert_eq!(q.get(), Some((7, Event::Notify)));
    assert_eq!(q.get(), Some((7, Event::ProcessingStart)));
    assert_eq!(q.get(), Some((7, Event::ServerOff)));
}

#[test]
fn peek_leaves_the_event() {
    let mut q = OastQueue::new();
    q.put(4, Event::Notify);
    q.put(2, Event::ServerOn);
    assert_eq!(q.peek(), Some((2, Event::ServerOn)));
    assert_eq!(q.len(), 2);
    assert_eq!(q.get(), Some((2, Event::ServerOn)));
    assert_eq!(q.peek(), Some((4, Event::Notify)));
}

#[test]
fn postponing_moves_only_processing_events() {
    let mut q = OastQueue::new();
    q.put(100, Event::ProcessingEnd);
    q.put(150, Event::Notify);
    q.put(120, Event::ServerOn);
    q.postpone_processing(40);
    assert_eq!(q.len(), 3);
    assert_eq!(q.get(), Some((120, Event::ServerOn)));
    assert_eq!(q.get(), Some((140, Event::ProcessingEnd)));
    assert_eq!(q.get(), Some((150, Event::Notify)));
}

#[test]
fn postponing_by_zero_keeps_the_queue() {
    let mut q = OastQueue::new();
    q.put(1, Event::ProcessingStart);
    q.put(2, Event::Notify);
    q.postpone_processing(0);
    assert_eq!(q.get(), Some((1, Event::ProcessingStart)));
    assert_eq!(q.get(), Some((2, Event::Notify)));
}

#[test]
fn add_ticks_moves_the_event() {
    let e = TimeEvent { time: 1000, event: Event::ProcessingStart };
    let moved = e.add_ticks(250);
    assert_eq!(moved, TimeEvent { time: 1250, event: Event::ProcessingStart });
    assert_eq!(e.add_ticks(0), e);
}

#[test]
fn each_event_draws_its_own_duration() {
    assert_eq!(Event::Notify.duration_kind(), Some(DurationKind::NotificationInterval));
    assert_eq!(Event::ProcessingStart.duration_kind(), Some(DurationKind::ProcessingTime));
    assert_eq!(Event::ProcessingEnd.duration_kind(), None);
    assert_eq!(Event::ServerOn.duration_kind(), Some(DurationKind::OnPeriod));
    assert_eq!(Event::ServerOff.duration_kind(), Some(DurationKind::OffPeriod));
    assert!(Event::ProcessingStart.is_processing());
    assert!(Event::ProcessingEnd.is_processing());
    assert!(!Event::Notify.is_processing());
    assert!(!Event::ServerOff.is_processing());
}

#[test]
fn puts_then_gets_return_every_event_earliest_first() {
    let puts: [(u64, Event); 6] = [
        (40, Event::Notify),
        (10, Event::ServerOff),
        (40, Event::ProcessingEnd),
        (0, Event::ServerOn),
        (25, Event::ProcessingStart),
        (10, Event::Notify),
    ];
    let mut q = OastQueue::new();
    for (t, e) in puts.iter() {
        q.put(*t, *e);
    }
    let mut got: Vec<(u64, Event)> = Vec::new();
    while let Some(x) = q.get() {
        got.push(x);
    }
    assert_eq!(
        got,
        vec![
            (0, Event::ServerOn),
            (10, Event::ServerOff),
            (10, Event::Notify),
            (25, Event::ProcessingStart),
            (40, Event::Notify),
            (40, Event::ProcessingEnd),
        ]
    );
    assert_eq!(q.get(), None);
}

#[test]
fn processing_events_are_found_when_they_cannot_move() {
    let mut q = OastQueue::new();
    q.put(u64::MAX - 5, Event::Notify);
    q.put(100, Event::ProcessingEnd);
    assert!(q.can_postpone(u64::MAX - 100));
    assert!(!q.can_postpone(u64::MAX - 99));
    let mut r = OastQueue::new();
    r.put(u64::MAX, Event::ServerOn);
    assert!(r.can_postpone(u64::MAX));
}
