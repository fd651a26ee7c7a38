use oast::event::{Event, OastPart};
use oast::sim::{Oast, FIRST_NOTIFICATION_TICKS};

#[test]
fn new_simulation_has_not_begun() {
    let mut o = Oast::new(OastPart::Part2);
    assert_eq!(o.part(), OastPart::Part2);
    assert!(!o.is_running());
    assert!(!o.is_processing());
    assert_eq!(o.pending_len(), 0);
    assert_eq!(o.waiting_len(), 0);
    assert_eq!(o.peek_event(), None);
    assert_eq!(o.step(5), None);
    assert_eq!(o.measurements().spawned_notifications, 0);
}

#[test]
fn part1_starts_with_server_on() {
    let mut o = Oast::new(OastPart::Part1);
    o.start();
    assert!(o.is_running());
    assert_eq!(o.pending_len(), 1);
    assert_eq!(o.peek_event(), Some((FIRST_NOTIFICATION_TICKS, Event::Notify)));
}

#[test]
fn part2_starts_by_switching_the_server_on() {
    let mut o = Oast::new(OastPart::Part2);
    o.start();
    assert!(!o.is_running());
    assert_eq!(o.pending_len(), 2);
    assert_eq!(o.peek_event(), Some((0, Event::ServerOn)));
    assert_eq!(o.step(1000), Some((0, Event::ServerOn)));
    assert!(o.is_running());
    assert_eq!(o.peek_event(), Some((1000, Event::ServerOff)));
}

#[test]
fn one_notification_is_measured() {
    let mut o = Oast::new(OastPart::Part1);
    o.start();
    // arrival at 10000; next arrival 500 ticks later
    assert_eq!(o.step(500), Some((10000, Event::Notify)));
    assert_eq!(o.measurements().spawned_notifications, 1);
    assert_eq!(o.waiting_len(), 1);
    assert!(o.is_processing());
    // processing starts at once and lasts 200 ticks
    assert_eq!(o.step(200), Some((10000, Event::ProcessingStart)));
    assert_eq!(o.peek_event(), Some((10200, Event::ProcessingEnd)));
    assert_eq!(o.step(0), Some((10200, Event::ProcessingEnd)));
    assert!(!o.is_processing());
    assert_eq!(o.waiting_len(), 0);
    let m = o.measurements();
    assert_eq!(m.processed_notifications, 1);
    assert_eq!(m.cumulative_delay, 200);
    assert_eq!(o.peek_event(), Some((10500, Event::Notify)));
}

#[test]
fn latest_notification_is_processed_first() {
    let mut o = Oast::new(OastPart::Part1);
    o.start();
    // arrivals at 10000 and 10100; processing of the first lasts 1000 ticks
    assert_eq!(o.step(100), Some((10000, Event::Notify)));
    assert_eq!(o.step(1000), Some((10000, Event::ProcessingStart)));
    assert_eq!(o.step(100000), Some((10100, Event::Notify)));
    assert_eq!(o.waiting_len(), 2);
    assert_eq!(o.step(0), Some((11000, Event::ProcessingEnd)));
    // the notification that arrived last leaves: 11000 - 10100
    assert_eq!(o.measurements().cumulative_delay, 900);
    assert_eq!(o.waiting_len(), 1);
    assert!(o.is_processing());
    assert_eq!(o.peek_event(), Some((11000, Event::ProcessingStart)));
}

#[test]
fn switching_off_postpones_processing() {
    let mut o = Oast::new(OastPart::Part2);
    o.start();
    assert_eq!(o.step(20000), Some((0, Event::ServerOn)));
    assert_eq!(o.step(100000), Some((10000, Event::Notify)));
    assert_eq!(o.step(30000), Some((10000, Event::ProcessingStart)));
    // processing would end at 40000; the server goes off at 20000 for 5000 ticks
    assert_eq!(o.step(5000), Some((20000, Event::ServerOff)));
    assert!(!o.is_running());
    assert_eq!(o.step(1000), Some((25000, Event::ServerOn)));
    assert_eq!(o.peek_event(), Some((26000, Event::ServerOff)));
    assert_eq!(o.step(7000), Some((26000, Event::ServerOff)));
    // postponed by 5000, then by 7000
    assert_eq!(o.step(100000), Some((33000, Event::ServerOn)));
    assert_eq!(o.step(100000), Some((52000, Event::ProcessingEnd)));
    assert_eq!(o.measurements().cumulative_delay, 42000);
}

#[test]
fn notification_waits_while_server_is_off() {
    let mut o = Oast::new(OastPart::Part2);
    o.start();
    assert_eq!(o.step(100), Some((0, Event::ServerOn)));
    assert_eq!(o.step(50000), Some((100, Event::ServerOff)));
    assert_eq!(o.step(50000), Some((10000, Event::Notify)));
    assert_eq!(o.waiting_len(), 1);
    assert!(!o.is_processing());
    assert_eq!(o.step(100000), Some((50100, Event::ServerOn)));
    assert!(o.is_processing());
    assert_eq!(o.peek_event(), Some((50100, Event::ProcessingStart)));
}

#[test]
fn reset_forgets_measurements_only() {
    let mut o = Oast::new(OastPart::Part1);
    o.start();
    o.step(500);
    o.reset_measurements();
    let m = o.measurements();
    assert_eq!(m.spawned_notifications, 0);
    assert_eq!(m.processed_notifications, 0);
    assert_eq!(m.cumulative_delay, 0);
    assert_eq!(o.waiting_len(), 1);
    assert!(o.is_processing());
}

#[test]
fn overflowing_step_is_refused() {
    let mut o = Oast::new(OastPart::Part1);
    o.start();
    assert!(o.has_room(1000));
    assert!(!o.has_room(u64::MAX));
    assert!(o.has_room(u64::MAX - FIRST_NOTIFICATION_TICKS));
}

#[test]
fn part1_server_never_idles_and_stays_on() {
    let mut o = Oast::new(OastPart::Part1);
    o.start();
    let samples: [u64; 7] = [300, 1200, 50, 999, 7, 400, 2500];
    let mut last = 0;
    for i in 0..500 {
        let sample = samples[i % samples.len()];
        assert!(o.has_room(sample));
        let (t, _) = o.step(sample).unwrap();
        assert!(t >= last);
        last = t;
        assert!(o.is_running());
        if o.waiting_len() > 0 {
            assert!(o.is_processing());
        }
    }
    let m = o.measurements();
    assert!(m.spawned_notifications >= m.processed_notifications);
}

#[test]
fn part2_server_never_idles_while_on() {
    let mut o = Oast::new(OastPart::Part2);
    o.start();
    let samples: [u64; 5] = [3000, 120, 4500, 77, 900];
    let mut last = 0;
    for i in 0..1000 {
        let sample = samples[i % samples.len()];
        let (t, _) = o.step(sample).unwrap();
        assert!(t >= last);
        last = t;
        if o.is_running() && o.waiting_len() > 0 {
            assert!(o.is_processing());
        }
        if o.is_processing() {
            assert!(o.waiting_len() > 0);
        }
    }
}

#[test]
fn step_until_reports_passing_the_finish() {
    let mut o = Oast::new(OastPart::Part1);
    o.start();
    assert_eq!(o.step_until(500, 10000), Some(false));
    assert_eq!(o.step_until(200, 10000), Some(false));
    assert_eq!(o.step_until(0, 10000), Some(true));
    let mut empty = Oast::new(OastPart::Part1);
    assert_eq!(empty.step_until(0, 0), None);
}

#[test]
fn room_is_asked_only_for_the_next_event() {
    let mut o = Oast::new(OastPart::Part2);
    o.start();
    // the switch-on at tick 0 can draw almost any duration
    assert!(o.has_room(u64::MAX));
    assert!(o.has_room(u64::MAX - 1));
    assert_eq!(o.step(u64::MAX - 1), Some((0, Event::ServerOn)));
    // the arrival at 10000 cannot draw a duration past the last tick
    assert!(!o.has_room(u64::MAX - 9999));
    assert!(o.has_room(u64::MAX - 10000));
}

#[test]
fn exactly_one_arrival_and_one_switch_stay_pending() {
    let mut o = Oast::new(OastPart::Part2);
    o.start();
    let samples: [u64; 6] = [2500, 90, 4000, 610, 33, 1700];
    for i in 0..600 {
        let sample = samples[i % samples.len()];
        o.step(sample).unwrap();
        // one arrival, one switch, and at most one processing event
        let pending = o.pending_len();
        let processing = if o.is_processing() { 1 } else { 0 };
        assert_eq!(pending, 2 + processing);
    }
}
