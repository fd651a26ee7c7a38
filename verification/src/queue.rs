use vstd::prelude::*;

use crate::event::{Event, TimeEvent};

verus! {

/// Events listed in the order in which they fall due.
pub open spec fn sorted_by_time(s: Seq<TimeEvent>) -> bool {
    forall|i: int, j: int| 0 <= i <= j < s.len() ==> s[i].time <= s[j].time
}

/// Every event of `s` satisfies `p`.
pub open spec fn all_events(s: Seq<TimeEvent>, p: spec_fn(TimeEvent) -> bool) -> bool {
    forall|i: int| 0 <= i < s.len() ==> #[trigger] p(s[i])
}

/// `s` with `x` placed after every event that falls due no later than `x`
/// and before every event that falls due after it.
pub open spec fn insert_by_time(s: Seq<TimeEvent>, x: TimeEvent) -> Seq<TimeEvent>
    decreases s.len(),
{
    if s.len() == 0 {
        seq![x]
    } else if x.time < s[0].time {
        seq![x] + s
    } else {
        seq![s[0]] + insert_by_time(s.drop_first(), x)
    }
}

/// The events of `s`, inserted one by one, from the first, into an empty queue.
pub open spec fn insert_all_by_time(s: Seq<TimeEvent>) -> Seq<TimeEvent>
    decreases s.len(),
{
    if s.len() == 0 {
        Seq::empty()
    } else {
        insert_by_time(insert_all_by_time(s.drop_last()), s.last())
    }
}

/// A processing event moved `ticks` later; any other event unchanged.
pub open spec fn postponed(e: TimeEvent, ticks: u64) -> TimeEvent {
    if e.event.spec_is_processing() {
        e.delayed(ticks)
    } else {
        e
    }
}

/// Every event of `s` passed through `postponed`, in the same order.
pub open spec fn postpone_all(s: Seq<TimeEvent>, ticks: u64) -> Seq<TimeEvent> {
    s.map_values(|e: TimeEvent| postponed(e, ticks))
}

/// One when `a` is `b`, zero otherwise.
pub open spec fn one_if_same(a: Event, b: Event) -> nat {
    if a == b { 1nat } else { 0nat }
}

/// How many events of `s` are `e`.
pub open spec fn count_event(s: Seq<TimeEvent>, e: Event) -> nat
    decreases s.len(),
{
    if s.len() == 0 {
        0
    } else {
        one_if_same(s[0].event, e) + count_event(s.drop_first(), e)
    }
}

/// The number of processing events in `s`.
pub open spec fn count_processing(s: Seq<TimeEvent>) -> nat {
    count_event(s, Event::ProcessingStart) + count_event(s, Event::ProcessingEnd)
}

/// Events that can be postponed by `ticks` without overflow.
pub open spec fn postponable(ticks: u64) -> spec_fn(TimeEvent) -> bool {
    |e: TimeEvent| e.event.spec_is_processing() ==> e.time + ticks <= u64::MAX
}

/// Placing `x` with `insert_by_time` is inserting it at the first position
/// whose event falls due strictly later.
pub proof fn lemma_insert_at(s: Seq<TimeEvent>, x: TimeEvent, k: int)
    requires
        0 <= k <= s.len(),
        forall|i: int| 0 <= i < k ==> s[i].time <= x.time,
        k < s.len() ==> x.time < s[k].time,
    ensures
        insert_by_time(s, x) == s.insert(k, x),
    decreases s.len(),
{
    if s.len() == 0 {
        assert(s.insert(k, x) =~= seq![x]);
    } else if x.time < s[0].time {
        assert(k == 0);
        assert(s.insert(k, x) =~= seq![x] + s);
    } else {
        assert(k > 0);
        lemma_insert_at(s.drop_first(), x, k - 1);
        assert(s.insert(k, x) =~= seq![s[0]] + s.drop_first().insert(k - 1, x));
    }
}

/// `insert_by_time` adds exactly `x` and keeps every other event.
pub proof fn lemma_insert_all_events(s: Seq<TimeEvent>, x: TimeEvent, p: spec_fn(TimeEvent) -> bool)
    ensures
        insert_by_time(s, x).len() == s.len() + 1,
        all_events(insert_by_time(s, x), p) <==> (all_events(s, p) && p(x)),
    decreases s.len(),
{
    let r = insert_by_time(s, x);
    if s.len() == 0 {
        assert(r[0] == x);
    } else if x.time < s[0].time {
        assert(r[0] == x);
        assert forall|i: int| 0 <= i < s.len() implies r[i + 1] == s[i] by {}
        if all_events(r, p) {
            assert forall|i: int| 0 <= i < s.len() implies #[trigger] p(s[i]) by {
                assert(p(r[i + 1]));
            }
        }
    } else {
        let t = s.drop_first();
        lemma_insert_all_events(t, x, p);
        let rt = insert_by_time(t, x);
        assert(r =~= seq![s[0]] + rt);
        assert forall|i: int| 0 <= i < rt.len() implies r[i + 1] == rt[i] by {}
        if all_events(r, p) {
            assert(p(r[0]));
            assert forall|i: int| 0 <= i < rt.len() implies #[trigger] p(rt[i]) by {
                assert(p(r[i + 1]));
            }
            assert forall|i: int| 0 <= i < s.len() implies #[trigger] p(s[i]) by {
                if i > 0 {
                    assert(s[i] == t[i - 1]);
                }
            }
        }
        if all_events(s, p) && p(x) {
            assert forall|i: int| 0 <= i < t.len() implies #[trigger] p(t[i]) by {
                assert(p(s[i + 1]));
            }
            assert forall|i: int| 0 <= i < r.len() implies #[trigger] p(r[i]) by {
                if i > 0 {
                    assert(r[i] == rt[i - 1]);
                }
            }
        }
    }
}

/// `insert_by_time` keeps a sorted sequence sorted.
pub proof fn lemma_insert_sorted(s: Seq<TimeEvent>, x: TimeEvent)
    requires
        sorted_by_time(s),
    ensures
        sorted_by_time(insert_by_time(s, x)),
    decreases s.len(),
{
    if s.len() == 0 {
    } else if x.time < s[0].time {
        let r = insert_by_time(s, x);
        assert forall|i: int, j: int| 0 <= i <= j < r.len() implies r[i].time <= r[j].time by {
            if i > 0 {
                assert(r[i] == s[i - 1] && r[j] == s[j - 1]);
            } else if j > 0 {
                assert(r[j] == s[j - 1]);
            }
        }
    } else {
        let t = s.drop_first();
        lemma_insert_sorted(t, x);
        let rt = insert_by_time(t, x);
        let r = insert_by_time(s, x);
        let lo = s[0].time;
        let p = |e: TimeEvent| lo <= e.time;
        assert forall|i: int| 0 <= i < t.len() implies #[trigger] p(t[i]) by {
            assert(t[i] == s[i + 1]);
        }
        lemma_insert_all_events(t, x, p);
        assert(r =~= seq![s[0]] + rt);
        assert forall|i: int, j: int| 0 <= i <= j < r.len() implies r[i].time <= r[j].time by {
            if i > 0 {
                assert(r[i] == rt[i - 1] && r[j] == rt[j - 1]);
            } else if j > 0 {
                assert(r[j] == rt[j - 1]);
                assert(p(rt[j - 1]));
            }
        }
    }
}

/// Inserting all events of `s` one by one yields a sorted sequence that holds
/// exactly the events of `s`.
pub proof fn lemma_insert_all(s: Seq<TimeEvent>, p: spec_fn(TimeEvent) -> bool)
    ensures
        sorted_by_time(insert_all_by_time(s)),
        insert_all_by_time(s).len() == s.len(),
        all_events(insert_all_by_time(s), p) <==> all_events(s, p),
        forall|e: Event| #[trigger] count_event(insert_all_by_time(s), e) == count_event(s, e),
        count_processing(insert_all_by_time(s)) == count_processing(s),
    decreases s.len(),
{
    if s.len() > 0 {
        let d = s.drop_last();
        lemma_insert_all(d, p);
        lemma_insert_sorted(insert_all_by_time(d), s.last());
        lemma_insert_all_events(insert_all_by_time(d), s.last(), p);
        lemma_count_insert(insert_all_by_time(d), s.last());
        lemma_count_drop_last(s);
        if all_events(s, p) {
            assert forall|i: int| 0 <= i < d.len() implies #[trigger] p(d[i]) by {
                assert(d[i] == s[i]);
            }
            assert(p(s[s.len() - 1]));
        }
        if all_events(d, p) && p(s.last()) {
            assert forall|i: int| 0 <= i < s.len() implies #[trigger] p(s[i]) by {
                if i < d.len() {
                    assert(d[i] == s[i]);
                }
            }
        }
        assert forall|e: Event| #[trigger] count_event(insert_all_by_time(s), e) == count_event(s, e) by {
            assert(count_event(insert_all_by_time(d), e) == count_event(d, e));
        }
    }
}

/// Inserting an event adds one to the count of its kind and leaves the other
/// counts.
pub proof fn lemma_count_insert(s: Seq<TimeEvent>, x: TimeEvent)
    ensures
        forall|e: Event| #[trigger] count_event(insert_by_time(s, x), e) == count_event(s, e) + one_if_same(x.event, e),
        count_processing(insert_by_time(s, x)) == count_processing(s) + (if x.event.spec_is_processing() { 1nat } else { 0nat }),
    decreases s.len(),
{
    let r = insert_by_time(s, x);
    if s.len() == 0 {
        assert(r.drop_first() =~= Seq::<TimeEvent>::empty());
        assert(r[0] == x);
        assert forall|e: Event| #[trigger] count_event(r, e) == count_event(s, e) + one_if_same(x.event, e) by {
            assert(count_event(r.drop_first(), e) == 0);
        }
    } else if x.time < s[0].time {
        assert(r.drop_first() =~= s);
        assert(r[0] == x);
        assert forall|e: Event| #[trigger] count_event(r, e) == count_event(s, e) + one_if_same(x.event, e) by {
            assert(count_event(r, e) == one_if_same(x.event, e) + count_event(r.drop_first(), e));
        }
    } else {
        lemma_count_insert(s.drop_first(), x);
        assert(r.drop_first() =~= insert_by_time(s.drop_first(), x));
        assert(r[0] == s[0]);
        assert forall|e: Event| #[trigger] count_event(r, e) == count_event(s, e) + one_if_same(x.event, e) by {
            assert(count_event(r, e) == one_if_same(s[0].event, e) + count_event(r.drop_first(), e));
            assert(count_event(s.drop_first(), e) + one_if_same(x.event, e) == count_event(insert_by_time(s.drop_first(), x), e));
        }
    }
    assert(count_event(r, Event::ProcessingStart) == count_event(s, Event::ProcessingStart) + one_if_same(x.event, Event::ProcessingStart));
    assert(count_event(r, Event::ProcessingEnd) == count_event(s, Event::ProcessingEnd) + one_if_same(x.event, Event::ProcessingEnd));
}

/// The counts of events can also be taken from the back.
pub proof fn lemma_count_drop_last(s: Seq<TimeEvent>)
    requires
        s.len() > 0,
    ensures
        forall|e: Event| #[trigger] count_event(s, e) == count_event(s.drop_last(), e) + one_if_same(s.last().event, e),
    decreases s.len(),
{
    assert forall|e: Event| #[trigger] count_event(s, e) == count_event(s.drop_last(), e) + one_if_same(s.last().event, e) by {
        if s.len() == 1 {
            assert(s.drop_last() =~= Seq::<TimeEvent>::empty());
            assert(s.drop_first() =~= Seq::<TimeEvent>::empty());
            assert(count_event(s.drop_first(), e) == 0);
        } else {
            lemma_count_drop_last(s.drop_first());
            assert(s.drop_first().drop_last() =~= s.drop_last().drop_first());
            assert(count_event(s.drop_first(), e) == count_event(s.drop_first().drop_last(), e) + one_if_same(s.last().event, e));
            assert(count_event(s.drop_last(), e) == one_if_same(s[0].event, e) + count_event(s.drop_last().drop_first(), e));
        }
    }
}

/// Postponing processing events changes no event's kind.
pub proof fn lemma_count_postpone(s: Seq<TimeEvent>, ticks: u64)
    ensures
        forall|e: Event| #[trigger] count_event(postpone_all(s, ticks), e) == count_event(s, e),
        count_processing(postpone_all(s, ticks)) == count_processing(s),
        postpone_all(s, ticks).len() == s.len(),
    decreases s.len(),
{
    if s.len() > 0 {
        lemma_count_postpone(s.drop_first(), ticks);
        assert(postpone_all(s, ticks).drop_first() =~= postpone_all(s.drop_first(), ticks));
        assert forall|e: Event| #[trigger] count_event(postpone_all(s, ticks), e) == count_event(s, e) by {
            assert(postpone_all(s, ticks)[0].event == s[0].event);
            assert(count_event(postpone_all(s.drop_first(), ticks), e) == count_event(s.drop_first(), e));
        }
    }
    assert(count_event(postpone_all(s, ticks), Event::ProcessingStart) == count_event(s, Event::ProcessingStart));
    assert(count_event(postpone_all(s, ticks), Event::ProcessingEnd) == count_event(s, Event::ProcessingEnd));
}

/// Where `insert_by_time` places `x`.
pub proof fn lemma_insert_position(s: Seq<TimeEvent>, x: TimeEvent) -> (k: int)
    ensures
        0 <= k <= s.len(),
        insert_by_time(s, x) == s.insert(k, x),
    decreases s.len(),
{
    if s.len() == 0 {
        assert(s.insert(0, x) =~= seq![x]);
        0
    } else if x.time < s[0].time {
        assert(s.insert(0, x) =~= seq![x] + s);
        0
    } else {
        let k = lemma_insert_position(s.drop_first(), x);
        assert(s.insert(k + 1, x) =~= seq![s[0]] + s.drop_first().insert(k, x));
        k + 1
    }
}

/// Putting an event adds exactly that event: no other event is lost or
/// invented.
pub proof fn lemma_put_keeps_events(s: Seq<TimeEvent>, x: TimeEvent)
    ensures
        insert_by_time(s, x).to_multiset() == s.to_multiset().insert(x),
{
    broadcast use vstd::seq_lib::group_to_multiset_ensures;

    let k = lemma_insert_position(s, x);
}

/// Taking the first event removes exactly that event.
pub proof fn lemma_get_keeps_events(s: Seq<TimeEvent>)
    requires
        s.len() > 0,
    ensures
        s.drop_first().to_multiset() == s.to_multiset().remove(s[0]),
{
    broadcast use vstd::seq_lib::group_to_multiset_ensures;

    assert(s.remove(0) =~= s.drop_first());
}

/// Queuing events anew keeps exactly the events queued.
pub proof fn lemma_insert_all_keeps_events(s: Seq<TimeEvent>)
    ensures
        insert_all_by_time(s).to_multiset() == s.to_multiset(),
    decreases s.len(),
{
    broadcast use vstd::seq_lib::group_to_multiset_ensures;

    if s.len() > 0 {
        lemma_insert_all_keeps_events(s.drop_last());
        lemma_put_keeps_events(insert_all_by_time(s.drop_last()), s.last());
        assert(s.drop_last().push(s.last()) =~= s);
    }
}

/// The first event of a sorted queue falls due no later than any other.
pub proof fn lemma_first_is_earliest(s: Seq<TimeEvent>)
    requires
        sorted_by_time(s),
        s.len() > 0,
    ensures
        forall|i: int| 0 <= i < s.len() ==> s[0].time <= #[trigger] s[i].time,
{
}

/// Putting the events of `puts`, first to last, into an empty queue builds
/// `insert_all_by_time(puts)` (each `put` inserts by time). Getting from it
/// until it is empty then returns every event put exactly once, earliest
/// first: the `j`-th get returns element `j` and leaves the rest from `j + 1`,
/// and after as many gets as puts the queue is empty.
pub proof fn lemma_puts_then_gets(puts: Seq<TimeEvent>)
    ensures
        insert_all_by_time(puts).len() == puts.len(),
        insert_all_by_time(puts).to_multiset() == puts.to_multiset(),
        sorted_by_time(insert_all_by_time(puts)),
        forall|j: int|
            0 <= j < puts.len() ==> (#[trigger] insert_all_by_time(puts).skip(j))[0]
                == insert_all_by_time(puts)[j] && insert_all_by_time(puts).skip(j).drop_first()
                == insert_all_by_time(puts).skip(j + 1),
        insert_all_by_time(puts).skip(puts.len() as int).len() == 0,
{
    let q = insert_all_by_time(puts);
    lemma_insert_all(puts, |e: TimeEvent| true);
    lemma_insert_all_keeps_events(puts);
    assert forall|j: int| 0 <= j < puts.len() implies (#[trigger] q.skip(j))[0] == q[j]
        && q.skip(j).drop_first() == q.skip(j + 1) by {
        assert(q.skip(j).drop_first() =~= q.skip(j + 1));
    }
}

/// `s` with every start or end of processing moved `ticks` later and every
/// other event left as it is, in the same order.
pub open spec fn shifted_by(s: Seq<TimeEvent>, ticks: u64) -> Seq<TimeEvent> {
    Seq::new(
        s.len(),
        |i: int|
            if s[i].event == Event::ProcessingStart || s[i].event == Event::ProcessingEnd {
                TimeEvent { time: (s[i].time + ticks) as u64, event: s[i].event }
            } else {
                s[i]
            },
    )
}

/// Postponing the processing events of `s` by `ticks` and queuing all events
/// anew yields exactly the events of `s`, each start or end of processing
/// `ticks` later (with no wrap-around) and every other event unchanged.
pub proof fn lemma_postpone_law(s: Seq<TimeEvent>, ticks: u64)
    requires
        forall|i: int|
            0 <= i < s.len() && (#[trigger] s[i]).event.spec_is_processing() ==> s[i].time + ticks
                <= u64::MAX,
    ensures
        postpone_all(s, ticks) == shifted_by(s, ticks),
        insert_all_by_time(postpone_all(s, ticks)).to_multiset() == shifted_by(s, ticks).to_multiset(),
        insert_all_by_time(postpone_all(s, ticks)).len() == s.len(),
        forall|i: int|
            0 <= i < s.len() ==> (#[trigger] shifted_by(s, ticks)[i]).event == s[i].event && (if s[i].event
                == Event::ProcessingStart || s[i].event == Event::ProcessingEnd {
                shifted_by(s, ticks)[i].time == s[i].time + ticks
            } else {
                shifted_by(s, ticks)[i].time == s[i].time
            }),
{
    assert(postpone_all(s, ticks) =~= shifted_by(s, ticks));
    lemma_insert_all_keeps_events(postpone_all(s, ticks));
    lemma_insert_all(postpone_all(s, ticks), |e: TimeEvent| true);
}

/// Shifting commutes with inserting an event that is not processing.
pub proof fn lemma_shift_insert(s: Seq<TimeEvent>, k: int, x: TimeEvent, ticks: u64)
    requires
        0 <= k <= s.len(),
        !x.event.spec_is_processing(),
    ensures
        shifted_by(s.insert(k, x), ticks) == shifted_by(s, ticks).insert(k, x),
{
    assert(shifted_by(s.insert(k, x), ticks) =~= shifted_by(s, ticks).insert(k, x));
}

/// The event queue of the simulation: events ordered by the tick at which
/// they fall due, earliest first; events due at the same tick leave in the
/// order in which they were put.
pub struct OastQueue {
    items: Vec<TimeEvent>,
}

impl View for OastQueue {
    type V = Seq<TimeEvent>;

    closed spec fn view(&self) -> Seq<TimeEvent> {
        self.items@
    }
}

impl OastQueue {
    /// The queue lists its events in the order in which they fall due.
    pub open spec fn wf(&self) -> bool {
        sorted_by_time(self@)
    }

    /// An empty queue.
    pub fn new() -> (q: OastQueue)
        ensures
            q.wf(),
            q@ == Seq::<TimeEvent>::empty(),
    {
        OastQueue { items: Vec::new() }
    }

    /// The number of queued events.
    pub fn len(&self) -> (n: usize)
        ensures
            n == self@.len(),
    {
        self.items.len()
    }

    /// Adds `event`, due at tick `time`, behind every queued event that is due
    /// no later.
    pub fn put(&mut self, time: u64, event: Event)
        requires
            old(self).wf(),
        ensures
            final(self).wf(),
            final(self)@ == insert_by_time(old(self)@, TimeEvent { time, event }),
            final(self)@.len() == old(self)@.len() + 1,
    {
        let x = TimeEvent { time, event };
        let n = self.items.len();
        let mut k: usize = 0;
        while k < n && self.items[k].time <= time
            invariant
                n == self.items@.len(),
                self.items@ == old(self)@,
                0 <= k <= n,
                forall|i: int| 0 <= i < k ==> self.items@[i].time <= time,
            decreases n - k,
        {
            k = k + 1;
        }
        proof {
            lemma_insert_at(self.items@, x, k as int);
            lemma_insert_sorted(self.items@, x);
        }
        self.items.insert(k, x);
    }

    /// Removes and returns the event that falls due first; `None` when the
    /// queue is empty.
    pub fn get(&mut self) -> (r: Option<(u64, Event)>)
        requires
            old(self).wf(),
        ensures
            final(self).wf(),
            old(self)@.len() == 0 ==> r is None && final(self)@ == old(self)@,
            old(self)@.len() > 0 ==> r == Some((old(self)@[0].time, old(self)@[0].event))
                && final(self)@ == old(self)@.drop_first(),
            r matches Some((t, _)) ==> forall|i: int|
                0 <= i < old(self)@.len() ==> t <= #[trigger] old(self)@[i].time,
    {
        if self.items.len() == 0 {
            None
        } else {
            let e = self.items.remove(0);
            assert(self.items@ =~= old(self)@.drop_first());
            Some((e.time, e.event))
        }
    }

    /// The event that falls due first, left in the queue.
    pub fn peek(&self) -> (r: Option<(u64, Event)>)
        requires
            self.wf(),
        ensures
            r matches Some((t, _)) ==> forall|i: int|
                0 <= i < self@.len() ==> t <= #[trigger] self@[i].time,
            self@.len() == 0 ==> r is None,
            self@.len() > 0 ==> r == Some((self@[0].time, self@[0].event)),
    {
        if self.items.len() == 0 {
            None
        } else {
            let e = self.items[0];
            Some((e.time, e.event))
        }
    }

    /// The tick of the event that falls due last.
    pub fn latest_time(&self) -> (r: Option<u64>)
        requires
            self.wf(),
        ensures
            self@.len() == 0 ==> r is None,
            self@.len() > 0 ==> r == Some(self@.last().time),
            r matches Some(t) ==> forall|i: int| 0 <= i < self@.len() ==> self@[i].time <= t,
    {
        let n = self.items.len();
        if n == 0 {
            None
        } else {
            Some(self.items[n - 1].time)
        }
    }

    /// Tells whether every processing event can be moved `ticks` later
    /// without overflow.
    pub fn can_postpone(&self, ticks: u64) -> (r: bool)
        ensures
            r == all_events(self@, postponable(ticks)),
    {
        let n = self.items.len();
        let mut i: usize = 0;
        while i < n
            invariant
                n == self@.len(),
                0 <= i <= n,
                forall|j: int| 0 <= j < i ==> #[trigger] postponable(ticks)(self@[j]),
            decreases n - i,
        {
            let e = self.items[i];
            if e.event.is_processing() && e.time > u64::MAX - ticks {
                assert(!postponable(ticks)(self@[i as int]));
                return false;
            }
            i = i + 1;
        }
        true
    }

    /// Moves every processing event `ticks` later and leaves the others where
    /// they are; the events are then queued anew, in their former order.
    pub fn postpone_processing(&mut self, ticks: u64)
        requires
            old(self).wf(),
            forall|i: int|
                0 <= i < old(self)@.len() && (#[trigger] old(self)@[i]).event.spec_is_processing()
                    ==> old(self)@[i].time + ticks <= u64::MAX,
        ensures
            final(self).wf(),
            final(self)@ == insert_all_by_time(postpone_all(old(self)@, ticks)),
            final(self)@.len() == old(self)@.len(),
            final(self)@.to_multiset() == shifted_by(old(self)@, ticks).to_multiset(),
    {
        proof {
            lemma_postpone_law(self@, ticks);
        }
        let n = self.items.len();
        let mut moved: Vec<TimeEvent> = Vec::new();
        let mut i: usize = 0;
        while i < n
            invariant
                n == self.items@.len(),
                self.items@ == old(self)@,
                0 <= i <= n,
                moved@ == postpone_all(old(self)@, ticks).take(i as int),
                forall|j: int|
                    0 <= j < old(self)@.len() && (#[trigger] old(self)@[j]).event.spec_is_processing()
                        ==> old(self)@[j].time + ticks <= u64::MAX,
            decreases n - i,
        {
            let e = self.items[i];
            let m = if e.event.is_processing() {
                e.add_ticks(ticks)
            } else {
                e.add_ticks(0)
            };
            moved.push(m);
            i = i + 1;
            assert(moved@ =~= postpone_all(old(self)@, ticks).take(i as int));
        }
        assert(moved@ =~= postpone_all(old(self)@, ticks));
        self.items.clear();
        let mut j: usize = 0;
        while j < n
            invariant
                n == moved@.len(),
                0 <= j <= n,
                self.wf(),
                self@ == insert_all_by_time(moved@.take(j as int)),
            decreases n - j,
        {
            let e = moved[j];
            assert(moved@.take(j + 1).drop_last() =~= moved@.take(j as int));
            self.put(e.time, e.event);
            j = j + 1;
        }
        assert(moved@.take(n as int) =~= moved@);
    }
}

} // verus!
