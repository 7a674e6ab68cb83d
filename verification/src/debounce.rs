//! Debouncing watch events: an event is dropped when it is about the same
//! path as the last event let through and comes less than a window of time
//! after it. Times are nanoseconds since the Unix epoch.
use vstd::prelude::*;
use crate::error::Error;
use crate::paths::{paths_equal, same_path};
use crate::watch::{event_path, WatchEvent};

verus! {

/// The time an event is dated by: the modification time its entry carries,
/// or else `now`, the time at which it was taken from the stream.
pub open spec fn event_time(e: WatchEvent, now: i128) -> i128 {
    match e {
        WatchEvent::Created(entry) => match entry.metadata.modified {
            Some(t) => t,
            None => now,
        },
        WatchEvent::Modified(entry) => match entry.metadata.modified {
            Some(t) => t,
            None => now,
        },
        WatchEvent::Removed(_) => now,
    }
}

/// Time from `from` to `to`, or zero when `to` comes first.
pub open spec fn elapsed(from: i128, to: i128) -> int {
    if to >= from {
        to - from
    } else {
        0
    }
}

/// Whether an event about `path` dated `t` gets through, given the path and
/// date of the last event let through (if any).
pub open spec fn lets_through(last: Option<(Seq<char>, i128)>, path: Seq<char>, t: i128, window: u128) -> bool {
    match last {
        None => true,
        Some((last_path, last_time)) => !same_path(last_path, path) || elapsed(last_time, t) >= window,
    }
}

/// An item taken from a watch stream, with the clock reading at the moment
/// it was taken.
pub struct Arrival {
    pub event: std::result::Result<WatchEvent, Error>,
    pub now: i128,
}

/// Whether an arrival gets through: errors always do.
pub open spec fn arrival_passes(last: Option<(Seq<char>, i128)>, a: Arrival, window: u128) -> bool {
    match a.event {
        Ok(e) => lets_through(last, event_path(e), event_time(e, a.now), window),
        Err(_) => true,
    }
}

/// The last event let through after an arrival.
pub open spec fn after_arrival(last: Option<(Seq<char>, i128)>, a: Arrival, window: u128) -> Option<(Seq<char>, i128)> {
    match a.event {
        Ok(e) => if lets_through(last, event_path(e), event_time(e, a.now), window) {
            Some((event_path(e), event_time(e, a.now)))
        } else {
            last
        },
        Err(_) => last,
    }
}

/// The last event let through once all of `arrivals` went by.
pub open spec fn debounce_state(arrivals: Seq<Arrival>, window: u128) -> Option<(Seq<char>, i128)>
    decreases arrivals.len(),
{
    if arrivals.len() == 0 {
        None
    } else {
        after_arrival(debounce_state(arrivals.drop_last(), window), arrivals.last(), window)
    }
}

/// The arrivals that get through, in order.
pub open spec fn debounced(arrivals: Seq<Arrival>, window: u128) -> Seq<Arrival>
    decreases arrivals.len(),
{
    if arrivals.len() == 0 {
        seq![]
    } else {
        let before = debounced(arrivals.drop_last(), window);
        if arrival_passes(debounce_state(arrivals.drop_last(), window), arrivals.last(), window) {
            before.push(arrivals.last())
        } else {
            before
        }
    }
}

/// The events of some arrivals.
pub open spec fn events_of(arrivals: Seq<Arrival>) -> Seq<std::result::Result<WatchEvent, Error>> {
    arrivals.map_values(|a: Arrival| a.event)
}

/// The state of a debounced stream: the window, and the path and date of the
/// last event let through.
pub struct Debouncer {
    window: u128,
    last: Option<(String, i128)>,
}

impl Debouncer {
    /// The path and date of the last event let through.
    pub closed spec fn last_seen(&self) -> Option<(Seq<char>, i128)> {
        match self.last {
            Some((p, t)) => Some((p@, t)),
            None => None,
        }
    }

    /// The window within which repeats of a path are dropped.
    pub closed spec fn window(&self) -> u128 {
        self.window
    }

    /// A debouncer that has let nothing through yet.
    pub fn new(window: u128) -> (d: Debouncer)
        ensures
            d.last_seen() is None,
            d.window() == window,
    {
        Debouncer { window, last: None }
    }

    /// Whether `event`, taken from the stream at time `now`, gets through;
    /// when it does, it becomes the last event let through.
    pub fn accept(&mut self, event: &WatchEvent, now: i128) -> (pass: bool)
        ensures
            final(self).window() == old(self).window(),
            pass == lets_through(old(self).last_seen(), event_path(*event), event_time(*event, now), old(self).window()),
            old(self).last_seen() is None ==> pass,
            old(self).last_seen() matches Some((p, t)) ==> (pass <==> (!same_path(p, event_path(*event)) || (if event_time(
                *event,
                now,
            ) >= t {
                event_time(*event, now) - t
            } else {
                0
            }) >= old(self).window())),
            final(self).last_seen() == if pass {
                Some((event_path(*event), event_time(*event, now)))
            } else {
                old(self).last_seen()
            },
    {
        let stamp: i128 = match event {
            WatchEvent::Created(entry) => match entry.modified() {
                Some(t) => t,
                None => now,
            },
            WatchEvent::Modified(entry) => match entry.modified() {
                Some(t) => t,
                None => now,
            },
            WatchEvent::Removed(_) => now,
        };
        let path = event.path();
        let pass = match &self.last {
            None => true,
            Some((last_path, last_time)) => {
                let gap = time_gap(*last_time, stamp);
                !paths_equal(last_path.as_str(), path) || gap >= self.window
            },
        };
        if pass {
            self.last = Some((path.to_owned(), stamp));
        }
        pass
    }
}

/// Time from `from` to `to`, or zero when `to` comes first.
fn time_gap(from: i128, to: i128) -> (gap: u128)
    ensures
        gap == elapsed(from, to),
{
    if to < from {
        0
    } else if from >= 0 || to < 0 {
        (to - from) as u128
    } else {
        let back: i128 = -(from + 1);
        (to as u128) + (back as u128) + 1
    }
}

impl Debouncer {
    /// What comes out of the debounced stream for an item taken from it at
    /// time `now`: an error always, an event when it gets through.
    pub fn pass_through(&mut self, item: std::result::Result<WatchEvent, Error>, now: i128) -> (out: Option<
        std::result::Result<WatchEvent, Error>,
    >)
        ensures
            final(self).window() == old(self).window(),
            final(self).last_seen() == after_arrival(old(self).last_seen(), Arrival { event: item, now }, old(self).window()),
            arrival_passes(old(self).last_seen(), Arrival { event: item, now }, old(self).window()) ==> out == Some(item),
            !arrival_passes(old(self).last_seen(), Arrival { event: item, now }, old(self).window()) ==> out is None,
    {
        match item {
            Ok(e) => {
                if self.accept(&e, now) {
                    Some(Ok(e))
                } else {
                    None
                }
            },
            Err(err) => Some(Err(err)),
        }
    }
}

/// Drops each event that repeats the path of the last event let through
/// less than `window` nanoseconds after it; errors always pass and leave the
/// state as it was.
pub fn debounce_watch(arrivals: Vec<Arrival>, window: u128) -> (out: Vec<std::result::Result<WatchEvent, Error>>)
    ensures
        out@ == events_of(debounced(arrivals@, window)),
{
    let ghost all = arrivals@;
    let mut state = Debouncer::new(window);
    let mut out: Vec<std::result::Result<WatchEvent, Error>> = Vec::new();
    for a in it: arrivals
        invariant
            it.seq() == all,
            state.window() == window,
            state.last_seen() == debounce_state(all.take(it.index() as int), window),
            out@ == events_of(debounced(all.take(it.index() as int), window)),
    {
        let ghost i = it.index();
        proof {
            assert(all.take(i + 1).drop_last() == all.take(i as int));
            assert(all.take(i + 1).last() == a);
        }
        let ghost before = debounced(all.take(i as int), window);
        let Arrival { event, now } = a;
        if let Some(item) = state.pass_through(event, now) {
            out.push(item);
            assert(events_of(before.push(a)) == events_of(before).push(a.event));
        }
    }
    assert(all.take(all.len() as int) == all);
    out
}


/// Debouncing what was already debounced changes nothing: the events let
/// through the first time all get through again, and the state reached is
/// the same.
pub proof fn lemma_debounce_idempotent(arrivals: Seq<Arrival>, window: u128)
    ensures
        debounced(debounced(arrivals, window), window) == debounced(arrivals, window),
        debounce_state(debounced(arrivals, window), window) == debounce_state(arrivals, window),
    decreases arrivals.len(),
{
    if arrivals.len() > 0 {
        let prefix = arrivals.drop_last();
        let a = arrivals.last();
        lemma_debounce_idempotent(prefix, window);
        let d = debounced(prefix, window);
        if arrival_passes(debounce_state(prefix, window), a, window) {
            assert(d.push(a).drop_last() == d);
            assert(d.push(a).last() == a);
        }
    }
}

/// With a window of zero every event gets through.
pub proof fn lemma_debounce_zero_window(arrivals: Seq<Arrival>)
    ensures
        debounced(arrivals, 0) == arrivals,
    decreases arrivals.len(),
{
    if arrivals.len() > 0 {
        lemma_debounce_zero_window(arrivals.drop_last());
        assert(arrivals.drop_last().push(arrivals.last()) == arrivals);
    }
}

/// Whether an arrival carries an error.
pub open spec fn is_failure(a: Arrival) -> bool {
    a.event is Err
}

/// Errors are never dropped: the errors that get through are exactly the
/// errors that arrived, in order.
pub proof fn lemma_debounce_keeps_errors(arrivals: Seq<Arrival>, window: u128)
    ensures
        debounced(arrivals, window).filter(|a: Arrival| is_failure(a))
            == arrivals.filter(|a: Arrival| is_failure(a)),
    decreases arrivals.len(),
{
    reveal(Seq::filter);
    if arrivals.len() > 0 {
        let prefix = arrivals.drop_last();
        let a = arrivals.last();
        lemma_debounce_keeps_errors(prefix, window);
        let d = debounced(prefix, window);
        if arrival_passes(debounce_state(prefix, window), a, window) {
            assert(d.push(a).drop_last() == d);
            assert(d.push(a).last() == a);
        }
    }
}

/// The first arrival always gets through.
pub proof fn lemma_debounce_keeps_first(arrivals: Seq<Arrival>, window: u128)
    requires
        arrivals.len() > 0,
    ensures
        debounced(arrivals, window).len() > 0,
        debounced(arrivals, window)[0] == arrivals[0],
    decreases arrivals.len(),
{
    let prefix = arrivals.drop_last();
    let d = debounced(prefix, window);
    if arrivals.len() > 1 {
        lemma_debounce_keeps_first(prefix, window);
        assert(prefix[0] == arrivals[0]);
        assert(d.push(arrivals.last())[0] == d[0]);
    } else {
        assert(prefix.len() == 0);
        assert(debounce_state(prefix, window) is None);
        assert(d.len() == 0);
        assert(arrivals.last() == arrivals[0]);
        assert(d.push(arrivals.last())[0] == arrivals[0]);
    }
}

/// An event is dropped only when the last event let through is about the
/// same path and dated less than `window` before it.
pub proof fn lemma_debounce_drops_only_repeats(arrivals: Seq<Arrival>, a: Arrival, window: u128)
    requires
        debounced(arrivals.push(a), window) == debounced(arrivals, window),
    ensures
        a.event is Ok,
        debounce_state(arrivals, window) matches Some((path, time)) && same_path(
            path,
            event_path(a.event->Ok_0),
        ) && elapsed(time, event_time(a.event->Ok_0, a.now)) < window,
{
    assert(arrivals.push(a).drop_last() == arrivals);
    assert(arrivals.push(a).last() == a);
    let d = debounced(arrivals, window);
    if arrival_passes(debounce_state(arrivals, window), a, window) {
        assert(d.push(a).len() == d.len() + 1);
    }
}

/// The path and date of the last event (not error) among `arrivals`.
pub open spec fn last_event_key(arrivals: Seq<Arrival>) -> Option<(Seq<char>, i128)>
    decreases arrivals.len(),
{
    if arrivals.len() == 0 {
        None
    } else {
        match arrivals.last().event {
            Ok(e) => Some((event_path(e), event_time(e, arrivals.last().now))),
            Err(_) => last_event_key(arrivals.drop_last()),
        }
    }
}

proof fn lemma_debounced_len(arrivals: Seq<Arrival>, window: u128)
    ensures
        debounced(arrivals, window).len() <= arrivals.len(),
    decreases arrivals.len(),
{
    if arrivals.len() > 0 {
        lemma_debounced_len(arrivals.drop_last(), window);
    }
}

/// In a stream that debouncing leaves unchanged, every event gets through
/// given the last event before it, and the state reached is the last event.
proof fn lemma_stable_stream(s: Seq<Arrival>, window: u128)
    requires
        debounced(s, window) == s,
    ensures
        debounce_state(s, window) == last_event_key(s),
        forall|j: int| 0 <= j < s.len() ==> arrival_passes(last_event_key(#[trigger] s.take(j)), s[j], window),
    decreases s.len(),
{
    if s.len() > 0 {
        let p = s.drop_last();
        let a = s.last();
        lemma_debounced_len(p, window);
        let d = debounced(p, window);
        if !arrival_passes(debounce_state(p, window), a, window) {
            assert(debounced(s, window).len() == d.len());
            assert(false);
        }
        assert(d.push(a).drop_last() == d);
        assert(s.drop_last() == p);
        assert(d == p);
        lemma_stable_stream(p, window);
        assert forall|j: int| 0 <= j < s.len() implies arrival_passes(last_event_key(#[trigger] s.take(j)), s[j], window) by {
            if j == p.len() {
                assert(s.take(j) == p);
            } else {
                assert(s.take(j) == p.take(j));
                assert(s[j] == p[j]);
            }
        }
    }
}

/// Two successive events that debouncing lets through are, when they are
/// about the same path, at least `window` apart: for each event of the
/// output, the last event before it in the output either has another path
/// or is dated at least `window` earlier.
pub proof fn lemma_debounce_spacing(arrivals: Seq<Arrival>, window: u128, j: int)
    requires
        0 <= j < debounced(arrivals, window).len(),
        debounced(arrivals, window)[j].event is Ok,
        last_event_key(debounced(arrivals, window).take(j)) is Some,
    ensures
        ({
            let out = debounced(arrivals, window);
            let e = out[j].event->Ok_0;
            let (prev_path, prev_time) = last_event_key(out.take(j))->Some_0;
            !same_path(prev_path, event_path(e)) || elapsed(prev_time, event_time(e, out[j].now)) >= window
        }),
{
    let out = debounced(arrivals, window);
    lemma_debounce_idempotent(arrivals, window);
    lemma_stable_stream(out, window);
    assert(arrival_passes(last_event_key(out.take(j)), out[j], window));
}

} // verus!
