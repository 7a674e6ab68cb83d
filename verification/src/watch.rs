//! Filesystem change events and the decisions taken on them: turning a raw
//! notification into events, queueing them, debouncing them, and filtering
//! them by glob pattern.
use vstd::prelude::*;
use std::collections::VecDeque;
use crate::entry::{lemma_filter_keeps, EntryMetadata, PathEntry};
use crate::error::Error;
use crate::globbing::{pattern_compiles, pattern_matches, GlobPattern};
use crate::paths::{paths_equal, same_path};

verus! {

/// A change observed under a watched directory.
#[derive(Clone, Debug)]
pub enum WatchEvent {
    Created(PathEntry),
    Modified(PathEntry),
    Removed(String),
}

/// The path an event is about.
pub open spec fn event_path(e: WatchEvent) -> Seq<char> {
    match e {
        WatchEvent::Created(entry) => entry.path@,
        WatchEvent::Modified(entry) => entry.path@,
        WatchEvent::Removed(path) => path@,
    }
}

impl WatchEvent {
    /// The path the event is about.
    pub fn path(&self) -> (p: &str)
        ensures
            p@ == event_path(*self),
    {
        match self {
            WatchEvent::Created(entry) => entry.path.as_str(),
            WatchEvent::Modified(entry) => entry.path.as_str(),
            WatchEvent::Removed(path) => path.as_str(),
        }
    }

    /// Whether the event is about a directory, as far as the event records
    /// it: created and modified entries carry their metadata; for a removed
    /// path the answer is `None` and only the filesystem can tell.
    pub fn is_dir(&self) -> (d: Option<bool>)
        ensures
            d == match *self {
                WatchEvent::Created(entry) => Some(entry.metadata.is_dir),
                WatchEvent::Modified(entry) => Some(entry.metadata.is_dir),
                WatchEvent::Removed(_) => None::<bool>,
            },
    {
        match self {
            WatchEvent::Created(entry) => Some(entry.is_dir()),
            WatchEvent::Modified(entry) => Some(entry.is_dir()),
            WatchEvent::Removed(_) => None,
        }
    }
}

/// Whether two events are the same change: the same kind of change, with
/// equal entries (see `PathEntry::same_as`) or equal removed paths.
pub open spec fn same_event(a: WatchEvent, b: WatchEvent) -> bool {
    match (a, b) {
        (WatchEvent::Created(x), WatchEvent::Created(y)) => x.same_as(y),
        (WatchEvent::Modified(x), WatchEvent::Modified(y)) => x.same_as(y),
        (WatchEvent::Removed(x), WatchEvent::Removed(y)) => same_path(x@, y@),
        _ => false,
    }
}

impl PartialEq for WatchEvent {
    fn eq(&self, other: &Self) -> (r: bool) {
        match (self, other) {
            (WatchEvent::Created(x), WatchEvent::Created(y)) => x == y,
            (WatchEvent::Modified(x), WatchEvent::Modified(y)) => x == y,
            (WatchEvent::Removed(x), WatchEvent::Removed(y)) => paths_equal(x.as_str(), y.as_str()),
            _ => false,
        }
    }
}

impl vstd::std_specs::cmp::PartialEqSpecImpl for WatchEvent {
    open spec fn obeys_eq_spec() -> bool {
        true
    }

    open spec fn eq_spec(&self, other: &Self) -> bool {
        same_event(*self, *other)
    }
}

impl Eq for WatchEvent {}

/// The kind of change a filesystem notification reports.
#[derive(Clone, Copy, Debug, PartialEq, Eq, Structural)]
pub enum ChangeKind {
    Any,
    Access,
    Create,
    Modify,
    Remove,
    Other,
}

/// A path named by a notification, with its metadata as read right after
/// the notification arrived (`None` when it could not be read).
pub struct ObservedPath {
    pub path: String,
    pub metadata: Option<EntryMetadata>,
}

/// The events one observed path of a notification of kind `kind` gives.
pub open spec fn events_for(kind: ChangeKind, o: ObservedPath) -> Seq<WatchEvent> {
    match kind {
        ChangeKind::Create => match o.metadata {
            Some(m) => seq![WatchEvent::Created(PathEntry { path: o.path, metadata: m })],
            None => seq![],
        },
        ChangeKind::Modify | ChangeKind::Any | ChangeKind::Other => match o.metadata {
            Some(m) => seq![WatchEvent::Modified(PathEntry { path: o.path, metadata: m })],
            None => seq![],
        },
        ChangeKind::Remove => seq![WatchEvent::Removed(o.path)],
        ChangeKind::Access => seq![],
    }
}

/// The events a notification of kind `kind` about the paths `observed`
/// gives, path by path.
pub open spec fn converted(kind: ChangeKind, observed: Seq<ObservedPath>) -> Seq<WatchEvent>
    decreases observed.len(),
{
    if observed.len() == 0 {
        seq![]
    } else {
        converted(kind, observed.drop_last()) + events_for(kind, observed.last())
    }
}

/// Converting paths one batch after another gives the events of the first
/// batch followed by those of the second.
pub proof fn lemma_converted_append(kind: ChangeKind, a: Seq<ObservedPath>, b: Seq<ObservedPath>)
    ensures
        converted(kind, a + b) == converted(kind, a) + converted(kind, b),
    decreases b.len(),
{
    if b.len() == 0 {
        assert(a + b == a);
        assert(converted(kind, a) + Seq::<WatchEvent>::empty() == converted(kind, a));
    } else {
        lemma_converted_append(kind, a, b.drop_last());
        assert((a + b).drop_last() == a + b.drop_last());
        assert((a + b).last() == b.last());
    }
}

/// What each notified path gives: a creation of a path whose metadata was
/// read, be it a file or a directory, gives one `Created` event with that
/// path and metadata; a modification or unspecified change likewise one
/// `Modified` event; a removal one `Removed` event with the path, whether or
/// not metadata was read; a path whose metadata could not be read gives
/// nothing for any other kind; an access gives nothing. The events of a
/// notification are those of its paths, in order, so each such path's event
/// is among them.
pub proof fn lemma_convert_event_exact(kind: ChangeKind, observed: Seq<ObservedPath>)
    ensures
        forall|o: ObservedPath| (o.metadata matches Some(m) ==> #[trigger] converted(ChangeKind::Create, seq![o])
            == seq![WatchEvent::Created(PathEntry { path: o.path, metadata: m })]),
        forall|o: ObservedPath| (o.metadata matches Some(m) ==> (kind == ChangeKind::Modify || kind
            == ChangeKind::Any || kind == ChangeKind::Other) ==> #[trigger] converted(kind, seq![o])
            == seq![WatchEvent::Modified(PathEntry { path: o.path, metadata: m })]),
        forall|o: ObservedPath| #[trigger] converted(ChangeKind::Remove, seq![o]) == seq![WatchEvent::Removed(o.path)],
        forall|o: ObservedPath| o.metadata is None && kind != ChangeKind::Remove ==> #[trigger] converted(kind, seq![o])
            == Seq::<WatchEvent>::empty(),
        converted(ChangeKind::Access, observed) == Seq::<WatchEvent>::empty(),
        kind == ChangeKind::Create ==> forall|i: int| 0 <= i < observed.len() ==> ((#[trigger] observed[i]).metadata matches Some(m)
            ==> converted(kind, observed).contains(WatchEvent::Created(PathEntry { path: observed[i].path, metadata: m }))),
        (kind == ChangeKind::Modify || kind == ChangeKind::Any || kind == ChangeKind::Other) ==> forall|i: int|
            0 <= i < observed.len() ==> ((#[trigger] observed[i]).metadata matches Some(m)
            ==> converted(kind, observed).contains(WatchEvent::Modified(PathEntry { path: observed[i].path, metadata: m }))),
        kind == ChangeKind::Remove ==> forall|i: int| 0 <= i < observed.len()
            ==> converted(kind, observed).contains(WatchEvent::Removed((#[trigger] observed[i]).path)),
{
    assert forall|k: ChangeKind, o: ObservedPath| #[trigger] converted(k, seq![o]) == events_for(k, o) by {
        assert(seq![o].drop_last() == Seq::<ObservedPath>::empty());
        assert(seq![o].last() == o);
        assert(converted(k, Seq::<ObservedPath>::empty()) == Seq::<WatchEvent>::empty());
        assert(Seq::<WatchEvent>::empty() + events_for(k, o) == events_for(k, o));
    }
    lemma_access_gives_nothing(observed);
    assert forall|i: int| 0 <= i < observed.len() implies converted(kind, observed) == converted(kind, observed.take(i))
        + events_for(kind, #[trigger] observed[i]) + converted(kind, observed.skip(i + 1)) by {
        assert(observed == observed.take(i) + seq![observed[i]] + observed.skip(i + 1));
        lemma_converted_append(kind, observed.take(i) + seq![observed[i]], observed.skip(i + 1));
        lemma_converted_append(kind, observed.take(i), seq![observed[i]]);
        assert(converted(kind, seq![observed[i]]) == events_for(kind, observed[i]));
    }
    assert forall|i: int| 0 <= i < observed.len() && events_for(kind, #[trigger] observed[i]).len() == 1 implies converted(
        kind,
        observed,
    ).contains(events_for(kind, observed[i])[0]) by {
        let before = converted(kind, observed.take(i));
        let whole = converted(kind, observed);
        assert(whole[before.len() as int] == events_for(kind, observed[i])[0]);
    }
}

proof fn lemma_access_gives_nothing(observed: Seq<ObservedPath>)
    ensures
        converted(ChangeKind::Access, observed) == Seq::<WatchEvent>::empty(),
    decreases observed.len(),
{
    if observed.len() > 0 {
        lemma_access_gives_nothing(observed.drop_last());
        assert(Seq::<WatchEvent>::empty() + Seq::<WatchEvent>::empty() == Seq::<WatchEvent>::empty());
    }
}

/// Turns a notification into watch events: a creation into `Created`, a
/// modification (or an unspecified change) into `Modified`, both only for
/// paths whose metadata could be read; a removal into `Removed`; accesses
/// into nothing.
pub fn convert_event(kind: ChangeKind, observed: Vec<ObservedPath>) -> (events: Vec<WatchEvent>)
    ensures
        events@ == converted(kind, observed@),
        kind == ChangeKind::Create ==> forall|i: int| 0 <= i < observed@.len() ==> ((#[trigger] observed@[i]).metadata matches Some(m)
            ==> events@.contains(WatchEvent::Created(PathEntry { path: observed@[i].path, metadata: m }))),
        (kind == ChangeKind::Modify || kind == ChangeKind::Any || kind == ChangeKind::Other) ==> forall|i: int|
            0 <= i < observed@.len() ==> ((#[trigger] observed@[i]).metadata matches Some(m)
            ==> events@.contains(WatchEvent::Modified(PathEntry { path: observed@[i].path, metadata: m }))),
        kind == ChangeKind::Remove ==> forall|i: int| 0 <= i < observed@.len()
            ==> events@.contains(WatchEvent::Removed((#[trigger] observed@[i]).path)),
        kind == ChangeKind::Access ==> events@.len() == 0,
{
    proof {
        lemma_convert_event_exact(kind, observed@);
    }
    let ghost all = observed@;
    let mut events: Vec<WatchEvent> = Vec::new();
    for o in it: observed
        invariant
            it.seq() == all,
            events@ == converted(kind, all.take(it.index() as int)),
    {
        let ghost i = it.index();
        proof {
            assert(all.take(i + 1).drop_last() == all.take(i as int));
            assert(all.take(i + 1).last() == o);
        }
        let ghost before = events@;
        let ghost obs = o;
        let ObservedPath { path, metadata } = o;
        match kind {
            ChangeKind::Create => {
                if let Some(m) = metadata {
                    events.push(WatchEvent::Created(PathEntry { path, metadata: m }));
                }
            },
            ChangeKind::Modify | ChangeKind::Any | ChangeKind::Other => {
                if let Some(m) = metadata {
                    events.push(WatchEvent::Modified(PathEntry { path, metadata: m }));
                }
            },
            ChangeKind::Remove => {
                events.push(WatchEvent::Removed(path));
            },
            ChangeKind::Access => {},
        }
        assert(events@ == before + events_for(kind, obs));
    }
    assert(all.take(all.len() as int) == all);
    events
}

/// Events waiting to be handed out, oldest first.
pub struct PendingEvents {
    queue: VecDeque<WatchEvent>,
}

impl View for PendingEvents {
    type V = Seq<WatchEvent>;

    closed spec fn view(&self) -> Seq<WatchEvent> {
        self.queue@
    }
}

impl PendingEvents {
    pub fn new() -> (p: PendingEvents)
        ensures
            p@ == Seq::<WatchEvent>::empty(),
    {
        PendingEvents { queue: VecDeque::new() }
    }

    pub fn is_empty(&self) -> (b: bool)
        ensures
            b == (self@.len() == 0),
    {
        self.queue.len() == 0
    }

    /// Queues `events` behind those already waiting, in order.
    pub fn extend(&mut self, events: Vec<WatchEvent>)
        ensures
            final(self)@ == old(self)@ + events@,
    {
        let ghost start = self@;
        let ghost all = events@;
        for e in it: events
            invariant
                it.seq() == all,
                self@ == start + all.take(it.index() as int),
        {
            let ghost i = it.index();
            self.queue.push_back(e);
            assert(all.take(i + 1) == all.take(i as int).push(e));
        }
        assert(all.take(all.len() as int) == all);
    }

    /// Hands out the oldest waiting event.
    pub fn pop(&mut self) -> (e: Option<WatchEvent>)
        ensures
            old(self)@.len() == 0 ==> e is None && final(self)@ == old(self)@,
            old(self)@.len() > 0 ==> e == Some(old(self)@[0]) && final(self)@ == old(self)@.drop_first(),
            old(self)@.len() > 0 ==> forall|messages: Seq<Received>|
                #[trigger] stream_items(old(self)@, messages) == seq![Ok::<WatchEvent, Error>(e->Some_0)]
                    + stream_items(final(self)@, messages),
    {
        self.queue.pop_front()
    }
}

/// What receiving from a watcher's channel gave.
pub enum Received {
    /// A notification, turned into events.
    Events(Vec<WatchEvent>),
    /// The watcher reported an error.
    Failure(Error),
    /// The watcher is gone; no more notifications will come.
    Closed,
}

/// What a watch stream does after a receive.
pub enum Delivery {
    /// Hand this item out.
    Deliver(std::result::Result<WatchEvent, Error>),
    /// Nothing to hand out yet: receive again.
    Wait,
    /// The stream is over.
    Finish,
}

/// The items a watch stream hands out, one after another, when `pending`
/// are waiting and the channel then gives `messages`: waiting events first,
/// oldest first; when none wait, the next message is taken: its events are
/// queued (nothing is handed out for an empty batch), an error is handed out
/// as it is, and a closed channel ends the stream.
pub open spec fn stream_items(pending: Seq<WatchEvent>, messages: Seq<Received>) -> Seq<
    std::result::Result<WatchEvent, Error>,
>
    decreases messages.len(), pending.len(),
{
    if pending.len() > 0 {
        seq![Ok(pending[0])] + stream_items(pending.drop_first(), messages)
    } else if messages.len() == 0 {
        seq![]
    } else {
        match messages[0] {
            Received::Events(events) => stream_items(events@, messages.drop_first()),
            Received::Failure(e) => seq![Err(e)] + stream_items(seq![], messages.drop_first()),
            Received::Closed => seq![],
        }
    }
}

/// What the messages of a channel amount to: each event of each batch, each
/// error, up to the channel closing.
pub open spec fn delivered(messages: Seq<Received>) -> Seq<std::result::Result<WatchEvent, Error>>
    decreases messages.len(),
{
    if messages.len() == 0 {
        seq![]
    } else {
        match messages[0] {
            Received::Events(events) => as_items(events@) + delivered(messages.drop_first()),
            Received::Failure(e) => seq![Err(e)] + delivered(messages.drop_first()),
            Received::Closed => seq![],
        }
    }
}

/// Events as items of a stream.
pub open spec fn as_items(events: Seq<WatchEvent>) -> Seq<std::result::Result<WatchEvent, Error>> {
    events.map_values(|e: WatchEvent| Ok::<WatchEvent, Error>(e))
}

/// What a delivery hands out.
pub open spec fn handed_out(d: Delivery) -> Seq<std::result::Result<WatchEvent, Error>> {
    match d {
        Delivery::Deliver(item) => seq![item],
        Delivery::Wait => seq![],
        Delivery::Finish => seq![],
    }
}

/// A watch stream hands out the events that were waiting, in order, then
/// every event and error of the messages that follow, in order, until the
/// channel closes.
pub proof fn lemma_stream_delivers(pending: Seq<WatchEvent>, messages: Seq<Received>)
    ensures
        stream_items(pending, messages) == as_items(pending) + delivered(messages),
    decreases messages.len(), pending.len(),
{
    if pending.len() > 0 {
        lemma_stream_delivers(pending.drop_first(), messages);
        assert(as_items(pending) == seq![Ok::<WatchEvent, Error>(pending[0])] + as_items(pending.drop_first()));
    } else if messages.len() > 0 {
        let rest = messages.drop_first();
        match messages[0] {
            Received::Events(events) => {
                lemma_stream_delivers(events@, rest);
            },
            Received::Failure(e) => {
                lemma_stream_delivers(seq![], rest);
                assert(as_items(seq![]) + delivered(rest) == delivered(rest));
            },
            Received::Closed => {},
        }
        assert(as_items(pending) == Seq::<std::result::Result<WatchEvent, Error>>::empty());
    } else {
        assert(as_items(pending) == Seq::<std::result::Result<WatchEvent, Error>>::empty());
    }
}

proof fn lemma_stream_after_receive(message: Received, d: Delivery, after: Seq<WatchEvent>, rest: Seq<Received>)
    requires
        message is Failure ==> d == Delivery::Deliver(Err(message->Failure_0)) && after == Seq::<WatchEvent>::empty(),
        message is Closed ==> d is Finish,
        message matches Received::Events(events) ==> (events@.len() == 0 ==> d is Wait && after == events@),
        message matches Received::Events(events) ==> (events@.len() > 0 ==> d == Delivery::Deliver(Ok(events@[0]))
            && after == events@.drop_first()),
    ensures
        !(message is Closed) ==> stream_items(Seq::<WatchEvent>::empty(), seq![message] + rest) == handed_out(d)
            + stream_items(after, rest),
        message is Closed ==> stream_items(Seq::<WatchEvent>::empty(), seq![message] + rest)
            == Seq::<std::result::Result<WatchEvent, Error>>::empty(),
{
    let all = seq![message] + rest;
    assert(all.len() > 0);
    assert(all[0] == message);
    assert(all.drop_first() == rest);
    match message {
        Received::Events(events) => {
            if events@.len() > 0 {
                assert(stream_items(events@, rest) == seq![Ok::<WatchEvent, Error>(events@[0])]
                    + stream_items(events@.drop_first(), rest));
            } else {
                assert(handed_out(d) + stream_items(after, rest) == stream_items(after, rest));
            }
        },
        Received::Failure(e) => {
            let none: Seq<WatchEvent> = seq![];
            assert(after == none);
        },
        Received::Closed => {},
    }
}

impl PendingEvents {
    /// Takes what was received into account: events are queued behind those
    /// waiting and the oldest waiting event is handed out; an error is handed
    /// out as it is, leaving the queue alone; a closed channel ends the
    /// stream.
    pub fn receive(&mut self, received: Received) -> (d: Delivery)
        ensures
            received is Failure ==> d == Delivery::Deliver(Err(received->Failure_0)) && final(self)@ == old(self)@,
            received is Closed ==> d is Finish && final(self)@ == old(self)@,
            received matches Received::Events(events) ==> ({
                let queued = old(self)@ + events@;
                &&& queued.len() == 0 ==> d is Wait && final(self)@ == queued
                &&& queued.len() > 0 ==> d == Delivery::Deliver(Ok(queued[0])) && final(self)@ == queued.drop_first()
            }),
            old(self)@.len() == 0 && !(received is Closed) ==> forall|rest: Seq<Received>|
                #[trigger] stream_items(old(self)@, seq![received] + rest) == handed_out(d)
                    + stream_items(final(self)@, rest),
            old(self)@.len() == 0 && received is Closed ==> forall|rest: Seq<Received>|
                #[trigger] stream_items(old(self)@, seq![received] + rest) == Seq::<std::result::Result<WatchEvent, Error>>::empty(),
    {
        let ghost start = self@;
        let ghost message = received;
        let d = match received {
            Received::Events(events) => {
                self.extend(events);
                match self.pop() {
                    Some(e) => Delivery::Deliver(Ok(e)),
                    None => Delivery::Wait,
                }
            },
            Received::Failure(err) => Delivery::Deliver(Err(err)),
            Received::Closed => Delivery::Finish,
        };
        proof {
            if start.len() == 0 {
                assert(start == Seq::<WatchEvent>::empty());
                if let Received::Events(events) = message {
                    assert(start + events@ == events@);
                }
                assert forall|rest: Seq<Received>| #[trigger] stream_items(start, seq![message] + rest)
                    == (if message is Closed {
                        Seq::<std::result::Result<WatchEvent, Error>>::empty()
                    } else {
                        handed_out(d) + stream_items(self@, rest)
                    }) by {
                    lemma_stream_after_receive(message, d, self@, rest);
                }
            }
        }
        d
    }
}

/// Keeps the events whose path matches the compiled pattern `pattern`;
/// errors always pass.
pub open spec fn passes_glob(pattern: Seq<char>, item: std::result::Result<WatchEvent, Error>) -> bool {
    match item {
        Ok(e) => pattern_matches(pattern, event_path(e)),
        Err(_) => true,
    }
}

/// Whether an item of a watch stream passes a glob filter: an event when its
/// path matches, an error always.
pub fn passes_glob_filter(pattern: &GlobPattern, item: &std::result::Result<WatchEvent, Error>) -> (b: bool)
    ensures
        b == passes_glob(pattern@, *item),
        *item matches Ok(e) ==> (b == pattern_matches(pattern@, event_path(e))),
        *item is Err ==> b,
{
    match item {
        Ok(e) => pattern.matches_path(e.path()),
        Err(_) => true,
    }
}

/// The glob filter keeps an event, whatever its kind (created, modified or
/// removed), only when its path matches the pattern; it keeps every error;
/// it keeps every event whose path matches; and all it keeps comes from the
/// input.
pub proof fn lemma_watch_glob_exact(events: Seq<std::result::Result<WatchEvent, Error>>, pattern: Seq<char>)
    ensures
        ({
            let kept = events.filter(|item: std::result::Result<WatchEvent, Error>| passes_glob(pattern, item));
            &&& forall|i: int| 0 <= i < kept.len() ==> ((#[trigger] kept[i]) matches Ok(e)
                ==> pattern_matches(pattern, event_path(e)))
            &&& forall|j: int| 0 <= j < events.len() ==> ((#[trigger] events[j]) is Err ==> kept.contains(events[j]))
            &&& forall|j: int| 0 <= j < events.len() ==> ((#[trigger] events[j]) matches Ok(e)
                && pattern_matches(pattern, event_path(e)) ==> kept.contains(events[j]))
            &&& forall|i: int| 0 <= i < kept.len() ==> events.contains(#[trigger] kept[i])
        }),
{
    let p = |item: std::result::Result<WatchEvent, Error>| passes_glob(pattern, item);
    lemma_filter_keeps(events, p);
    let kept = events.filter(p);
    assert forall|i: int| 0 <= i < kept.len() implies ((#[trigger] kept[i]) matches Ok(e)
        ==> pattern_matches(pattern, event_path(e))) by {
        assert(p(kept[i]));
    }
    assert forall|j: int| 0 <= j < events.len() implies ((#[trigger] events[j]) is Err ==> kept.contains(events[j])) by {
        if events[j] is Err {
            assert(p(events[j]));
        }
    }
    assert forall|j: int| 0 <= j < events.len() implies ((#[trigger] events[j]) matches Ok(e)
        && pattern_matches(pattern, event_path(e)) ==> kept.contains(events[j])) by {
        if events[j] matches Ok(e) && pattern_matches(pattern, event_path(e)) {
            assert(p(events[j]));
        }
    }
}

/// Keeps the events whose path matches `pattern` (case-sensitive); errors
/// always pass. A pattern that does not compile is an `Error::Pattern`.
pub fn watch_glob(events: Vec<std::result::Result<WatchEvent, Error>>, pattern: &str) -> (r: std::result::Result<
    Vec<std::result::Result<WatchEvent, Error>>,
    Error,
>)
    ensures
        r is Ok <==> pattern_compiles(pattern@),
        r matches Err(e) ==> e is Pattern,
        r matches Ok(kept) ==> kept@ == events@.filter(
            |item: std::result::Result<WatchEvent, Error>| passes_glob(pattern@, item),
        ),
        r matches Ok(kept) ==> forall|i: int| 0 <= i < kept@.len() ==> ((#[trigger] kept@[i]) matches Ok(e)
            ==> pattern_matches(pattern@, event_path(e))),
        r matches Ok(kept) ==> forall|j: int| 0 <= j < events@.len() ==> ((#[trigger] events@[j]) is Err
            ==> kept@.contains(events@[j])),
        r matches Ok(kept) ==> forall|j: int| 0 <= j < events@.len() ==> ((#[trigger] events@[j]) matches Ok(e)
            && pattern_matches(pattern@, event_path(e)) ==> kept@.contains(events@[j])),
        r matches Ok(kept) ==> forall|i: int| 0 <= i < kept@.len() ==> events@.contains(#[trigger] kept@[i]),
{
    proof {
        lemma_watch_glob_exact(events@, pattern@);
    }
    let compiled = match GlobPattern::new(pattern) {
        Ok(p) => p,
        Err(e) => return Err(e),
    };
    let ghost all = events@;
    let mut kept: Vec<std::result::Result<WatchEvent, Error>> = Vec::new();
    for item in it: events
        invariant
            it.seq() == all,
            compiled@ == pattern@,
            kept@ == all.take(it.index() as int).filter(
                |item: std::result::Result<WatchEvent, Error>| passes_glob(pattern@, item),
            ),
    {
        let ghost i = it.index();
        proof {
            reveal(Seq::filter);
            assert(all.take(i + 1).drop_last() == all.take(i as int));
            assert(all.take(i + 1).last() == item);
        }
        if passes_glob_filter(&compiled, &item) {
            kept.push(item);
        }
    }
    assert(all.take(all.len() as int) == all);
    Ok(kept)
}

} // verus!
