//! Events that wait until a script asks for them.

use std::collections::VecDeque;

use tokio::sync::broadcast;
use vstd::prelude::*;

verus! {

/// A rectangle of tiles; its edges belong to it.
#[derive(Clone, Copy, Debug, PartialEq, Eq, Structural)]
pub struct SpatialFilter {
    pub x_min: u16,
    pub y_min: u16,
    pub x_max: u16,
    pub y_max: u16,
}

impl SpatialFilter {
    /// Whether a tile is in the rectangle.
    pub open spec fn holds(self, x: u16, y: u16) -> bool {
        self.x_min <= x <= self.x_max && self.y_min <= y <= self.y_max
    }

    pub fn contains(&self, x: u16, y: u16) -> (b: bool)
        ensures
            b == self.holds(x, y),
    {
        x >= self.x_min && x <= self.x_max && y >= self.y_min && y <= self.y_max
    }
}

/// Where an event takes place.
#[derive(Clone, Copy, Debug, PartialEq, Eq, Structural)]
pub enum EventPosition {
    Single(u16, u16),
    /// In two places, such as the two ends of a movement.
    Dual(u16, u16, u16, u16),
    /// Everywhere: no rectangle leaves it out.
    Always,
    /// Nowhere: every rectangle leaves it out.
    Never,
}

impl EventPosition {
    /// Whether an event is let through by a rectangle: one of its places is in it.
    pub open spec fn passes(self, filter: SpatialFilter) -> bool {
        match self {
            EventPosition::Single(x, y) => filter.holds(x, y),
            EventPosition::Dual(x1, y1, x2, y2) => filter.holds(x1, y1) || filter.holds(x2, y2),
            EventPosition::Always => true,
            EventPosition::Never => false,
        }
    }
}

/// Whether an event at this position is let through by a rectangle.
pub fn event_passes_filter(pos: EventPosition, filter: &SpatialFilter) -> (b: bool)
    ensures
        b == pos.passes(*filter),
{
    match pos {
        EventPosition::Single(x, y) => filter.contains(x, y),
        EventPosition::Dual(x1, y1, x2, y2) => filter.contains(x1, y1) || filter.contains(x2, y2),
        EventPosition::Always => true,
        EventPosition::Never => false,
    }
}

/// `tokio::sync::broadcast::Receiver`, one of the receiving ends of a channel.
#[verifier::external_type_specification]
#[verifier::external_body]
#[verifier::reject_recursive_types(T)]
pub struct ExBroadcastReceiver<T>(tokio::sync::broadcast::Receiver<T>);

/// What an attempt to receive gave.
#[derive(Debug)]
pub enum Received<E> {
    Event(E),
    /// So many events were lost, because they were not received in time.
    Lagged(u64),
    /// There is no event yet.
    Empty,
    /// There will be no more events.
    Closed,
}

/// Calls `tokio::sync::broadcast::Receiver::try_recv`. What it gives depends on those
/// who send, so nothing is claimed of it.
#[verifier::external_body]
fn receive<E: Clone>(rx: &mut broadcast::Receiver<E>) -> (r: Received<E>) {
    match rx.try_recv() {
        Ok(event) => Received::Event(event),
        Err(broadcast::error::TryRecvError::Lagged(n)) => Received::Lagged(n),
        Err(broadcast::error::TryRecvError::Empty) => Received::Empty,
        Err(broadcast::error::TryRecvError::Closed) => Received::Closed,
    }
}

/// Buffers the events of a channel, all of them or those in a rectangle.
///
/// `F` tells where an event takes place.
#[verifier::reject_recursive_types(E)]
#[verifier::reject_recursive_types(F)]
pub struct BroadcastEventBuffer<E: Clone, F: Fn(&E) -> EventPosition> {
    pub rx: broadcast::Receiver<E>,
    pub buffer: VecDeque<E>,
    pub filter: Option<SpatialFilter>,
    pub position_fn: Option<F>,
}

/// Those of the items that are marked.
pub open spec fn marked<E>(items: Seq<E>, marks: Seq<bool>) -> Seq<E>
    decreases items.len(),
{
    if items.len() == 0 {
        Seq::empty()
    } else {
        let before = marked(items.drop_last(), marks);
        if marks[items.len() - 1] {
            before.push(items.last())
        } else {
            before
        }
    }
}

/// The marked events among what was received.
pub open spec fn taken<E>(batch: Seq<Received<E>>, marks: Seq<bool>) -> Seq<E>
    decreases batch.len(),
{
    if batch.len() == 0 {
        Seq::empty()
    } else {
        let before = taken(batch.drop_last(), marks);
        match batch.last() {
            Received::Event(e) => if marks[batch.len() - 1] {
                before.push(e)
            } else {
                before
            },
            _ => before,
        }
    }
}

/// Whether nothing can be received at the moment.
pub open spec fn ran_dry<E>(r: Received<E>) -> bool {
    r is Empty || r is Closed
}

/// Whether an event may be let through (`b`) or left out (`!b`), by where `f` says that
/// it takes place.
pub open spec fn may_pass<E, F: Fn(&E) -> EventPosition>(
    f: F,
    filter: SpatialFilter,
    event: E,
    b: bool,
) -> bool {
    exists|p: EventPosition| #[trigger] call_ensures(f, (&event,), p) && b == p.passes(filter)
}

proof fn lemma_marked_prefix<E>(items: Seq<E>, a: Seq<bool>, b: Seq<bool>)
    requires
        items.len() <= a.len(),
        items.len() <= b.len(),
        forall|i: int| 0 <= i < items.len() ==> a[i] == #[trigger] b[i],
    ensures
        marked(items, a) == marked(items, b),
    decreases items.len(),
{
    if items.len() > 0 {
        lemma_marked_prefix(items.drop_last(), a, b);
    }
}

proof fn lemma_taken_prefix<E>(batch: Seq<Received<E>>, a: Seq<bool>, b: Seq<bool>)
    requires
        batch.len() <= a.len(),
        batch.len() <= b.len(),
        forall|i: int| 0 <= i < batch.len() ==> a[i] == #[trigger] b[i],
    ensures
        taken(batch, a) == taken(batch, b),
    decreases batch.len(),
{
    if batch.len() > 0 {
        lemma_taken_prefix(batch.drop_last(), a, b);
    }
}

impl<E: Clone, F: Fn(&E) -> EventPosition> BroadcastEventBuffer<E, F> {
    /// Whether the function that tells positions can be asked about every event.
    pub open spec fn wf(&self) -> bool {
        self.position_fn matches Some(f) ==> forall|e: &E| #[trigger] call_requires(f, (e,))
    }

    /// Whether an event may be taken in (`b`) or not: without a rectangle, or without
    /// knowledge of positions, every event is.
    pub open spec fn may_take(&self, event: E, b: bool) -> bool {
        match (self.filter, self.position_fn) {
            (Some(filter), Some(f)) => may_pass(f, filter, event, b),
            _ => b,
        }
    }

    /// Whether a batch was received up to the first time that there was nothing, or for
    /// as long as can be counted, and those of its events were taken in that are marked.
    pub open spec fn takes_batch(
        &self,
        before: Seq<E>,
        after: Seq<E>,
        batch: Seq<Received<E>>,
        marks: Seq<bool>,
    ) -> bool {
        &&& batch.len() > 0
        &&& marks.len() == batch.len()
        &&& forall|i: int| 0 <= i < batch.len() - 1 ==> !ran_dry(#[trigger] batch[i])
        &&& ran_dry(batch.last()) || batch.len() == usize::MAX
        &&& forall|i: int|
            0 <= i < batch.len() ==> (#[trigger] batch[i] matches Received::Event(e)
                ==> self.may_take(e, marks[i]))
        &&& after == before + taken(batch, marks)
    }

    /// Whether the buffer may have become `after` when all was received that there was.
    pub open spec fn drains(&self, before: Seq<E>, after: Seq<E>) -> bool {
        exists|batch: Seq<Received<E>>, marks: Seq<bool>| #[trigger]
            self.takes_batch(before, after, batch, marks)
    }

    /// A buffer for the events of a channel.
    pub fn new(rx: broadcast::Receiver<E>) -> (b: Self)
        ensures
            b.wf(),
            b.rx == rx,
            b.buffer@ == Seq::<E>::empty(),
            b.filter is None,
            b.position_fn is None,
    {
        BroadcastEventBuffer { rx, buffer: VecDeque::new(), filter: None, position_fn: None }
    }

    /// A buffer that knows where events take place.
    pub fn with_position_fn(rx: broadcast::Receiver<E>, position_fn: F) -> (b: Self)
        requires
            forall|e: &E| #[trigger] call_requires(position_fn, (e,)),
        ensures
            b.wf(),
            b.rx == rx,
            b.buffer@ == Seq::<E>::empty(),
            b.filter is None,
            b.position_fn == Some(position_fn),
    {
        BroadcastEventBuffer {
            rx,
            buffer: VecDeque::new(),
            filter: None,
            position_fn: Some(position_fn),
        }
    }

    /// From now on only events in a rectangle are taken in. Those in the buffer that are
    /// outside are dropped.
    pub fn set_filter(&mut self, filter: SpatialFilter)
        requires
            old(self).wf(),
        ensures
            final(self).wf(),
            final(self).filter == Some(filter),
            final(self).position_fn == old(self).position_fn,
            final(self).rx == old(self).rx,
            match old(self).position_fn {
                None => final(self).buffer@ == old(self).buffer@,
                Some(f) => exists|marks: Seq<bool>|
                    {
                        &&& marks.len() == old(self).buffer@.len()
                        &&& forall|i: int|
                            0 <= i < marks.len() ==> may_pass(
                                f,
                                filter,
                                old(self).buffer@[i],
                                #[trigger] marks[i],
                            )
                        &&& final(self).buffer@ == #[trigger] marked(old(self).buffer@, marks)
                    },
            },
    {
        self.filter = Some(filter);
        let mut rest: VecDeque<E> = VecDeque::new();
        if self.position_fn.is_none() {
            return;
        }
        let ghost all = self.buffer@;
        let ghost mut marks = Seq::<bool>::empty();
        let ghost f = self.position_fn->0;
        let ghost rx = self.rx;
        std::mem::swap(&mut rest, &mut self.buffer);
        let n: usize = rest.len();
        let mut i: usize = 0;
        assert(self.buffer@ =~= marked(all.take(0), marks));
        assert(rest@ =~= all.skip(0));
        while i < n
            invariant
                i <= n,
                n == all.len(),
                self.wf(),
                self.position_fn == Some(f),
                self.filter == Some(filter),
                self.rx == rx,
                rest@ == all.skip(i as int),
                marks.len() == i,
                self.buffer@ == marked(all.take(i as int), marks),
                forall|j: int|
                    0 <= j < marks.len() ==> may_pass(f, filter, all[j], #[trigger] marks[j]),
            decreases n - i,
        {
            if let Some(event) = rest.pop_front() {
                let ghost before = self.buffer@;
                let b = self.should_accept(&event);
                if b {
                    self.buffer.push_back(event);
                }
                proof {
                    assert(event == all[i as int]);
                    let more = marks.push(b);
                    lemma_marked_prefix(all.take(i as int), marks, more);
                    assert(all.take(i + 1).drop_last() =~= all.take(i as int));
                    assert(self.buffer@ =~= marked(all.take(i + 1), more));
                    marks = more;
                }
            }
            assert(rest@ =~= all.skip(i + 1));
            i = i + 1;
        }
        assert(all.take(n as int) =~= all);
    }

    /// From now on all events are taken in.
    pub fn clear_filter(&mut self)
        ensures
            *final(self) == (BroadcastEventBuffer { filter: None, ..*old(self) }),
    {
        self.filter = None;
    }

    /// Takes in what was received. Returns whether there may be more.
    pub fn take_in(&mut self, got: Received<E>) -> (more: bool)
        requires
            old(self).wf(),
        ensures
            final(self).wf(),
            final(self).filter == old(self).filter,
            final(self).position_fn == old(self).position_fn,
            final(self).rx == old(self).rx,
            more == !ran_dry(got),
            match got {
                Received::Event(e) => {
                    ||| old(self).may_take(e, true) && final(self).buffer@
                        == old(self).buffer@.push(e)
                    ||| old(self).may_take(e, false) && final(self).buffer@ == old(self).buffer@
                },
                _ => final(self).buffer@ == old(self).buffer@,
            },
    {
        match got {
            Received::Event(event) => {
                if self.should_accept(&event) {
                    self.buffer.push_back(event);
                }
                true
            },
            Received::Lagged(_) => true,
            Received::Empty | Received::Closed => false,
        }
    }

    /// Takes in all events that there are. Which ones there are depends on those who
    /// send them.
    pub fn drain_broadcast(&mut self)
        requires
            old(self).wf(),
        ensures
            final(self).wf(),
            final(self).filter == old(self).filter,
            final(self).position_fn == old(self).position_fn,
            old(self).drains(old(self).buffer@, final(self).buffer@),
    {
        let ghost start = self.buffer@;
        let ghost me = *self;
        let ghost mut batch = Seq::<Received<E>>::empty();
        let ghost mut marks = Seq::<bool>::empty();
        let mut more = true;
        let mut turns: usize = usize::MAX;
        assert(self.buffer@ =~= start + taken(batch, marks));
        while more && turns > 0
            invariant
                self.wf(),
                self.filter == me.filter,
                self.position_fn == me.position_fn,
                batch.len() == usize::MAX - turns,
                marks.len() == batch.len(),
                batch.len() == 0 ==> more,
                forall|i: int| 0 <= i < batch.len() - 1 ==> !ran_dry(#[trigger] batch[i]),
                batch.len() > 0 ==> more == !ran_dry(batch.last()),
                forall|i: int|
                    0 <= i < batch.len() ==> (#[trigger] batch[i] matches Received::Event(e)
                        ==> me.may_take(e, marks[i])),
                self.buffer@ == start + taken(batch, marks),
            decreases turns,
        {
            turns = turns - 1;
            let got = receive(&mut self.rx);
            let ghost before = self.buffer@;
            let ghost r = got;
            more = self.take_in(got);
            proof {
                let b = self.buffer@ != before;
                let longer = batch.push(r);
                let m = marks.push(b);
                lemma_taken_prefix(batch, marks, m);
                assert(longer.drop_last() =~= batch);
                if r is Event {
                    assert(before.push(r->Event_0).len() == before.len() + 1);
                    assert(me.may_take(r->Event_0, b));
                }
                assert(self.buffer@ =~= start + taken(longer, m));
                assert forall|i: int| 0 <= i < longer.len() implies (
                #[trigger] longer[i] matches Received::Event(e) ==> me.may_take(e, m[i])) by {
                    if i < batch.len() {
                        assert(longer[i] == batch[i]);
                    }
                }
                assert forall|i: int| 0 <= i < longer.len() - 1 implies !ran_dry(
                    #[trigger] longer[i],
                ) by {
                    assert(longer[i] == batch[i]);
                }
                batch = longer;
                marks = m;
            }
        }
        assert(me.takes_batch(start, self.buffer@, batch, marks));
    }

    /// Takes the oldest event out of the buffer.
    pub fn pop(&mut self) -> (r: Option<E>)
        ensures
            first_out(old(self).buffer@, final(self).buffer@, r),
            final(self).filter == old(self).filter,
            final(self).position_fn == old(self).position_fn,
            final(self).rx == old(self).rx,
    {
        self.buffer.pop_front()
    }

    /// Takes in all events that there are, and the oldest one out of the buffer.
    pub fn try_recv(&mut self) -> (r: Option<E>)
        requires
            old(self).wf(),
        ensures
            final(self).wf(),
            final(self).filter == old(self).filter,
            final(self).position_fn == old(self).position_fn,
            exists|all: Seq<E>| #[trigger]
                old(self).drains(old(self).buffer@, all) && first_out(all, final(self).buffer@, r),
    {
        self.drain_broadcast();
        self.buffer.pop_front()
    }

    /// Whether the buffer is empty. The channel is not looked at.
    pub fn is_empty(&self) -> (b: bool)
        ensures
            b == (self.buffer@.len() == 0),
    {
        self.buffer.len() == 0
    }

    fn should_accept(&self, event: &E) -> (b: bool)
        requires
            self.wf(),
        ensures
            self.may_take(*event, b),
    {
        match (&self.filter, &self.position_fn) {
            (Some(filter), Some(position_fn)) => event_passes_filter(position_fn(event), filter),
            _ => true,
        }
    }
}

/// Whether the oldest item, if there was one, was taken out.
pub open spec fn first_out<E>(before: Seq<E>, after: Seq<E>, r: Option<E>) -> bool {
    if before.len() == 0 {
        r is None && after == before
    } else {
        r == Some(before[0]) && after == before.skip(1)
    }
}

/// What is held once an event came: where there is no room for it the oldest one is dropped.
pub open spec fn pushed_on<E>(capacity: usize, held: Seq<E>, event: E) -> Seq<E> {
    if held.len() >= capacity && held.len() > 0 {
        held.skip(1).push(event)
    } else {
        held.push(event)
    }
}

/// The newest events, up to a number.
pub struct SimpleEventBuffer<E> {
    pub events: VecDeque<E>,
    pub capacity: usize,
}

impl<E> View for SimpleEventBuffer<E> {
    type V = Seq<E>;

    open spec fn view(&self) -> Seq<E> {
        self.events@
    }
}

impl<E> SimpleEventBuffer<E> {
    /// No more events are held than there is room for; there is room for one at least.
    pub open spec fn wf(&self) -> bool {
        self@.len() <= self.capacity || self@.len() <= 1
    }

    pub fn new(capacity: usize) -> (b: Self)
        ensures
            b.wf(),
            b@ == Seq::<E>::empty(),
            b.capacity == capacity,
    {
        SimpleEventBuffer { events: VecDeque::new(), capacity }
    }

    /// Adds an event. Without room for it the oldest one is dropped.
    pub fn push(&mut self, event: E)
        ensures
            final(self).capacity == old(self).capacity,
            final(self)@ == pushed_on(old(self).capacity, old(self)@, event),
            old(self).wf() ==> final(self).wf(),
    {
        if self.events.len() >= self.capacity {
            self.events.pop_front();
        }
        self.events.push_back(event);
    }

    /// Takes the oldest event out.
    pub fn pop(&mut self) -> (r: Option<E>)
        ensures
            final(self).capacity == old(self).capacity,
            first_out(old(self)@, final(self)@, r),
            old(self).wf() ==> final(self).wf(),
    {
        self.events.pop_front()
    }

    pub fn is_empty(&self) -> (b: bool)
        ensures
            b == (self@.len() == 0),
    {
        self.events.len() == 0
    }

    /// Number of events.
    pub fn len(&self) -> (n: usize)
        ensures
            n == self@.len(),
    {
        self.events.len()
    }
}

/// What a buffer of a capacity holds after a series of events was pushed.
pub open spec fn pushed_all<E>(capacity: usize, events: Seq<E>) -> Seq<E>
    decreases events.len(),
{
    if events.len() == 0 {
        Seq::empty()
    } else {
        pushed_on(capacity, pushed_all(capacity, events.drop_last()), events.last())
    }
}

/// Law: a buffer holds the newest events in the order in which they came, as many as
/// it has room for, and one at least.
pub proof fn newest_events_are_held<E>(capacity: usize, events: Seq<E>)
    ensures
        ({
            let room = if capacity == 0 { 1 } else { capacity as int };
            pushed_all(capacity, events) == if events.len() <= room {
                events
            } else {
                events.skip(events.len() - room)
            }
        }),
    decreases events.len(),
{
    if events.len() > 0 {
        newest_events_are_held(capacity, events.drop_last());
        let room = if capacity == 0 { 1 } else { capacity as int };
        let held = pushed_all(capacity, events);
        if events.len() <= room {
            assert(held =~= events);
        } else {
            assert(held =~= events.skip(events.len() - room));
        }
    } else {
        assert(pushed_all(capacity, events) =~= events);
    }
}

/// Law: a rectangle lets an event through that takes place on one of its tiles, at either end
/// where there are two, with the edges as its own; everywhere is in any, nowhere in none.
pub proof fn events_pass_by_place(f: SpatialFilter, x: u16, y: u16, p: u16, q: u16)
    ensures
        EventPosition::Single(x, y).passes(f) <==> !(x < f.x_min || x > f.x_max || y < f.y_min || y
            > f.y_max),
        EventPosition::Dual(x, y, p, q).passes(f) <==> EventPosition::Single(x, y).passes(f)
            || EventPosition::Single(p, q).passes(f),
        EventPosition::Dual(x, y, p, q).passes(f) == EventPosition::Dual(p, q, x, y).passes(f),
        EventPosition::Dual(x, y, x, y).passes(f) == EventPosition::Single(x, y).passes(f),
        EventPosition::Always.passes(f),
        !EventPosition::Never.passes(f),
{
}

/// Law: of what was received those events are taken in that are marked, and nothing else.
pub proof fn marked_events_are_taken<E>(batch: Seq<Received<E>>, marks: Seq<bool>, e: E)
    requires
        marks.len() == batch.len(),
    ensures
        taken(batch, marks).contains(e) <==> exists|i: int|
            0 <= i < batch.len() && #[trigger] batch[i] == Received::Event(e) && marks[i],
        taken(batch, marks).len() <= batch.len(),
    decreases batch.len(),
{
    if batch.len() > 0 {
        let head = batch.drop_last();
        let less = marks.drop_last();
        marked_events_are_taken(head, less, e);
        lemma_taken_prefix(head, marks, less);
        let before = taken(head, marks);
        let all = taken(batch, marks);
        let n = batch.len() - 1;
        if all.contains(e) {
            let k = choose|k: int| 0 <= k < all.len() && all[k] == e;
            if k < before.len() {
                assert(before.contains(e));
                let i = choose|i: int|
                    0 <= i < head.len() && #[trigger] head[i] == Received::Event(e) && less[i];
                assert(batch[i] == Received::Event(e) && marks[i]);
            } else {
                assert(batch[n] == Received::Event(e) && marks[n]);
            }
        }
        if exists|i: int|
            0 <= i < batch.len() && #[trigger] batch[i] == Received::Event(e) && marks[i] {
            let i = choose|i: int|
                0 <= i < batch.len() && #[trigger] batch[i] == Received::Event(e) && marks[i];
            if i < n {
                assert(head[i] == Received::Event(e) && less[i]);
                let k = choose|k: int| 0 <= k < before.len() && before[k] == e;
                assert(all[k] == e);
            } else {
                assert(all[before.len() as int] == e);
            }
        }
    }
}

/// Law: the oldest event is taken out first, and the others stay in their order.
pub proof fn the_oldest_comes_out<E>(before: Seq<E>, after: Seq<E>, r: Option<E>)
    requires
        first_out(before, after, r),
    ensures
        r is Some <==> before.len() > 0,
        r is None ==> after.len() == 0,
        r matches Some(e) ==> e == before[0] && after.len() + 1 == before.len() && forall|i: int|
            0 <= i < after.len() ==> #[trigger] after[i] == before[i + 1],
{
}

} // verus!
