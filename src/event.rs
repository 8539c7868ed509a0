use vstd::prelude::*;

use crate::components::{AirplaneId, FlightPlan, Location};

verus! {

/// An occurrence in the simulation that outside consumers may observe.
#[derive(Debug)]
pub enum Event {
    GameStarted,
    AirplaneDetected(AirplaneId, Location, FlightPlan),
}

/// What an event says, with the flight plan as its sequence of tiles.
pub enum EventView {
    GameStarted,
    AirplaneDetected(AirplaneId, Location, Seq<(int, int)>),
}

impl View for Event {
    type V = EventView;

    open spec fn view(&self) -> EventView {
        match self {
            Event::GameStarted => EventView::GameStarted,
            Event::AirplaneDetected(id, loc, plan) => EventView::AirplaneDetected(*id, *loc, plan@),
        }
    }
}

impl Event {
    /// A copy of this event for another consumer.
    pub fn duplicate(&self) -> (r: Event)
        ensures
            r@ == self@,
    {
        match self {
            Event::GameStarted => Event::GameStarted,
            Event::AirplaneDetected(id, loc, plan) => Event::AirplaneDetected(*id, *loc, plan.duplicate()),
        }
    }
}

/// Publishing failed: no receiver exists or the bus was shut down. The event
/// is handed back.
#[derive(Debug)]
pub struct SendError(pub Event);

/// A consumer's handle on the bus.
#[derive(Debug)]
pub struct Receiver {
    slot: usize,
}

impl Receiver {
    /// The place of this receiver's queue on its bus.
    pub closed spec fn index(&self) -> nat {
        self.slot as nat
    }
}

/// An ordered fan-out channel: every receiver gets every event published
/// while it is subscribed, in publication order. An event is held for a
/// receiver until that receiver reads it.
#[derive(Debug)]
pub struct EventBus {
    queues: Vec<Vec<Event>>,
    live: Vec<bool>,
    closed: bool,
}

pub open spec fn views_of(q: Seq<Event>) -> Seq<EventView> {
    q.map_values(|e: Event| e@)
}

/// Publishing `e` turned `b0` into `b1`: every subscribed receiver's queue
/// got `e` at its end, and nothing else changed.
pub open spec fn delivered(b0: EventBus, b1: EventBus, e: EventView) -> bool {
    &&& b1.subscribed() == b0.subscribed()
    &&& b1.is_shut_down() == b0.is_shut_down()
    &&& b1.pending().len() == b0.pending().len()
    &&& forall|i: int| 0 <= i < b0.pending().len() ==> #[trigger] b1.pending()[i] == if b0.subscribed()[i] {
        b0.pending()[i].push(e)
    } else {
        b0.pending()[i]
    }
}

/// `b1` holds exactly what `b0` holds.
pub open spec fn unchanged(b0: EventBus, b1: EventBus) -> bool {
    &&& b1.subscribed() == b0.subscribed()
    &&& b1.is_shut_down() == b0.is_shut_down()
    &&& b1.pending() == b0.pending()
}

impl EventBus {
    /// For each receiver ever handed out, whether it is still subscribed.
    pub closed spec fn subscribed(&self) -> Seq<bool> {
        self.live@
    }

    /// For each receiver, the events it has not read yet, oldest first.
    pub closed spec fn pending(&self) -> Seq<Seq<EventView>> {
        self.queues@.map_values(|q: Vec<Event>| views_of(q@))
    }

    pub closed spec fn is_shut_down(&self) -> bool {
        self.closed
    }

    pub closed spec fn wf(&self) -> bool {
        &&& self.queues@.len() == self.live@.len()
        &&& forall|i: int| 0 <= i < self.live@.len() && !self.live@[i] ==> (#[trigger] self.queues@[i])@.len() == 0
    }

    /// Whether a publication would be delivered.
    pub open spec fn accepts(&self) -> bool {
        &&& !self.is_shut_down()
        &&& exists|i: int| 0 <= i < self.subscribed().len() && #[trigger] self.subscribed()[i]
    }

    pub fn new() -> (r: EventBus)
        ensures
            r.wf(),
            r.subscribed().len() == 0,
            r.pending().len() == 0,
            !r.is_shut_down(),
    {
        EventBus { queues: Vec::new(), live: Vec::new(), closed: false }
    }

    /// Registers a consumer; it receives the events published from now on.
    pub fn subscribe(&mut self) -> (r: Receiver)
        requires
            old(self).wf(),
        ensures
            final(self).wf(),
            r.index() == old(self).subscribed().len(),
            final(self).subscribed() == old(self).subscribed().push(true),
            final(self).pending() == old(self).pending().push(Seq::empty()),
            final(self).is_shut_down() == old(self).is_shut_down(),
    {
        let slot = self.queues.len();
        self.queues.push(Vec::new());
        self.live.push(true);
        proof {
            assert(self.queues@[slot as int]@.len() == 0);
            assert(views_of(self.queues@[slot as int]@) =~= Seq::<EventView>::empty());
            assert forall|k: int| 0 <= k < old(self).pending().len() implies #[trigger] self.pending()[k] == old(self).pending()[k] by {
                assert(self.queues@[k] == old(self).queues@[k]);
            }
            assert(self.pending() =~= old(self).pending().push(Seq::empty()));
        }
        Receiver { slot }
    }

    /// Ends a subscription: the receiver's unread events are released and it
    /// gets no more.
    pub fn unsubscribe(&mut self, rx: Receiver)
        requires
            old(self).wf(),
        ensures
            final(self).wf(),
            final(self).is_shut_down() == old(self).is_shut_down(),
            rx.index() < old(self).subscribed().len() ==> {
                &&& final(self).subscribed() == old(self).subscribed().update(rx.index() as int, false)
                &&& final(self).pending() == old(self).pending().update(rx.index() as int, Seq::empty())
            },
            rx.index() >= old(self).subscribed().len() ==> unchanged(*old(self), *final(self)),
    {
        if rx.slot < self.queues.len() {
            self.queues.set(rx.slot, Vec::new());
            self.live.set(rx.slot, false);
            proof {
                let j = rx.index() as int;
                assert(views_of(self.queues@[j]@) =~= Seq::<EventView>::empty());
                assert forall|k: int| 0 <= k < old(self).pending().len() && k != j implies #[trigger] self.pending()[k] == old(self).pending()[k] by {
                    assert(self.queues@[k] == old(self).queues@[k]);
                }
                assert(self.pending() =~= old(self).pending().update(j, Seq::empty()));
            }
        }
    }

    /// Shuts the bus down: later publications fail.
    pub fn shut_down(&mut self)
        requires
            old(self).wf(),
        ensures
            final(self).wf(),
            final(self).subscribed() == old(self).subscribed(),
            final(self).pending() == old(self).pending(),
            final(self).is_shut_down(),
    {
        self.closed = true;
    }

    pub fn is_open(&self) -> (r: bool)
        requires
            self.wf(),
        ensures
            r == self.accepts(),
    {
        if self.closed {
            return false;
        }
        let mut i: usize = 0;
        while i < self.live.len()
            invariant
                !self.closed,
                i <= self.live@.len(),
                forall|k: int| 0 <= k < i ==> !(#[trigger] self.live@[k]),
            decreases self.live@.len() - i,
        {
            if self.live[i] {
                assert(self.subscribed() == self.live@);
                assert(!self.is_shut_down());
                assert(0 <= i < self.subscribed().len() && self.subscribed()[i as int]);
                assert(self.accepts());
                return true;
            }
            i = i + 1;
        }
        false
    }

    /// Publishes `e` to every subscribed receiver, after the events each has
    /// not read yet. Fails, handing `e` back and changing nothing, when no
    /// receiver is subscribed or the bus is shut down.
    pub fn send(&mut self, e: Event) -> (r: Result<(), SendError>)
        requires
            old(self).wf(),
        ensures
            final(self).wf(),
            r is Ok <==> old(self).accepts(),
            r is Ok ==> delivered(*old(self), *final(self), e@),
            r matches Err(err) ==> err.0@ == e@ && unchanged(*old(self), *final(self)),
    {
        if !self.is_open() {
            return Err(SendError(e));
        }
        let mut i: usize = 0;
        while i < self.queues.len()
            invariant
                self.wf(),
                i <= self.queues@.len(),
                self.live@ == old(self).live@,
                self.closed == old(self).closed,
                self.queues@.len() == old(self).queues@.len(),
                forall|k: int| 0 <= k < i ==> #[trigger] views_of(self.queues@[k]@) == if self.live@[k] {
                    views_of(old(self).queues@[k]@).push(e@)
                } else {
                    views_of(old(self).queues@[k]@)
                },
                forall|k: int| i <= k < self.queues@.len() ==> #[trigger] self.queues@[k] == old(self).queues@[k],
            decreases self.queues@.len() - i,
        {
            if self.live[i] {
                let copy = e.duplicate();
                let ghost before = self.queues@[i as int]@;
                self.queues[i].push(copy);
                assert(views_of(self.queues@[i as int]@) =~= views_of(before).push(e@));
            }
            i = i + 1;
        }
        proof {
            assert forall|k: int| 0 <= k < old(self).pending().len() implies #[trigger] self.pending()[k] == if old(self).subscribed()[k] {
                old(self).pending()[k].push(e@)
            } else {
                old(self).pending()[k]
            } by {
                assert(views_of(self.queues@[k]@) == self.pending()[k]);
            }
        }
        Ok(())
    }

    /// Takes the oldest event `rx` has not read yet, if any.
    pub fn recv(&mut self, rx: &Receiver) -> (r: Option<Event>)
        requires
            old(self).wf(),
        ensures
            final(self).wf(),
            final(self).subscribed() == old(self).subscribed(),
            final(self).is_shut_down() == old(self).is_shut_down(),
            ({
                let i = rx.index() as int;
                if i < old(self).pending().len() && old(self).pending()[i].len() > 0 {
                    &&& r matches Some(ev) && ev@ == old(self).pending()[i][0]
                    &&& final(self).pending() == old(self).pending().update(i, old(self).pending()[i].drop_first())
                } else {
                    &&& r is None
                    &&& final(self).pending() == old(self).pending()
                }
            }),
    {
        if rx.slot < self.queues.len() && self.queues[rx.slot].len() > 0 {
            let ghost before = self.queues@[rx.index() as int]@;
            assert(views_of(before).len() > 0);
            let ev = self.queues[rx.slot].remove(0);
            proof {
                assert(views_of(self.queues@[rx.index() as int]@) =~= views_of(before).drop_first());
                assert(self.pending() =~= old(self).pending().update(rx.index() as int, old(self).pending()[rx.index() as int].drop_first()));
            }
            Some(ev)
        } else {
            None
        }
    }
}

} // verus!
