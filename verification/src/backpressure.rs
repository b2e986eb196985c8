//! A cap on the requests in flight.
//!
//! A request takes a slot before it is handled and holds it until its whole response body was
//! sent, or dropped. A request that gets none is told to slow down.

use crate::error::{S3Error, S3ErrorCode};
use vstd::prelude::*;

verus! {

/// The number of slots for a configured cap: at least one.
pub open spec fn capacity_of(max_concurrent: usize) -> nat {
    if max_concurrent == 0 {
        1
    } else {
        max_concurrent as nat
    }
}

/// The number of slots: the configured one, at least one.
pub fn capacity(max_concurrent: usize) -> (n: usize)
    ensures
        n == capacity_of(max_concurrent),
{
    if max_concurrent < 1 {
        1
    } else {
        max_concurrent
    }
}

/// The answer to a request that gets no slot: a `503` that clients know to back off on.
pub fn slow_down() -> (e: S3Error)
    ensures
        e.code == S3ErrorCode::SlowDown,
        e.message matches Some(m) && m@ == "too many requests in flight; please retry later"@,
        e.source is None,
        e.request_id is None,
{
    S3Error::with_message(
        S3ErrorCode::SlowDown,
        "too many requests in flight; please retry later".to_string(),
    )
}

/// What polling a response body came to.
#[derive(Debug, Clone, Copy, PartialEq, Eq, Structural)]
pub enum FramePoll {
    /// Nothing yet.
    Pending,
    /// A frame, or an error in its place.
    Frame,
    /// The end of the body.
    End,
}

/// What becomes of a request.
#[derive(Debug, Clone, Copy, PartialEq, Eq, Structural)]
pub enum Admit {
    /// It is handled, and holds a slot.
    Handle,
    /// It is told to slow down, and not handled.
    SlowDown,
}

/// The slots of a service: how many there are, and how many are held.
#[derive(Debug)]
pub struct Admission {
    capacity: usize,
    held: usize,
}

impl Admission {
    /// The number of slots.
    pub closed spec fn slots(&self) -> nat {
        self.capacity as nat
    }

    /// The number of slots that are held.
    pub closed spec fn held(&self) -> nat {
        self.held as nat
    }

    /// No more slots are held than there are.
    pub open spec fn wf(&self) -> bool {
        self.held() <= self.slots()
    }

    /// Slots for a configured cap, none of them held.
    pub fn new(max_concurrent: usize) -> (r: Self)
        ensures
            r.wf(),
            r.slots() == capacity_of(max_concurrent),
            r.held() == 0,
    {
        Admission { capacity: capacity(max_concurrent), held: 0 }
    }

    /// How a request that arrives is met: it gets a slot exactly if one is free.
    pub open spec fn admits(self, post: Admission, a: Admit) -> bool {
        &&& post.slots() == self.slots()
        &&& if self.held() < self.slots() {
            a == Admit::Handle && post.held() == self.held() + 1
        } else {
            a == Admit::SlowDown && post.held() == self.held()
        }
    }

    /// Meet a request that arrives.
    pub fn arrive(&mut self) -> (a: Admit)
        ensures
            old(self).wf() ==> final(self).wf(),
            old(self).admits(*final(self), a),
    {
        if self.held < self.capacity {
            self.held = self.held + 1;
            Admit::Handle
        } else {
            Admit::SlowDown
        }
    }

    /// One slot fewer is held.
    pub open spec fn frees(self, post: Admission) -> bool {
        &&& post.slots() == self.slots()
        &&& post.held() == if self.held() > 0 {
            (self.held() - 1) as nat
        } else {
            0
        }
    }

    /// Give a slot back.
    fn free(&mut self)
        ensures
            old(self).frees(*final(self)),
    {
        if self.held > 0 {
            self.held = self.held - 1;
        }
    }
}

/// The slot of a request while its response body is sent.
#[derive(Debug)]
pub struct PermitSlot {
    taken: bool,
}

impl PermitSlot {
    /// The slot is still taken.
    pub closed spec fn held(&self) -> bool {
        self.taken
    }

    /// The slot of a request that was admitted.
    pub fn new() -> (r: Self)
        ensures
            r.held(),
    {
        PermitSlot { taken: true }
    }

    /// Giving the slot back, once.
    pub open spec fn gives_back(
        self,
        service: Admission,
        post: PermitSlot,
        service_post: Admission,
    ) -> bool {
        &&& !post.held()
        &&& if self.held() {
            service.frees(service_post)
        } else {
            post == self && service_post == service
        }
    }

    /// Give the slot back, when the body was dropped. Doing so again changes nothing.
    pub fn release(&mut self, service: &mut Admission)
        ensures
            old(self).gives_back(*old(service), *final(self), *final(service)),
            old(service).wf() ==> final(service).wf(),
    {
        if self.taken {
            self.taken = false;
            service.free();
        }
    }

    /// What polling the body does to the slot: the end of the body gives it back, and nothing
    /// else does.
    pub open spec fn polls(
        self,
        service: Admission,
        poll: FramePoll,
        post: PermitSlot,
        service_post: Admission,
    ) -> bool {
        if poll == FramePoll::End {
            self.gives_back(service, post, service_post)
        } else {
            post == self && service_post == service
        }
    }

    /// Note what polling the body came to.
    pub fn polled(&mut self, service: &mut Admission, poll: FramePoll)
        ensures
            old(self).polls(*old(service), poll, *final(self), *final(service)),
            old(service).wf() ==> final(service).wf(),
    {
        if poll == FramePoll::End {
            self.release(service);
        }
    }
}

// ---------------------------------------------------------------------------------------
// The cap, over any history
// ---------------------------------------------------------------------------------------

/// A service and the slots of all requests that it has admitted so far, in their order.
pub struct Service {
    pub admission: Admission,
    pub requests: Seq<PermitSlot>,
}

/// The number of slots that are still held.
pub open spec fn in_flight(requests: Seq<PermitSlot>) -> nat
    decreases requests.len(),
{
    if requests.len() == 0 {
        0
    } else {
        in_flight(requests.drop_last()) + if requests.last().held() {
            1nat
        } else {
            0nat
        }
    }
}

/// What can happen to a service.
pub enum Event {
    /// A request arrives and is met so.
    Arrives(Admit),
    /// The body of an admitted request is polled.
    Polled(int, FramePoll),
    /// The body of an admitted request is dropped.
    Dropped(int),
}

impl Service {
    /// The service before its first request.
    pub open spec fn fresh(self, max_concurrent: usize) -> bool {
        &&& self.admission.slots() == capacity_of(max_concurrent)
        &&& self.admission.held() == 0
        &&& self.requests.len() == 0
    }

    /// `e` leads from this state to `post`.
    pub open spec fn happens(self, e: Event, post: Service) -> bool {
        match e {
            Event::Arrives(a) => {
                &&& self.admission.admits(post.admission, a)
                &&& match a {
                    Admit::Handle => exists|slot: PermitSlot| #[trigger]
                        slot.held() && post.requests == self.requests.push(slot),
                    Admit::SlowDown => post.requests == self.requests,
                }
            },
            Event::Polled(i, poll) => {
                &&& 0 <= i < self.requests.len()
                &&& self.requests[i].polls(
                    self.admission,
                    poll,
                    post.requests[i],
                    post.admission,
                )
                &&& post.requests == self.requests.update(i, post.requests[i])
            },
            Event::Dropped(i) => {
                &&& 0 <= i < self.requests.len()
                &&& self.requests[i].gives_back(
                    self.admission,
                    post.requests[i],
                    post.admission,
                )
                &&& post.requests == self.requests.update(i, post.requests[i])
            },
        }
    }

    /// The slots held are those of the requests in flight, and no more than there are.
    pub open spec fn consistent(self) -> bool {
        &&& self.admission.held() == in_flight(self.requests)
        &&& in_flight(self.requests) <= self.admission.slots()
    }
}

/// Changing one slot changes the count by it.
proof fn lemma_in_flight_update(requests: Seq<PermitSlot>, i: int, slot: PermitSlot)
    requires
        0 <= i < requests.len(),
    ensures
        in_flight(requests.update(i, slot)) == in_flight(requests) - (if requests[i].held() {
            1int
        } else {
            0int
        }) + (if slot.held() {
            1int
        } else {
            0int
        }),
    decreases requests.len(),
{
    let after = requests.update(i, slot);
    if i == requests.len() - 1 {
        assert(after.drop_last() =~= requests.drop_last());
    } else {
        assert(after.drop_last() =~= requests.drop_last().update(i, slot));
        lemma_in_flight_update(requests.drop_last(), i, slot);
    }
}

/// What happens keeps a service consistent. A request that arrives is handled exactly if fewer
/// requests are in flight than there are slots, and is then in flight itself; it stays so until
/// its body ends or is dropped, and what happens to other requests does not matter to it.
pub proof fn law_admission(s: Service, e: Event, post: Service)
    requires
        s.consistent(),
        s.happens(e, post),
    ensures
        post.consistent(),
        post.admission.slots() == s.admission.slots(),
        e matches Event::Arrives(a) ==> (a == Admit::Handle <==> in_flight(s.requests)
            < s.admission.slots()) && (a == Admit::Handle ==> post.requests.len()
            == s.requests.len() + 1 && post.requests.last().held()),
        forall|i: int|
            #![trigger post.requests[i]]
            0 <= i < s.requests.len() ==> post.requests[i].held() == (s.requests[i].held() && e
                != Event::Polled(i, FramePoll::End) && e != Event::Dropped(i)),
{
    match e {
        Event::Arrives(a) => {
            if a == Admit::Handle {
                assert(post.requests.drop_last() =~= s.requests);
            }
        },
        Event::Polled(i, _) => {
            lemma_in_flight_update(s.requests, i, post.requests[i]);
        },
        Event::Dropped(i) => {
            lemma_in_flight_update(s.requests, i, post.requests[i]);
        },
    }
}

/// `history` are the states of a service, `events` what happened between them.
pub open spec fn is_history(
    max_concurrent: usize,
    history: Seq<Service>,
    events: Seq<Event>,
) -> bool {
    &&& history.len() == events.len() + 1
    &&& history[0].fresh(max_concurrent)
    &&& forall|i: int|
        0 <= i < events.len() ==> history[i].happens(#[trigger] events[i], history[i + 1])
}

/// The cap holds over any history: never are more requests in flight than the configured
/// number, or one.
pub proof fn law_cap_holds(
    max_concurrent: usize,
    history: Seq<Service>,
    events: Seq<Event>,
    n: int,
)
    requires
        is_history(max_concurrent, history, events),
        0 <= n < history.len(),
    ensures
        history[n].consistent(),
        history[n].admission.slots() == capacity_of(max_concurrent),
        in_flight(history[n].requests) <= capacity_of(max_concurrent),
    decreases n,
{
    if n > 0 {
        law_cap_holds(max_concurrent, history, events, n - 1);
        assert(history[n - 1].happens(events[n - 1], history[n]));
        law_admission(history[n - 1], events[n - 1], history[n]);
    }
}

/// There are as many slots as configured, and at least one; none is held at first.
pub proof fn law_slots_as_configured(max_concurrent: usize, n: usize, service: Admission)
    requires
        call_ensures(capacity, (max_concurrent,), n),
        call_ensures(Admission::new, (max_concurrent,), service),
    ensures
        max_concurrent >= 1 ==> n == max_concurrent,
        max_concurrent == 0 ==> n == 1,
        service.slots() == n,
        service.held() == 0,
{
}

/// A request is handled just when a slot is free, and then takes one; else nothing changes.
pub proof fn law_arrivals(service: &mut Admission, a: Admit)
    requires
        call_ensures(Admission::arrive, (service,), a),
    ensures
        a == Admit::Handle <==> old(service).held() < old(service).slots(),
        a == Admit::Handle ==> final(service).held() == old(service).held() + 1,
        a == Admit::SlowDown ==> final(service).held() == old(service).held(),
        final(service).slots() == old(service).slots(),
{
}

/// A slot is given back once: by the first release, and by no other.
pub proof fn law_slot_is_given_back_once(slot: &mut PermitSlot, service: &mut Admission)
    requires
        call_ensures(PermitSlot::release, (slot, service), ()),
    ensures
        !final(slot).held(),
        final(service).slots() == old(service).slots(),
        old(slot).held() && old(service).held() > 0 ==> final(service).held() == old(service).held()
            - 1,
        !old(slot).held() ==> final(service).held() == old(service).held(),
{
}

/// The end of a body, and no other frame, gives its slot back.
pub proof fn law_slot_is_held_to_the_end(
    slot: &mut PermitSlot,
    service: &mut Admission,
    poll: FramePoll,
)
    requires
        call_ensures(PermitSlot::polled, (slot, service, poll), ()),
    ensures
        final(slot).held() <==> old(slot).held() && poll != FramePoll::End,
        final(service).slots() == old(service).slots(),
        old(slot).held() && poll == FramePoll::End && old(service).held() > 0
            ==> final(service).held() == old(service).held() - 1,
        !old(slot).held() || poll != FramePoll::End ==> final(service).held() == old(service).held(),
{
}

/// A request that is handled holds a slot.
pub proof fn law_admitted_holds_a_slot(slot: PermitSlot)
    requires
        call_ensures(PermitSlot::new, (), slot),
    ensures
        slot.held(),
{
}

/// A request that is not handled is told to come back later.
pub proof fn law_refused_is_told_to_slow_down(e: S3Error)
    requires
        call_ensures(slow_down, (), e),
    ensures
        e.code == S3ErrorCode::SlowDown,
        e.message matches Some(m) && m@ == "too many requests in flight; please retry later"@,
        e.source is None && e.request_id is None,
{
}

} // verus!
