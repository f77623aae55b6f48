//! The lock-free rings between the control side, the input callback and the output
//! callback. They are those of `rtrb`; each end of a ring belongs to one thread.
//!
//! The other end of a ring is at work at the same time. So of each end it is said what has
//! gone through it so far, which nobody else can change, and how many slots it knows to be
//! at its disposal, which the other end can only add to.
use crate::schedule::{Parcel, Schedule};
use vstd::prelude::*;

verus! {

/// The writing end of a ring.
#[verifier::external_type_specification]
#[verifier::external_body]
#[verifier::reject_recursive_types(T)]
pub struct ExProducer<T>(rtrb::Producer<T>);

/// The reading end of a ring.
#[verifier::external_type_specification]
#[verifier::external_body]
#[verifier::reject_recursive_types(T)]
pub struct ExConsumer<T>(rtrb::Consumer<T>);

/// The samples that have gone into a ring through this end, in their order.
pub uninterp spec fn samples_sent(p: rtrb::Producer<u32>) -> Seq<u32>;

/// The free slots that this end of a ring knows of (`Producer::cached_slots`).
pub uninterp spec fn room(p: rtrb::Producer<u32>) -> nat;

/// The samples that have come out of a ring through this end, in their order.
pub uninterp spec fn samples_taken(c: rtrb::Consumer<u32>) -> Seq<u32>;

/// The filled slots that this end of a ring knows of (`Consumer::cached_slots`).
pub uninterp spec fn stock(c: rtrb::Consumer<u32>) -> nat;

/// The schedules that have gone into a ring through this end, in their order.
pub uninterp spec fn schedules_sent(p: rtrb::Producer<Parcel>) -> Seq<Schedule>;

/// The free slots that this end of a ring knows of (`Producer::cached_slots`).
pub uninterp spec fn queue_room(p: rtrb::Producer<Parcel>) -> nat;

/// The schedules that have come out of a ring through this end, in their order.
pub uninterp spec fn schedules_taken(c: rtrb::Consumer<Parcel>) -> Seq<Schedule>;

/// The filled slots that this end of a ring knows of (`Consumer::cached_slots`).
pub uninterp spec fn queue_stock(c: rtrb::Consumer<Parcel>) -> nat;

/// Calls `RingBuffer::new`: the two ends of a ring for samples, through which nothing has
/// gone yet, and all of whose slots are known to be free.
#[verifier::external_body]
pub(crate) fn new_sample_ring(capacity: usize) -> (r: (rtrb::Producer<u32>, rtrb::Consumer<u32>))
    requires
        capacity <= usize::MAX / 16,
    ensures
        samples_sent(r.0) == Seq::<u32>::empty(),
        room(r.0) == capacity,
        samples_taken(r.1) == Seq::<u32>::empty(),
        stock(r.1) == 0,
{
    rtrb::RingBuffer::<u32>::new(capacity)
}

/// Calls `Producer::slots`, which looks how many slots are free: at least as many as were
/// known to be, and from now on known.
#[verifier::external_body]
pub(crate) fn free_slots(p: &mut rtrb::Producer<u32>) -> (n: usize)
    ensures
        room(*final(p)) == n,
        room(*final(p)) >= room(*old(p)),
        samples_sent(*final(p)) == samples_sent(*old(p)),
{
    p.slots()
}

/// Calls `Producer::push`: a sample goes in, and a slot less is free; or the ring is found
/// full, and nothing changes. It is not found full while a slot is known to be free.
#[verifier::external_body]
pub(crate) fn push_sample(p: &mut rtrb::Producer<u32>, v: u32) -> (ok: bool)
    ensures
        room(*old(p)) > 0 ==> ok && room(*final(p)) == room(*old(p)) - 1,
        ok ==> samples_sent(*final(p)) == samples_sent(*old(p)).push(v),
        !ok ==> samples_sent(*final(p)) == samples_sent(*old(p)) && room(*final(p)) == 0,
{
    p.push(v).is_ok()
}

/// Calls `Consumer::slots`, which looks how many slots are filled: at least as many as were
/// known to be, and from now on known.
#[verifier::external_body]
pub(crate) fn filled_slots(c: &mut rtrb::Consumer<u32>) -> (n: usize)
    ensures
        stock(*final(c)) == n,
        stock(*final(c)) >= stock(*old(c)),
        samples_taken(*final(c)) == samples_taken(*old(c)),
{
    c.slots()
}

/// Calls `Consumer::pop`: the next sample comes out, and a slot less is filled; or the ring
/// is found empty, and nothing changes. It is not found empty while a slot is known to be
/// filled.
#[verifier::external_body]
pub(crate) fn pop_sample(c: &mut rtrb::Consumer<u32>) -> (r: Option<u32>)
    ensures
        stock(*old(c)) > 0 ==> r is Some && stock(*final(c)) == stock(*old(c)) - 1,
        match r {
            Some(v) => samples_taken(*final(c)) == samples_taken(*old(c)).push(v),
            None => samples_taken(*final(c)) == samples_taken(*old(c)) && stock(*final(c)) == 0,
        },
{
    c.pop().ok()
}

/// Calls `Consumer::read_chunk` and `ReadChunk::commit_all`: the next `n` samples come out
/// and are dropped; or there are not that many, and none comes out. There are that many if
/// that many slots are known to be filled.
#[verifier::external_body]
pub(crate) fn drop_samples(c: &mut rtrb::Consumer<u32>, n: usize) -> (ok: bool)
    ensures
        n <= stock(*old(c)) ==> ok && stock(*final(c)) == stock(*old(c)) - n,
        ok ==> samples_taken(*final(c)).len() == samples_taken(*old(c)).len() + n && samples_taken(
            *old(c),
        ).is_prefix_of(samples_taken(*final(c))),
        !ok ==> samples_taken(*final(c)) == samples_taken(*old(c)) && stock(*old(c)) <= stock(
            *final(c),
        ) < n,
{
    match c.read_chunk(n) {
        Ok(chunk) => {
            chunk.commit_all();
            true
        },
        Err(_) => false,
    }
}

/// Calls `RingBuffer::new`: the two ends of a ring for schedules, through which nothing has
/// gone yet, and all of whose slots are known to be free.
#[verifier::external_body]
pub(crate) fn new_schedule_ring(capacity: usize) -> (r: (
    rtrb::Producer<Parcel>,
    rtrb::Consumer<Parcel>,
))
    requires
        capacity <= usize::MAX / 32,
    ensures
        schedules_sent(r.0) == Seq::<Schedule>::empty(),
        queue_room(r.0) == capacity,
        schedules_taken(r.1) == Seq::<Schedule>::empty(),
        queue_stock(r.1) == 0,
{
    rtrb::RingBuffer::<Parcel>::new(capacity)
}

/// Calls `Producer::push`: a schedule goes in, and a slot less is free; or the ring is
/// found full, and the schedule is handed back. It is not found full while a slot is known
/// to be free.
#[verifier::external_body]
pub(crate) fn push_schedule(p: &mut rtrb::Producer<Parcel>, s: Parcel) -> (r: Result<
    (),
    Parcel,
>)
    ensures
        queue_room(*old(p)) > 0 ==> r is Ok && queue_room(*final(p)) == queue_room(*old(p)) - 1,
        match r {
            Ok(()) => schedules_sent(*final(p)) == schedules_sent(*old(p)).push(s.schedule()),
            Err(t) => t == s && schedules_sent(*final(p)) == schedules_sent(*old(p)) && queue_room(
                *final(p),
            ) == 0,
        },
{
    match p.push(s) {
        Ok(()) => Ok(()),
        Err(rtrb::PushError::Full(s)) => Err(s),
    }
}

/// Calls `Consumer::slots`, which looks how many schedules are waiting: at least as many as
/// were known to be, and from now on known.
#[verifier::external_body]
pub(crate) fn waiting_schedules(c: &mut rtrb::Consumer<Parcel>) -> (n: usize)
    ensures
        queue_stock(*final(c)) == n,
        queue_stock(*final(c)) >= queue_stock(*old(c)),
        schedules_taken(*final(c)) == schedules_taken(*old(c)),
{
    c.slots()
}

/// Calls `Consumer::pop`: the next schedule comes out, and a slot less is filled; or the
/// ring is found empty, and nothing changes. It is not found empty while a slot is known to
/// be filled.
#[verifier::external_body]
pub(crate) fn pop_schedule(c: &mut rtrb::Consumer<Parcel>) -> (r: Option<Parcel>)
    ensures
        queue_stock(*old(c)) > 0 ==> r is Some && queue_stock(*final(c)) == queue_stock(*old(c))
            - 1,
        match r {
            Some(s) => schedules_taken(*final(c)) == schedules_taken(*old(c)).push(s.schedule()),
            None => schedules_taken(*final(c)) == schedules_taken(*old(c)) && queue_stock(
                *final(c),
            ) == 0,
        },
{
    c.pop().ok()
}

} // verus!
