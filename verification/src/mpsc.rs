//! The bookkeeping of a bounded multi-producer, single-consumer channel: the
//! queue of items in flight, its capacity and the number of live senders.
//!
//! A send that finds room appends its item; a send that finds the queue full
//! has to wait for room, unless no sender is left, in which case it fails.
//! A receive takes the oldest item; with nothing queued it has to wait for
//! one, unless no sender is left, in which case the channel is disconnected.

use vstd::prelude::*;

verus! {

/// The item of a send that failed because the channel is disconnected.
pub struct SendError<T>(pub T);

impl<T> SendError<T> {
    /// The human-readable description of the error.
    pub fn message(&self) -> (s: &'static str)
        ensures
            s@ == "sending on a disconnected channel"@,
    {
        "sending on a disconnected channel"
    }
}

/// Why a receive that does not wait got no item.
#[derive(Debug, PartialEq, Eq, Clone, Copy, Structural)]
pub enum TryRecvError {
    Empty,
    Disconnected,
}

impl TryRecvError {
    /// The human-readable description of the error.
    pub fn message(&self) -> (s: &'static str)
        ensures
            *self == TryRecvError::Empty ==> s@ == "receiving on an empty channel"@,
            *self == TryRecvError::Disconnected ==> s@ == "receiving on a disconnected channel"@,
    {
        match self {
            TryRecvError::Empty => "receiving on an empty channel",
            TryRecvError::Disconnected => "receiving on a disconnected channel",
        }
    }
}

/// Why a receive got no item.
#[derive(Debug, PartialEq, Eq, Clone, Copy, Structural)]
pub enum RecvError {
    Disconnected,
}

impl RecvError {
    /// The human-readable description of the error.
    pub fn message(&self) -> (s: &'static str)
        ensures
            s@ == "receiving on a disconnected channel"@,
    {
        "receiving on a disconnected channel"
    }
}

/// Why a send that does not wait did not enqueue its item; the item is
/// handed back.
pub enum TrySendError<T> {
    /// The queue is full: wait for room and try again.
    Full(T),
    /// The queue is full and no sender is left.
    Disconnected(T),
}

/// What a channel holds: the items in flight, oldest first, the capacity of
/// the queue, and the number of live senders.
pub struct ChannelView<T> {
    pub queue: Seq<T>,
    pub capacity: nat,
    pub senders: nat,
}

impl<T> ChannelView<T> {
    /// The capacity is positive and never exceeded.
    pub open spec fn wf(self) -> bool {
        0 < self.capacity && self.queue.len() <= self.capacity
    }
}

/// A send that does not wait: the channel after it and its outcome.
pub open spec fn send_spec<T>(c: ChannelView<T>, item: T) -> (ChannelView<T>, Result<(), TrySendError<T>>) {
    if c.queue.len() < c.capacity {
        (ChannelView { queue: c.queue.push(item), capacity: c.capacity, senders: c.senders }, Ok(()))
    } else if c.senders == 0 {
        (c, Err(TrySendError::Disconnected(item)))
    } else {
        (c, Err(TrySendError::Full(item)))
    }
}

/// A receive that does not wait: the channel after it and its outcome.
pub open spec fn recv_spec<T>(c: ChannelView<T>) -> (ChannelView<T>, Result<T, TryRecvError>) {
    if c.queue.len() > 0 {
        (ChannelView { queue: c.queue.drop_first(), capacity: c.capacity, senders: c.senders }, Ok(c.queue[0]))
    } else if c.senders == 0 {
        (c, Err(TryRecvError::Disconnected))
    } else {
        (c, Err(TryRecvError::Empty))
    }
}

/// The state that the lock of a channel protects.
pub struct ChannelCore<T> {
    queue: std::collections::VecDeque<T>,
    capacity: usize,
    senders_count: usize,
}

impl<T> View for ChannelCore<T> {
    type V = ChannelView<T>;

    closed spec fn view(&self) -> ChannelView<T> {
        ChannelView { queue: self.queue@, capacity: self.capacity as nat, senders: self.senders_count as nat }
    }
}

/// A channel with room for `capacity` items, nothing queued and one sender.
pub fn channel<T>(capacity: usize) -> (c: ChannelCore<T>)
    requires
        capacity > 0,
    ensures
        c@ == (ChannelView::<T> { queue: Seq::empty(), capacity: capacity as nat, senders: 1 }),
        c@.wf(),
{
    ChannelCore { queue: std::collections::VecDeque::with_capacity(capacity), capacity, senders_count: 1 }
}

impl<T> ChannelCore<T> {
    /// Enqueues `item` if there is room; otherwise hands it back, saying
    /// whether the sender has to wait (`Full`) or no sender is left
    /// (`Disconnected`).
    pub fn try_send(&mut self, item: T) -> (r: Result<(), TrySendError<T>>)
        requires
            old(self)@.wf(),
        ensures
            (final(self)@, r) == send_spec(old(self)@, item),
            final(self)@.wf(),
    {
        if self.queue.len() < self.capacity {
            self.queue.push_back(item);
            Ok(())
        } else if self.senders_count == 0 {
            Err(TrySendError::Disconnected(item))
        } else {
            Err(TrySendError::Full(item))
        }
    }

    /// Takes the oldest item; with nothing queued, says whether the receiver
    /// has to wait (`Empty`) or no sender is left (`Disconnected`).
    pub fn try_recv(&mut self) -> (r: Result<T, TryRecvError>)
        requires
            old(self)@.wf(),
        ensures
            (final(self)@, r) == recv_spec(old(self)@),
            final(self)@.wf(),
    {
        match self.queue.pop_front() {
            Some(item) => Ok(item),
            None => {
                if self.senders_count == 0 {
                    Err(TryRecvError::Disconnected)
                } else {
                    Err(TryRecvError::Empty)
                }
            },
        }
    }

    /// Counts one more sender (the count wraps around at `usize::MAX`).
    pub fn add_sender(&mut self)
        ensures
            final(self)@.queue == old(self)@.queue,
            final(self)@.capacity == old(self)@.capacity,
            final(self)@.senders == (if old(self)@.senders == usize::MAX { 0 } else { old(self)@.senders + 1 }),
    {
        self.senders_count = self.senders_count.wrapping_add(1);
    }

    /// Counts one sender less (the count wraps around at 0); says whether it
    /// was the last one, in which case every waiting party is to be woken.
    pub fn remove_sender(&mut self) -> (last: bool)
        ensures
            last == (old(self)@.senders == 1),
            final(self)@.queue == old(self)@.queue,
            final(self)@.capacity == old(self)@.capacity,
            final(self)@.senders == (if old(self)@.senders == 0 { usize::MAX as nat } else { (old(self)@.senders - 1) as nat }),
    {
        let previous = self.senders_count;
        self.senders_count = self.senders_count.wrapping_sub(1);
        previous == 1
    }

    /// The number of items in flight.
    pub fn len(&self) -> (n: usize)
        ensures
            n == self@.queue.len(),
    {
        self.queue.len()
    }

    /// The capacity of the queue.
    pub fn capacity(&self) -> (n: usize)
        ensures
            n == self@.capacity,
    {
        self.capacity
    }

    /// The number of live senders.
    pub fn senders(&self) -> (n: usize)
        ensures
            n == self@.senders,
    {
        self.senders_count
    }
}

/// What is sent into an empty channel is what is received next, and the
/// channel is then as it was.
pub proof fn law_receive_returns_what_was_sent<T>(c: ChannelView<T>, item: T)
    requires
        c.wf(),
        c.queue.len() == 0,
    ensures
        send_spec(c, item).1 is Ok,
        recv_spec(send_spec(c, item).0) == (c, Ok::<T, TryRecvError>(item)),
{
    assert(c.queue.push(item).drop_first() =~= c.queue);
}

/// First in, first out: sending does not change which item is received
/// next, nor what is left queued behind it apart from the new item at the
/// end.
pub proof fn law_first_in_first_out<T>(c: ChannelView<T>, item: T)
    requires
        c.wf(),
        c.queue.len() > 0,
        c.queue.len() < c.capacity,
    ensures
        recv_spec(send_spec(c, item).0).1 == recv_spec(c).1,
        recv_spec(send_spec(c, item).0).0 == send_spec(recv_spec(c).0, item).0,
{
    assert(c.queue.push(item)[0] == c.queue[0]);
    assert(c.queue.push(item).drop_first() =~= c.queue.drop_first().push(item));
}

/// A send that cannot complete changes nothing and hands its item back.
pub proof fn law_refused_send_loses_nothing<T>(c: ChannelView<T>, item: T)
    requires
        c.wf(),
        send_spec(c, item).1 is Err,
    ensures
        send_spec(c, item).0 == c,
        send_spec(c, item).1 == Err::<(), TrySendError<T>>(TrySendError::Full(item))
            || send_spec(c, item).1 == Err::<(), TrySendError<T>>(TrySendError::Disconnected(item)),
{
}

} // verus!
