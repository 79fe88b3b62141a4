//! The sending end of a worker's queue, bounded or unbounded.
//!
//! A sender keeps, for contracts only, the list of the messages that its
//! queue has taken from it, and a bounded sender the limit that its queue
//! was made with.

use std::sync::mpsc::{Receiver, Sender, SyncSender};
use vstd::prelude::*;

verus! {

/// How many messages a bounded queue holds.
pub const CHANNEL_BUF_SIZE: usize = 1000;

/// The mode number of a bounded queue.
pub const SYNC: usize = 1;

/// The mode number of an unbounded queue.
pub const ASYNC: usize = 2;

/// `std::sync::mpsc::SyncSender`, of which nothing is seen here.
#[verifier::external_type_specification]
#[verifier::external_body]
#[verifier::reject_recursive_types(T)]
pub struct ExSyncSender<T>(std::sync::mpsc::SyncSender<T>);

/// `std::sync::mpsc::Sender`, of which nothing is seen here.
#[verifier::external_type_specification]
#[verifier::external_body]
#[verifier::reject_recursive_types(T)]
pub struct ExSender<T>(std::sync::mpsc::Sender<T>);

/// `std::sync::mpsc::Receiver`, of which nothing is seen here.
#[verifier::external_type_specification]
#[verifier::external_body]
#[verifier::reject_recursive_types(T)]
pub struct ExReceiver<T>(std::sync::mpsc::Receiver<T>);

/// The sending end of a bounded queue.
#[verifier::reject_recursive_types(T)]
pub struct BoundedSender<T> {
    chan: SyncSender<T>,
    /// The number of messages that the queue was made to hold.
    limit: usize,
    /// The messages that the queue has taken from this sender, in order.
    sent: Ghost<Seq<T>>,
}

/// The sending end of an unbounded queue.
#[verifier::reject_recursive_types(T)]
pub struct UnboundedSender<T> {
    chan: Sender<T>,
    /// The messages that the queue has taken from this sender, in order.
    sent: Ghost<Seq<T>>,
}

/// A sender of either mode, with one non-blocking send for both.
#[verifier::reject_recursive_types(T)]
pub enum SyncAsyncSender<T> {
    /// Bounded: a send fails while the queue is full.
    Sync(BoundedSender<T>),
    /// Unbounded: a send fails only when the receiver is gone.
    Async(UnboundedSender<T>),
}

/// `std::sync::mpsc::sync_channel`: a new queue that holds `capacity`
/// messages. The sender remembers that limit, and has sent nothing yet.
#[verifier::external_body]
fn bounded<T>(capacity: usize) -> (ends: (BoundedSender<T>, Receiver<T>))
    ensures
        ends.0.limit == capacity,
        ends.0.sent@ == Seq::<T>::empty(),
{
    let (chan, recv) = std::sync::mpsc::sync_channel(capacity);
    (BoundedSender { chan, limit: capacity, sent: Ghost(Seq::empty()) }, recv)
}

/// `std::sync::mpsc::channel`: a new unbounded queue. The sender has sent
/// nothing yet.
#[verifier::external_body]
fn unbounded<T>() -> (ends: (UnboundedSender<T>, Receiver<T>))
    ensures
        ends.0.sent@ == Seq::<T>::empty(),
{
    let (chan, recv) = std::sync::mpsc::channel();
    (UnboundedSender { chan, sent: Ghost(Seq::empty()) }, recv)
}

/// `SyncSender::try_send`, which never blocks: whether the queue took the
/// message. A message that was taken is the last of those sent; one that
/// was not is dropped, and nothing else changes. Whether the queue takes it
/// depends on the receiving thread.
#[verifier::external_body]
fn offer<T>(to: &mut BoundedSender<T>, data: T) -> (taken: bool)
    ensures
        final(to).limit == old(to).limit,
        final(to).sent@ == if taken {
            old(to).sent@.push(data)
        } else {
            old(to).sent@
        },
{
    to.chan.try_send(data).is_ok()
}

/// `Sender::send`, which never blocks: whether the queue took the message.
/// A message that was taken is the last of those sent; one that was not is
/// dropped. Whether the queue takes it depends on the receiving thread.
#[verifier::external_body]
fn post<T>(to: &mut UnboundedSender<T>, data: T) -> (taken: bool)
    ensures
        final(to).sent@ == if taken {
            old(to).sent@.push(data)
        } else {
            old(to).sent@
        },
{
    to.chan.send(data).is_ok()
}

impl<T> SyncAsyncSender<T> {
    /// Whether the queue behind this sender is bounded.
    pub open spec fn is_sync(&self) -> bool {
        self is Sync
    }

    /// The number of messages that the queue was made to hold, where it is
    /// bounded.
    pub closed spec fn limit(&self) -> Option<usize> {
        match self {
            SyncAsyncSender::Sync(to) => Some(to.limit),
            SyncAsyncSender::Async(_) => None,
        }
    }

    /// The messages that the queue has taken from this sender, in order.
    pub closed spec fn sent(&self) -> Seq<T> {
        match self {
            SyncAsyncSender::Sync(to) => to.sent@,
            SyncAsyncSender::Async(to) => to.sent@,
        }
    }

    /// Opens a queue of the given mode, [`SYNC`] for one bounded at
    /// [`CHANNEL_BUF_SIZE`] messages or [`ASYNC`] for an unbounded one, and
    /// returns its two ends. Nothing was sent yet.
    pub fn new(syncasync: usize) -> (ends: (SyncAsyncSender<T>, Receiver<T>))
        requires
            syncasync == SYNC || syncasync == ASYNC,
        ensures
            ends.0.is_sync() <==> syncasync == SYNC,
            ends.0.limit() == if syncasync == SYNC {
                Some(CHANNEL_BUF_SIZE)
            } else {
                None
            },
            ends.0.sent() == Seq::<T>::empty(),
    {
        if syncasync == SYNC {
            let (send, recv) = bounded(CHANNEL_BUF_SIZE);
            (SyncAsyncSender::Sync(send), recv)
        } else {
            let (send, recv) = unbounded();
            (SyncAsyncSender::Async(send), recv)
        }
    }

    /// Tries to queue `data` without waiting and says whether the queue took
    /// it. A message that was taken is the last of those sent; one that was
    /// not is dropped. The mode and the limit stay as they are.
    pub fn try_send(&mut self, data: T) -> (taken: bool)
        ensures
            final(self).is_sync() == old(self).is_sync(),
            final(self).limit() == old(self).limit(),
            final(self).sent() == if taken {
                old(self).sent().push(data)
            } else {
                old(self).sent()
            },
    {
        match self {
            SyncAsyncSender::Sync(to) => offer(to, data),
            SyncAsyncSender::Async(to) => post(to, data),
        }
    }
}

} // verus!
