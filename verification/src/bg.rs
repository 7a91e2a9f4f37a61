//! The multi-producer queue that feeds the background worker: the
//! sequential model of what send, close and receive do to the pending
//! run of items. The cross-thread channel realising it lives with the
//! embedding program; these contracts are what that program relies on.

use vstd::prelude::*;

verus! {

/// The producers' handle onto the worker's queue. While no channel is
/// set, or after the channel is closed, sends are refused; items
/// already queued stay for the consumer.
pub struct CommonSender<T> {
    open: bool,
    queue: Vec<T>,
}

impl<T> CommonSender<T> {
    /// Whether a channel is set and accepting items.
    pub closed spec fn is_open(self) -> bool {
        self.open
    }

    /// The items queued and not yet consumed, oldest first.
    pub closed spec fn pending(self) -> Seq<T> {
        self.queue@
    }

    /// A sender with no channel: sends are refused until one is set.
    pub fn new() -> (r: CommonSender<T>)
        ensures
            !r.is_open(),
            r.pending() == Seq::<T>::empty(),
    {
        CommonSender { open: false, queue: Vec::new() }
    }

    /// Install a fresh, empty channel; whatever an earlier channel
    /// still held is gone.
    pub fn set_new_channel(&mut self)
        ensures
            final(self).is_open(),
            final(self).pending() == Seq::<T>::empty(),
    {
        self.open = true;
        self.queue = Vec::new();
    }

    /// Enqueue an item, or refuse it when no channel is open. Never
    /// blocks and never panics.
    pub fn send(&mut self, data: T) -> (r: Result<(), ()>)
        ensures
            old(self).is_open() ==> r is Ok && final(self).is_open() && final(self).pending()
                == old(self).pending().push(data),
            !old(self).is_open() ==> r is Err && *final(self) == *old(self),
    {
        if self.open {
            self.queue.push(data);
            Ok(())
        } else {
            Err(())
        }
    }

    /// Close the channel: further sends are refused; the items already
    /// queued stay for the consumer to drain.
    pub fn close_channel(&mut self)
        ensures
            !final(self).is_open(),
            final(self).pending() == old(self).pending(),
    {
        self.open = false;
    }

    /// The consumer side: take the oldest pending item, if any. Items
    /// queued before a close are still received.
    pub fn recv_next(&mut self) -> (r: Option<T>)
        ensures
            old(self).pending().len() == 0 ==> r is None && *final(self) == *old(self),
            old(self).pending().len() > 0 ==> r == Some(old(self).pending()[0])
                && final(self).pending() == old(self).pending().drop_first()
                && final(self).is_open() == old(self).is_open(),
    {
        if self.queue.len() == 0 {
            None
        } else {
            let x = self.queue.remove(0);
            proof {
                assert(self.queue@ =~= old(self).pending().drop_first());
            }
            Some(x)
        }
    }

    /// How many items wait to be consumed.
    pub fn pending_len(&self) -> (r: usize)
        ensures
            r == self.pending().len(),
    {
        self.queue.len()
    }
}

} // verus!
