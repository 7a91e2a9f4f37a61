//! The generic background publisher: a user-supplied handler consumes
//! queued items serially. The worker thread and the cross-thread
//! channel live with the embedding program; the library states what
//! one drain pass of that worker does.

use vstd::prelude::*;

use crate::bg::CommonSender;

verus! {

/// A handler the background worker drives. `handled` is the run of
/// items it has been given so far, in order: the worker hands each
/// dequeued item to `send` exactly once, whatever `send` answers.
pub trait Publisher<T>: Sized {
    spec fn handled(&self) -> Seq<T>;

    fn new() -> (r: Self)
        ensures
            r.handled() == Seq::<T>::empty(),
    ;

    fn send(&mut self, data: T) -> (r: Result<(), ()>)
        ensures
            final(self).handled() == old(self).handled().push(data),
    ;
}

/// One drain pass of the background worker: hand every pending item to
/// the publisher, in enqueue order, each exactly once. A handler error
/// is swallowed; the pass goes on with the next item. On a graceful
/// shutdown the embedding program closes the channel and runs one last
/// pass, so everything enqueued before the close is handled.
pub fn drain_into<T, P: Publisher<T>>(sender: &mut CommonSender<T>, publisher: &mut P)
    ensures
        final(publisher).handled() == old(publisher).handled() + old(sender).pending(),
        final(sender).pending() == Seq::<T>::empty(),
        final(sender).is_open() == old(sender).is_open(),
{
    let ghost q0 = sender.pending();
    let ghost h0 = publisher.handled();
    let n = sender.pending_len();
    proof {
        assert(q0.subrange(0, 0) =~= Seq::<T>::empty());
        assert(q0.subrange(0, n as int) =~= q0);
        assert(h0 + q0.subrange(0, 0) =~= h0);
    }
    let mut k: usize = 0;
    while k < n
        invariant
            k <= n,
            n == q0.len(),
            sender.pending() == q0.subrange(k as int, n as int),
            sender.is_open() == old(sender).is_open(),
            publisher.handled() == h0 + q0.subrange(0, k as int),
        decreases n - k,
    {
        let item = sender.recv_next();
        match item {
            Some(data) => {
                proof {
                    assert(data == q0[k as int]);
                }
                let _ = publisher.send(data);
                proof {
                    assert(q0.subrange(k as int, n as int).drop_first() =~= q0.subrange(
                        k + 1 as int,
                        n as int,
                    ));
                    assert((h0 + q0.subrange(0, k as int)).push(q0[k as int]) =~= h0 + q0.subrange(
                        0,
                        k + 1 as int,
                    ));
                }
            },
            None => {
                proof {
                    assert(false);
                }
            },
        }
        k = k + 1;
    }
    proof {
        assert(q0.subrange(n as int, n as int) =~= Seq::<T>::empty());
        assert(h0 + q0.subrange(0, n as int) =~= h0 + q0);
    }
}

} // verus!
