use vstd::prelude::*;
use std::collections::VecDeque;
use std::marker::PhantomData;
use crate::semaphore::Semaphore;

verus! {

/// The state that the two ends of a bounded channel share: a FIFO buffer and
/// the semaphore that bounds it.
///
/// The buffer never holds more items than the semaphore lets in, and the
/// semaphore's counter is the buffer's length.
pub struct Channel<T> {
    sem: Semaphore,
    buf: VecDeque<T>,
}

/// The sending end of a channel; any number of them may send.
pub struct Sender<T> {
    marker: PhantomData<T>,
}

impl<T> Clone for Sender<T> {
    /// Another sending end of the same channel.
    fn clone(&self) -> (r: Self) {
        Sender { marker: PhantomData }
    }
}

/// The receiving end of a channel.
pub struct Receiver<T> {
    marker: PhantomData<T>,
}

impl<T> Channel<T> {
    /// The items in the channel, oldest first.
    pub closed spec fn items(&self) -> Seq<T> {
        self.buf@
    }

    /// The channel's capacity.
    pub closed spec fn capacity(&self) -> int {
        self.sem.max()
    }

    /// The channel's invariant: the semaphore counts the buffered items,
    /// which never exceed the capacity.
    pub closed spec fn wf(&self) -> bool {
        &&& self.sem.count() == self.buf@.len()
        &&& self.buf@.len() <= self.sem.max()
        &&& self.sem.max() <= isize::MAX
    }

    /// A well-formed channel never holds more items than its capacity.
    pub proof fn law_bounded(&self)
        requires
            self.wf(),
        ensures
            self.items().len() <= self.capacity(),
    {
    }

    /// The number of buffered items.
    pub fn len(&self) -> (r: usize)
        ensures
            r == self.items().len(),
    {
        self.buf.len()
    }
}

impl<T> Sender<T> {
    /// One attempt to send `data`: when the channel has room the item is
    /// appended and `Ok(())` is returned (the receiver is then to be
    /// notified); when it is full nothing changes and the item comes back,
    /// for the caller to wait and try again.
    pub fn send(&self, chan: &mut Channel<T>, data: T) -> (r: Result<(), T>)
        requires
            old(chan).wf(),
        ensures
            final(chan).wf(),
            final(chan).capacity() == old(chan).capacity(),
            old(chan).items().len() < old(chan).capacity() ==> r is Ok && final(chan).items()
                == old(chan).items().push(data),
            old(chan).items().len() >= old(chan).capacity() ==> r == Err::<(), T>(data)
                && final(chan).items() == old(chan).items(),
    {
        if chan.sem.wait() {
            chan.buf.push_back(data);
            Ok(())
        } else {
            Err(data)
        }
    }
}

impl<T> Receiver<T> {
    /// One attempt to receive: the oldest item is taken out and a place is
    /// freed for the senders; on an empty channel `None` is returned and the
    /// caller has to wait and try again.
    pub fn recv(&self, chan: &mut Channel<T>) -> (r: Option<T>)
        requires
            old(chan).wf(),
        ensures
            final(chan).wf(),
            final(chan).capacity() == old(chan).capacity(),
            old(chan).items().len() == 0 ==> r is None && final(chan).items() == old(chan).items(),
            old(chan).items().len() > 0 ==> r == Some(old(chan).items()[0]) && final(chan).items()
                == old(chan).items().drop_first(),
    {
        match chan.buf.pop_front() {
            Some(data) => {
                let _notify = chan.sem.post();
                Some(data)
            },
            None => None,
        }
    }
}

/// A new channel of capacity `max`, empty, with its two ends.
pub fn channel<T>(max: isize) -> (r: (Sender<T>, Receiver<T>, Channel<T>))
    requires
        max > 0,
    ensures
        r.2.wf(),
        r.2.items() == Seq::<T>::empty(),
        r.2.capacity() == max,
{
    let sem = Semaphore::new(max);
    let buf = VecDeque::new();
    let tx = Sender { marker: PhantomData };
    let rx = Receiver { marker: PhantomData };
    (tx, rx, Channel { sem, buf })
}

/// Law: what a channel holds after a successful send of `x` and a receive:
/// the items are taken out in the order they were sent.
pub proof fn law_fifo<T>(items: Seq<T>, x: T)
    requires
        items.len() > 0,
    ensures
        items.push(x)[0] == items[0],
        items.push(x).drop_first() == items.drop_first().push(x),
{
    assert(items.push(x).drop_first() =~= items.drop_first().push(x));
}

} // verus!
