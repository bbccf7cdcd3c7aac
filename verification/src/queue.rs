use vstd::prelude::*;

verus! {

/// FIFO queue with O(1) amortized operations. Elements are enqueued onto
/// `incoming`; when a dequeue finds `outgoing` empty, `incoming` is drained
/// onto it, reversing the order so that the front of the queue sits at the
/// end of `outgoing`. The view is the queue front to back.
pub struct Queue<T> {
    incoming: Vec<T>,
    outgoing: Vec<T>,
    len: usize,
}

impl<T> View for Queue<T> {
    type V = Seq<T>;

    closed spec fn view(&self) -> Seq<T> {
        self.outgoing@.reverse() + self.incoming@
    }
}

impl<T> Queue<T> {
    /// The maintained length counter agrees with the number of elements.
    pub closed spec fn well_formed(self) -> bool {
        self.len == self@.len()
    }

    /// An empty queue.
    pub fn new() -> (queue: Self)
        ensures
            queue.well_formed(),
            queue@ == Seq::<T>::empty(),
    {
        let queue = Queue { incoming: Vec::new(), outgoing: Vec::new(), len: 0 };
        proof {
            assert(queue@ =~= Seq::<T>::empty());
        }
        queue
    }

    /// Appends `element` at the back of the queue.
    pub fn enqueue(&mut self, element: T)
        requires
            old(self).well_formed(),
            old(self)@.len() < usize::MAX,
        ensures
            final(self).well_formed(),
            final(self)@ == old(self)@.push(element),
    {
        self.incoming.push(element);
        self.len = self.len + 1;
        proof {
            assert(final(self)@ =~= old(self)@.push(element));
        }
    }

    /// Removes and returns the front element; `None` on an empty queue.
    pub fn dequeue(&mut self) -> (result: Option<T>)
        requires
            old(self).well_formed(),
        ensures
            final(self).well_formed(),
            old(self)@.len() == 0 ==> result is None && final(self)@ == old(self)@,
            old(self)@.len() > 0 ==> result == Some(old(self)@[0])
                && final(self)@ == old(self)@.drop_first(),
    {
        if self.outgoing.len() == 0 {
            if self.incoming.len() == 0 {
                proof {
                    assert(old(self)@.len() == 0);
                }
                return None;
            }
            let ghost whole = self@;
            proof {
                assert(self.incoming@ + self.outgoing@.reverse() =~= whole);
            }
            while self.incoming.len() > 0
                invariant
                    self.incoming@ + self.outgoing@.reverse() == whole,
                    self.len == whole.len(),
                decreases self.incoming@.len(),
            {
                let x = self.incoming.pop().unwrap();
                self.outgoing.push(x);
                proof {
                    assert(self.incoming@ + self.outgoing@.reverse() =~= whole);
                }
            }
            proof {
                assert(self.outgoing@.reverse() + self.incoming@ =~= whole);
            }
        }
        let ghost s = self@;
        let x = self.outgoing.pop().unwrap();
        self.len = self.len - 1;
        proof {
            assert(s[0] == x);
            assert(final(self)@ =~= s.drop_first());
            assert(s =~= old(self)@);
        }
        Some(x)
    }

    /// The number of elements, in constant time.
    pub fn len(&self) -> (r: usize)
        requires
            self.well_formed(),
        ensures
            r == self@.len(),
    {
        self.len
    }

    /// A queue holding the elements of `vec`, front first.
    pub fn from(vec: Vec<T>) -> (queue: Self)
        ensures
            queue.well_formed(),
            queue@ == vec@,
    {
        let len = vec.len();
        let queue = Queue { incoming: vec, outgoing: Vec::new(), len };
        proof {
            assert(queue@ =~= queue.incoming@);
        }
        queue
    }
}

} // verus!
