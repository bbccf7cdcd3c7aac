use vstd::prelude::*;

verus! {

/// One cell of a node-based stack: a value and the node below it.
struct LinkedStackNode<T> {
    data: T,
    next: Option<Box<LinkedStackNode<T>>>,
}

/// LIFO stack built from heap-allocated nodes, with a maintained size
/// counter. The view is the sequence of values from the bottom of the stack
/// to the top: the top is the last element, so `push` appends to the view
/// and `pop` removes its last element.
pub struct LinkedStack<T> {
    size: usize,
    head: Option<Box<LinkedStackNode<T>>>,
}

impl<T> LinkedStackNode<T> {
    /// The values of the chain starting at `node`, bottom of the stack
    /// first (the head of the chain is the top, hence last).
    spec fn rev_seq(node: Option<Box<LinkedStackNode<T>>>) -> Seq<T>
        decreases node,
    {
        match node {
            None => Seq::empty(),
            Some(n) => Self::rev_seq(n.next).push(n.data),
        }
    }
}

impl<T> View for LinkedStack<T> {
    type V = Seq<T>;

    closed spec fn view(&self) -> Seq<T> {
        LinkedStackNode::rev_seq(self.head)
    }
}

impl<T> LinkedStack<T> {
    /// The maintained size counter agrees with the number of nodes.
    pub closed spec fn well_formed(self) -> bool {
        self.size == self@.len()
    }

    /// An empty stack.
    pub fn new() -> (stack: Self)
        ensures
            stack.well_formed(),
            stack@ == Seq::<T>::empty(),
    {
        LinkedStack { size: 0, head: None }
    }

    /// Places `new_value` on top of the stack.
    pub fn push(&mut self, new_value: T)
        requires
            old(self).well_formed(),
            old(self)@.len() < usize::MAX,
        ensures
            final(self).well_formed(),
            final(self)@ == old(self)@.push(new_value),
    {
        let old_head = self.head.take();
        self.head = Some(Box::new(LinkedStackNode { data: new_value, next: old_head }));
        self.size = self.size + 1;
    }

    /// Removes and returns the top value; `None` on an empty stack.
    pub fn pop(&mut self) -> (result: Option<T>)
        requires
            old(self).well_formed(),
        ensures
            final(self).well_formed(),
            old(self)@.len() == 0 ==> result is None && final(self)@ == old(self)@,
            old(self)@.len() > 0 ==> result == Some(old(self)@.last())
                && final(self)@ == old(self)@.drop_last(),
    {
        match self.head.take() {
            None => None,
            Some(node) => {
                let node = *node;
                self.head = node.next;
                self.size = self.size - 1;
                proof {
                    assert(final(self)@ =~= old(self)@.drop_last());
                }
                Some(node.data)
            },
        }
    }

    /// The top value without removing it; `None` on an empty stack.
    pub fn peek(&self) -> (result: Option<&T>)
        ensures
            self@.len() == 0 ==> result is None,
            self@.len() > 0 ==> (result matches Some(v) && *v == self@.last()),
    {
        match &self.head {
            None => None,
            Some(node) => Some(&node.data),
        }
    }

    /// The number of elements, in constant time.
    pub fn len(&self) -> (r: usize)
        requires
            self.well_formed(),
        ensures
            r == self@.len(),
    {
        self.size
    }

    /// A stack holding the elements of `vec`, pushed in order: the last
    /// element of the vector ends up on top.
    pub fn from(vec: Vec<T>) -> (stack: Self)
        ensures
            stack.well_formed(),
            stack@ == vec@,
    {
        let mut vec = vec;
        let ghost orig = vec@;
        proof {
            vstd::std_specs::vec::axiom_spec_len(&vec);
        }
        let mut stack = LinkedStack::new();
        while vec.len() > 0
            invariant
                stack.well_formed(),
                orig.len() <= usize::MAX,
                vec@.len() <= orig.len(),
                stack@ == orig.subrange(0, orig.len() - vec@.len()),
                vec@ == orig.subrange(orig.len() - vec@.len(), orig.len() as int),
            decreases vec@.len(),
        {
            let x = vec.remove(0);
            stack.push(x);
            proof {
                assert(vec@ =~= orig.subrange(orig.len() - vec@.len(), orig.len() as int));
                assert(stack@ =~= orig.subrange(0, orig.len() - vec@.len()));
            }
        }
        proof {
            assert(stack@ =~= orig);
        }
        stack
    }
}

} // verus!
