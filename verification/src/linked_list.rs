use vstd::prelude::*;

verus! {

use vstd::std_specs::cmp::PartialEqSpec;
use crate::error::NotFound;

/// One cell of a singly linked chain: a value and an optional owned
/// successor. The last node of a chain has no successor, and a chain has no
/// cycles (ownership makes a cycle impossible).
struct LinkedListNode<T: PartialEq> {
    data: T,
    next_node: Option<Box<LinkedListNode<T>>>,
}

/// A singly linked list that owns its head node and tracks its length. The
/// view is the sequence of values from head to tail.
///
/// Operations that compare elements do so through `T`'s `==`. Their
/// contracts state the outcome in terms of `eq_spec` whenever
/// `T::obeys_eq_spec()` holds (true for the primitive types, whose `eq_spec`
/// is equality itself); for types whose `==` promises nothing, only the
/// structural guarantees remain.
pub struct LinkedList<T: PartialEq> {
    head: Option<Box<LinkedListNode<T>>>,
    len: usize,
}

/// Whether some element of `s` is equal (by `eq_spec`) to `v`.
pub open spec fn has_match<T: PartialEq>(s: Seq<T>, v: T) -> bool {
    exists|i: int| 0 <= i < s.len() && #[trigger] s[i].eq_spec(&v)
}

/// The index of the first element of `s` equal (by `eq_spec`) to `v`;
/// meaningful only when `has_match(s, v)`.
pub open spec fn first_match_index<T: PartialEq>(s: Seq<T>, v: T) -> int
    decreases s.len(),
{
    if s.len() == 0 {
        0
    } else if s[0].eq_spec(&v) {
        0
    } else {
        1 + first_match_index(s.drop_first(), v)
    }
}

/// When a match exists, `first_match_index` names a matching position and
/// everything before it does not match.
pub proof fn lemma_first_match_index<T: PartialEq>(s: Seq<T>, v: T)
    requires
        has_match(s, v),
    ensures
        0 <= first_match_index(s, v) < s.len(),
        s[first_match_index(s, v)].eq_spec(&v),
        forall|j: int| 0 <= j < first_match_index(s, v) ==> !(#[trigger] s[j].eq_spec(&v)),
    decreases s.len(),
{
    if s[0].eq_spec(&v) {
    } else {
        let rest = s.drop_first();
        let i = choose|i: int| 0 <= i < s.len() && #[trigger] s[i].eq_spec(&v);
        assert(rest[i - 1].eq_spec(&v));
        lemma_first_match_index(rest, v);
        assert forall|j: int| 0 <= j < first_match_index(s, v) implies !(#[trigger] s[j].eq_spec(
            &v,
        )) by {
            if j > 0 {
                assert(rest[j - 1] == s[j]);
            }
        }
    }
}

impl<T: PartialEq> LinkedListNode<T> {
    /// The values held by the chain starting at `node`, in order.
    spec fn opt_seq(node: Option<Box<LinkedListNode<T>>>) -> Seq<T>
        decreases node,
    {
        match node {
            None => Seq::empty(),
            Some(n) => seq![n.data] + Self::opt_seq(n.next_node),
        }
    }

    /// The values held by the chain starting at this node, in order.
    spec fn seq(self) -> Seq<T> {
        seq![self.data] + Self::opt_seq(self.next_node)
    }

    /// Whether this node has a successor.
    fn has_next(&self) -> (r: bool)
        ensures
            r == (self.next_node is Some),
    {
        self.next_node.is_some()
    }
}

impl<T: PartialEq> View for LinkedList<T> {
    type V = Seq<T>;

    closed spec fn view(&self) -> Seq<T> {
        LinkedListNode::opt_seq(self.head)
    }
}

impl<T: PartialEq> LinkedList<T> {
    /// The maintained length counter agrees with the number of nodes
    /// reachable from the head.
    pub closed spec fn well_formed(self) -> bool {
        self.len == self@.len()
    }

    /// An empty list.
    pub fn new() -> (list: Self)
        ensures
            list.well_formed(),
            list@ == Seq::<T>::empty(),
    {
        LinkedList { head: None, len: 0 }
    }

    /// The number of elements, in constant time.
    pub fn len(&self) -> (r: usize)
        requires
            self.well_formed(),
        ensures
            r == self@.len(),
    {
        self.len
    }

    /// The first value, if any, without removing it.
    pub fn peek(&self) -> (result: Option<&T>)
        ensures
            self@.len() == 0 ==> result is None,
            self@.len() > 0 ==> (result matches Some(v) && *v == self@[0]),
    {
        match &self.head {
            None => None,
            Some(node) => Some(&node.data),
        }
    }

    /// The head value, if any.
    pub fn get_head(&self) -> (result: Option<&T>)
        ensures
            self@.len() == 0 ==> result is None,
            self@.len() > 0 ==> (result matches Some(v) && *v == self@[0]),
    {
        match &self.head {
            None => None,
            Some(node) => Some(&node.data),
        }
    }

    /// Replaces the head value in place; on an empty list, behaves like
    /// `add_first`.
    pub fn set_head(&mut self, value: T)
        requires
            old(self).well_formed(),
        ensures
            final(self).well_formed(),
            old(self)@.len() == 0 ==> final(self)@ == seq![value],
            old(self)@.len() > 0 ==> final(self)@ == old(self)@.update(0, value),
    {
        match self.head.take() {
            None => {
                self.head = Some(Box::new(LinkedListNode { data: value, next_node: None }));
                self.len = self.len + 1;
                proof {
                    assert(final(self)@ =~= seq![value]);
                }
            },
            Some(mut node) => {
                node.data = value;
                self.head = Some(node);
                proof {
                    assert(final(self)@ =~= old(self)@.update(0, value));
                }
            },
        }
    }

    /// Prepends `value`: it becomes the new head.
    pub fn add_first(&mut self, value: T)
        requires
            old(self).well_formed(),
            old(self)@.len() < usize::MAX,
        ensures
            final(self).well_formed(),
            final(self)@ == seq![value] + old(self)@,
    {
        self.head = Some(Box::new(LinkedListNode { data: value, next_node: self.head.take() }));
        self.len = self.len + 1;
    }

    /// Removes and returns the head value; `None` on an empty list.
    pub fn pop(&mut self) -> (result: Option<T>)
        requires
            old(self).well_formed(),
        ensures
            final(self).well_formed(),
            old(self)@.len() == 0 ==> result is None && final(self)@ == old(self)@,
            old(self)@.len() > 0 ==> result == Some(old(self)@[0])
                && final(self)@ == old(self)@.drop_first(),
    {
        match self.head.take() {
            None => None,
            Some(node) => {
                let boxed = *node;
                self.head = boxed.next_node;
                self.len = self.len - 1;
                proof {
                    assert(final(self)@ =~= old(self)@.drop_first());
                }
                Some(boxed.data)
            },
        }
    }

    fn push_back_opt(node: &mut Option<Box<LinkedListNode<T>>>, value: T)
        ensures
            LinkedListNode::opt_seq(*final(node)) == LinkedListNode::opt_seq(*old(node)).push(
                value,
            ),
        decreases *old(node),
    {
        match node.take() {
            None => {
                *node = Some(Box::new(LinkedListNode { data: value, next_node: None }));
                proof {
                    assert(LinkedListNode::opt_seq(*final(node)) =~= LinkedListNode::opt_seq(
                        *old(node),
                    ).push(value));
                }
            },
            Some(mut boxed) => {
                Self::push_back_opt(&mut boxed.next_node, value);
                *node = Some(boxed);
                proof {
                    assert(LinkedListNode::opt_seq(*final(node)) =~= LinkedListNode::opt_seq(
                        *old(node),
                    ).push(value));
                }
            },
        }
    }

    /// Appends `value` after the current tail.
    pub fn add(&mut self, value: T)
        requires
            old(self).well_formed(),
            old(self)@.len() < usize::MAX,
        ensures
            final(self).well_formed(),
            final(self)@ == old(self)@.push(value),
    {
        Self::push_back_opt(&mut self.head, value);
        self.len = self.len + 1;
    }

    fn tail_ref_opt(node: &Option<Box<LinkedListNode<T>>>) -> (result: &T)
        requires
            node is Some,
        ensures
            *result == LinkedListNode::opt_seq(*node).last(),
        decreases node,
    {
        match node {
            None => unreached(),
            Some(boxed) => {
                if boxed.has_next() {
                    proof {
                        let inner = boxed.next_node->Some_0;
                        assert(LinkedListNode::opt_seq(boxed.next_node) == seq![inner.data]
                            + LinkedListNode::opt_seq(inner.next_node));
                        assert(LinkedListNode::opt_seq(boxed.next_node).len() > 0);
                    }
                    let r = Self::tail_ref_opt(&boxed.next_node);
                    proof {
                        assert(LinkedListNode::opt_seq(*node).last() == LinkedListNode::opt_seq(
                            boxed.next_node,
                        ).last());
                    }
                    r
                } else {
                    assert(LinkedListNode::opt_seq(*node).len() == 1);
                    &boxed.data
                }
            },
        }
    }

    fn contains_opt(node: &Option<Box<LinkedListNode<T>>>, value: &T) -> (r: bool)
        ensures
            T::obeys_eq_spec() ==> r == has_match(LinkedListNode::opt_seq(*node), *value),
        decreases node,
    {
        match node {
            None => false,
            Some(boxed) => {
                let ghost s = LinkedListNode::opt_seq(*node);
                let ghost rest = LinkedListNode::opt_seq(boxed.next_node);
                if boxed.data == *value {
                    proof {
                        if T::obeys_eq_spec() {
                            assert(s[0].eq_spec(value));
                        }
                    }
                    true
                } else {
                    let r = Self::contains_opt(&boxed.next_node, value);
                    proof {
                        if T::obeys_eq_spec() {
                            if has_match(rest, *value) {
                                let i = choose|i: int|
                                    0 <= i < rest.len() && #[trigger] rest[i].eq_spec(value);
                                assert(s[i + 1].eq_spec(value));
                            }
                            if has_match(s, *value) {
                                let i = choose|i: int|
                                    0 <= i < s.len() && #[trigger] s[i].eq_spec(value);
                                if i > 0 {
                                    assert(rest[i - 1].eq_spec(value));
                                }
                            }
                        }
                    }
                    r
                }
            },
        }
    }

    /// Whether some element equals `value`, by a head-to-tail scan.
    pub fn contains(&self, value: &T) -> (r: bool)
        ensures
            T::obeys_eq_spec() ==> r == has_match(self@, *value),
    {
        Self::contains_opt(&self.head, value)
    }

    fn find_opt<'a>(node: &'a Option<Box<LinkedListNode<T>>>, value: &T) -> (result: Option<
        &'a T,
    >)
        ensures
            T::obeys_eq_spec() ==> {
                if has_match(LinkedListNode::opt_seq(*node), *value) {
                    result matches Some(r) && *r == LinkedListNode::opt_seq(*node)[
                        first_match_index(LinkedListNode::opt_seq(*node), *value)]
                } else {
                    result is None
                }
            },
        decreases node,
    {
        match node {
            None => None,
            Some(boxed) => {
                let ghost s = LinkedListNode::opt_seq(*node);
                let ghost rest = LinkedListNode::opt_seq(boxed.next_node);
                if boxed.data == *value {
                    proof {
                        if T::obeys_eq_spec() {
                            assert(s[0].eq_spec(value));
                            assert(first_match_index(s, *value) == 0);
                            assert(s[0] == boxed.data);
                        }
                    }
                    Some(&boxed.data)
                } else {
                    let r = Self::find_opt(&boxed.next_node, value);
                    proof {
                        if T::obeys_eq_spec() {
                            assert(s.drop_first() =~= rest);
                            if has_match(rest, *value) {
                                let i = choose|i: int|
                                    0 <= i < rest.len() && #[trigger] rest[i].eq_spec(value);
                                assert(s[i + 1].eq_spec(value));
                            }
                            if has_match(s, *value) {
                                let i = choose|i: int|
                                    0 <= i < s.len() && #[trigger] s[i].eq_spec(value);
                                if i > 0 {
                                    assert(rest[i - 1].eq_spec(value));
                                }
                                let f = first_match_index(rest, *value);
                                assert(first_match_index(s, *value) == 1 + f);
                                lemma_first_match_index(rest, *value);
                                assert(s[1 + f] == rest[f]);
                            }
                        }
                    }
                    r
                }
            },
        }
    }

    /// The first element equal to `value`, if any.
    pub fn find(&self, value: &T) -> (result: Option<&T>)
        ensures
            T::obeys_eq_spec() ==> {
                if has_match(self@, *value) {
                    result matches Some(r) && *r == self@[first_match_index(self@, *value)]
                } else {
                    result is None
                }
            },
    {
        Self::find_opt(&self.head, value)
    }

    fn delete_from(node: &mut Option<Box<LinkedListNode<T>>>, value: &T) -> (deleted: bool)
        ensures
            deleted ==> exists|i: int|
                0 <= i < LinkedListNode::opt_seq(*old(node)).len() && LinkedListNode::opt_seq(
                    *final(node),
                ) == #[trigger] LinkedListNode::opt_seq(*old(node)).remove(i),
            !deleted ==> *final(node) == *old(node),
            T::obeys_eq_spec() ==> {
                if has_match(LinkedListNode::opt_seq(*old(node)), *value) {
                    deleted && LinkedListNode::opt_seq(*final(node)) == LinkedListNode::opt_seq(
                        *old(node),
                    ).remove(first_match_index(LinkedListNode::opt_seq(*old(node)), *value))
                } else {
                    !deleted
                }
            },
        decreases *old(node),
    {
        match node.take() {
            None => false,
            Some(mut boxed) => {
                let ghost s = LinkedListNode::opt_seq(*old(node));
                let ghost rest = LinkedListNode::opt_seq(boxed.next_node);
                if boxed.data == *value {
                    *node = boxed.next_node;
                    proof {
                        assert(s.remove(0) =~= rest);
                        if T::obeys_eq_spec() {
                            assert(s[0].eq_spec(value));
                        }
                    }
                    true
                } else {
                    let deleted = Self::delete_from(&mut boxed.next_node, value);
                    let ghost rest_after = LinkedListNode::opt_seq(boxed.next_node);
                    *node = Some(boxed);
                    proof {
                        if deleted {
                            let i = choose|i: int|
                                0 <= i < rest.len() && rest_after == #[trigger] rest.remove(i);
                            assert(s.remove(i + 1) =~= seq![s[0]] + rest.remove(i));
                            assert(LinkedListNode::opt_seq(*final(node)) == s.remove(i + 1));
                        }
                        if T::obeys_eq_spec() {
                            if has_match(rest, *value) {
                                let i = choose|i: int|
                                    0 <= i < rest.len() && #[trigger] rest[i].eq_spec(value);
                                assert(s[i + 1].eq_spec(value));
                            }
                            if has_match(s, *value) {
                                let i = choose|i: int|
                                    0 <= i < s.len() && #[trigger] s[i].eq_spec(value);
                                if i > 0 {
                                    assert(rest[i - 1].eq_spec(value));
                                }
                                assert(s.drop_first() =~= rest);
                                assert(first_match_index(s, *value) == 1 + first_match_index(
                                    rest,
                                    *value,
                                ));
                                let f = first_match_index(rest, *value);
                                lemma_first_match_index(rest, *value);
                                assert(s.remove(f + 1) =~= seq![s[0]] + rest.remove(f));
                            }
                        }
                    }
                    deleted
                }
            },
        }
    }

    /// Removes the first element equal to `value`; a no-op (not an error)
    /// when no element matches.
    pub fn delete(&mut self, value: &T)
        requires
            old(self).well_formed(),
        ensures
            final(self).well_formed(),
            final(self)@ == old(self)@ || exists|i: int|
                0 <= i < old(self)@.len() && final(self)@ == #[trigger] old(self)@.remove(i),
            T::obeys_eq_spec() ==> {
                if has_match(old(self)@, *value) {
                    final(self)@ == old(self)@.remove(first_match_index(old(self)@, *value))
                } else {
                    final(self)@ == old(self)@
                }
            },
    {
        let deleted = Self::delete_from(&mut self.head, value);
        if deleted {
            self.len = self.len - 1;
        }
    }

    fn insert_after_from(node: &mut Option<Box<LinkedListNode<T>>>, value: T, after: &T) -> (rejected:
        Option<T>)
        ensures
            rejected matches Some(v) ==> v == value && *final(node) == *old(node),
            rejected is None ==> LinkedListNode::opt_seq(*final(node)).len()
                == LinkedListNode::opt_seq(*old(node)).len() + 1,
            T::obeys_eq_spec() ==> {
                if has_match(LinkedListNode::opt_seq(*old(node)), *after) {
                    rejected is None && LinkedListNode::opt_seq(*final(node))
                        == LinkedListNode::opt_seq(*old(node)).insert(
                        first_match_index(LinkedListNode::opt_seq(*old(node)), *after) + 1,
                        value,
                    )
                } else {
                    rejected == Some(value)
                }
            },
        decreases *old(node),
    {
        match node.take() {
            None => Some(value),
            Some(mut boxed) => {
                let ghost s = LinkedListNode::opt_seq(*old(node));
                let ghost rest = LinkedListNode::opt_seq(boxed.next_node);
                if boxed.data == *after {
                    let next_taken = boxed.next_node.take();
                    boxed.next_node = Some(
                        Box::new(LinkedListNode { data: value, next_node: next_taken }),
                    );
                    proof {
                        assert(LinkedListNode::opt_seq(boxed.next_node) =~= seq![value] + rest);
                    }
                    *node = Some(boxed);
                    proof {
                        assert(LinkedListNode::opt_seq(*final(node)) =~= seq![s[0]] + (seq![value]
                            + rest));
                        assert(s.insert(1, value) =~= seq![s[0]] + (seq![value] + rest));
                        if T::obeys_eq_spec() {
                            assert(s[0].eq_spec(after));
                        }
                    }
                    None
                } else {
                    let r = Self::insert_after_from(&mut boxed.next_node, value, after);
                    let ghost rest_after = LinkedListNode::opt_seq(boxed.next_node);
                    *node = Some(boxed);
                    proof {
                        if T::obeys_eq_spec() {
                            assert(s.drop_first() =~= rest);
                            if has_match(rest, *after) {
                                let i = choose|i: int|
                                    0 <= i < rest.len() && #[trigger] rest[i].eq_spec(after);
                                assert(s[i + 1].eq_spec(after));
                            }
                            if has_match(s, *after) {
                                let i = choose|i: int|
                                    0 <= i < s.len() && #[trigger] s[i].eq_spec(after);
                                if i > 0 {
                                    assert(rest[i - 1].eq_spec(after));
                                }
                                let f = first_match_index(rest, *after);
                                assert(first_match_index(s, *after) == 1 + f);
                                lemma_first_match_index(rest, *after);
                                assert(s.insert(f + 2, value) =~= seq![s[0]] + rest.insert(
                                    f + 1,
                                    value,
                                ));
                            }
                        }
                    }
                    r
                }
            },
        }
    }

    /// Inserts `value` immediately after the first element equal to
    /// `after`; reports `NotFound` (leaving the list unchanged) when no
    /// element matches the anchor.
    pub fn add_after(&mut self, value: T, after: &T) -> (result: Result<(), NotFound>)
        requires
            old(self).well_formed(),
            old(self)@.len() < usize::MAX,
        ensures
            final(self).well_formed(),
            result is Ok ==> final(self)@.len() == old(self)@.len() + 1,
            result is Err ==> final(self)@ == old(self)@,
            T::obeys_eq_spec() ==> {
                if has_match(old(self)@, *after) {
                    result is Ok && final(self)@ == old(self)@.insert(
                        first_match_index(old(self)@, *after) + 1,
                        value,
                    )
                } else {
                    result is Err
                }
            },
    {
        match Self::insert_after_from(&mut self.head, value, after) {
            None => {
                self.len = self.len + 1;
                Ok(())
            },
            Some(_) => Err(NotFound),
        }
    }

    fn contains_match_from<F: Fn(&T) -> bool>(
        node: &Option<Box<LinkedListNode<T>>>,
        predicate: &F,
    ) -> (r: bool)
        requires
            forall|t: &T| #[trigger] call_requires(*predicate, (t,)),
        ensures
            r ==> exists|i: int|
                0 <= i < LinkedListNode::opt_seq(*node).len() && #[trigger] call_ensures(
                    *predicate,
                    (&LinkedListNode::opt_seq(*node)[i],),
                    true,
                ),
            !r ==> forall|i: int|
                0 <= i < LinkedListNode::opt_seq(*node).len() ==> #[trigger] call_ensures(
                    *predicate,
                    (&LinkedListNode::opt_seq(*node)[i],),
                    false,
                ),
        decreases node,
    {
        match node {
            None => false,
            Some(boxed) => {
                let ghost s = LinkedListNode::opt_seq(*node);
                let ghost rest = LinkedListNode::opt_seq(boxed.next_node);
                let head_hit = (*predicate)(&boxed.data);
                if head_hit {
                    proof {
                        assert(s[0] == boxed.data);
                        assert(call_ensures(*predicate, (&s[0],), true));
                    }
                    true
                } else {
                    let r = Self::contains_match_from(&boxed.next_node, predicate);
                    proof {
                        if r {
                            let i = choose|i: int|
                                0 <= i < rest.len() && #[trigger] call_ensures(
                                    *predicate,
                                    (&rest[i],),
                                    true,
                                );
                            assert(s[i + 1] == rest[i]);
                            assert(call_ensures(*predicate, (&s[i + 1],), true));
                        } else {
                            assert forall|i: int| 0 <= i < s.len() implies #[trigger] call_ensures(
                                *predicate,
                                (&s[i],),
                                false,
                            ) by {
                                if i == 0 {
                                    assert(s[0] == boxed.data);
                                } else {
                                    assert(s[i] == rest[i - 1]);
                                }
                            }
                        }
                    }
                    r
                }
            },
        }
    }

    /// Whether some element satisfies `predicate`.
    pub fn contains_match<F: Fn(&T) -> bool>(&self, predicate: &F) -> (r: bool)
        requires
            forall|t: &T| #[trigger] call_requires(*predicate, (t,)),
        ensures
            r ==> exists|i: int|
                0 <= i < self@.len() && #[trigger] call_ensures(*predicate, (&self@[i],), true),
            !r ==> forall|i: int|
                0 <= i < self@.len() ==> #[trigger] call_ensures(*predicate, (&self@[i],), false),
    {
        let r = Self::contains_match_from(&self.head, predicate);
        proof {
            let s = LinkedListNode::opt_seq(self.head);
            if r {
                let i = choose|i: int|
                    0 <= i < s.len() && #[trigger] call_ensures(*predicate, (&s[i],), true);
                assert(call_ensures(*predicate, (&self@[i],), true));
            } else {
                assert forall|i: int| 0 <= i < self@.len() implies #[trigger] call_ensures(
                    *predicate,
                    (&self@[i],),
                    false,
                ) by {
                    assert(call_ensures(*predicate, (&s[i],), false));
                }
            }
        }
        r
    }

    fn find_match_from<'a, F: Fn(&T) -> bool>(
        node: &'a Option<Box<LinkedListNode<T>>>,
        predicate: &F,
    ) -> (result: Option<&'a T>)
        requires
            forall|t: &T| #[trigger] call_requires(*predicate, (t,)),
        ensures
            result matches Some(v) ==> exists|i: int|
                {
                    &&& 0 <= i < LinkedListNode::opt_seq(*node).len()
                    &&& *v == LinkedListNode::opt_seq(*node)[i]
                    &&& #[trigger] call_ensures(
                        *predicate,
                        (&LinkedListNode::opt_seq(*node)[i],),
                        true,
                    )
                    &&& forall|j: int|
                        0 <= j < i ==> call_ensures(
                            *predicate,
                            (&LinkedListNode::opt_seq(*node)[j],),
                            false,
                        )
                },
            result is None ==> forall|i: int|
                0 <= i < LinkedListNode::opt_seq(*node).len() ==> #[trigger] call_ensures(
                    *predicate,
                    (&LinkedListNode::opt_seq(*node)[i],),
                    false,
                ),
        decreases node,
    {
        match node {
            None => None,
            Some(boxed) => {
                let ghost s = LinkedListNode::opt_seq(*node);
                let ghost rest = LinkedListNode::opt_seq(boxed.next_node);
                let head_hit = (*predicate)(&boxed.data);
                if head_hit {
                    proof {
                        assert(s[0] == boxed.data);
                        assert(call_ensures(*predicate, (&s[0],), true));
                    }
                    Some(&boxed.data)
                } else {
                    let r = Self::find_match_from(&boxed.next_node, predicate);
                    proof {
                        match r {
                            Some(v) => {
                                let i = choose|i: int|
                                    {
                                        &&& 0 <= i < rest.len()
                                        &&& *v == rest[i]
                                        &&& #[trigger] call_ensures(*predicate, (&rest[i],), true)
                                        &&& forall|j: int|
                                            0 <= j < i ==> call_ensures(
                                                *predicate,
                                                (&rest[j],),
                                                false,
                                            )
                                    };
                                assert(s[i + 1] == rest[i]);
                                assert(call_ensures(*predicate, (&s[i + 1],), true));
                                assert forall|j: int| 0 <= j < i + 1 implies call_ensures(
                                    *predicate,
                                    (&s[j],),
                                    false,
                                ) by {
                                    if j == 0 {
                                        assert(s[0] == boxed.data);
                                    } else {
                                        assert(s[j] == rest[j - 1]);
                                    }
                                }
                            },
                            None => {
                                assert forall|i: int|
                                    0 <= i < s.len() implies #[trigger] call_ensures(
                                    *predicate,
                                    (&s[i],),
                                    false,
                                ) by {
                                    if i == 0 {
                                        assert(s[0] == boxed.data);
                                    } else {
                                        assert(s[i] == rest[i - 1]);
                                    }
                                }
                            },
                        }
                    }
                    r
                }
            },
        }
    }

    /// The first element satisfying `predicate`, if any.
    pub fn find_match<F: Fn(&T) -> bool>(&self, predicate: &F) -> (result: Option<&T>)
        requires
            forall|t: &T| #[trigger] call_requires(*predicate, (t,)),
        ensures
            result matches Some(v) ==> exists|i: int|
                {
                    &&& 0 <= i < self@.len()
                    &&& *v == self@[i]
                    &&& #[trigger] call_ensures(*predicate, (&self@[i],), true)
                    &&& forall|j: int|
                        0 <= j < i ==> call_ensures(*predicate, (&self@[j],), false)
                },
            result is None ==> forall|i: int|
                0 <= i < self@.len() ==> #[trigger] call_ensures(*predicate, (&self@[i],), false),
    {
        let result = Self::find_match_from(&self.head, predicate);
        proof {
            let s = LinkedListNode::opt_seq(self.head);
            match result {
                Some(v) => {
                    let i = choose|i: int|
                        {
                            &&& 0 <= i < s.len()
                            &&& *v == s[i]
                            &&& #[trigger] call_ensures(*predicate, (&s[i],), true)
                            &&& forall|j: int|
                                0 <= j < i ==> call_ensures(*predicate, (&s[j],), false)
                        };
                    assert(call_ensures(*predicate, (&self@[i],), true));
                    assert forall|j: int| 0 <= j < i implies call_ensures(
                        *predicate,
                        (&self@[j],),
                        false,
                    ) by {
                        assert(call_ensures(*predicate, (&s[j],), false));
                    }
                },
                None => {
                    assert forall|i: int| 0 <= i < self@.len() implies #[trigger] call_ensures(
                        *predicate,
                        (&self@[i],),
                        false,
                    ) by {
                        assert(call_ensures(*predicate, (&s[i],), false));
                    }
                },
            }
        }
        result
    }

    fn delete_match_from<F: Fn(&T) -> bool>(
        node: &mut Option<Box<LinkedListNode<T>>>,
        predicate: &F,
    ) -> (result: Option<T>)
        requires
            forall|t: &T| #[trigger] call_requires(*predicate, (t,)),
        ensures
            result matches Some(v) ==> exists|i: int|
                {
                    &&& 0 <= i < LinkedListNode::opt_seq(*old(node)).len()
                    &&& v == LinkedListNode::opt_seq(*old(node))[i]
                    &&& LinkedListNode::opt_seq(*final(node)) == #[trigger] LinkedListNode::opt_seq(
                        *old(node),
                    ).remove(i)
                    &&& call_ensures(*predicate, (&LinkedListNode::opt_seq(*old(node))[i],), true)
                    &&& forall|j: int|
                        0 <= j < i ==> call_ensures(
                            *predicate,
                            (&LinkedListNode::opt_seq(*old(node))[j],),
                            false,
                        )
                },
            result is None ==> *final(node) == *old(node) && forall|i: int|
                0 <= i < LinkedListNode::opt_seq(*old(node)).len() ==> #[trigger] call_ensures(
                    *predicate,
                    (&LinkedListNode::opt_seq(*old(node))[i],),
                    false,
                ),
        decreases *old(node),
    {
        match node.take() {
            None => None,
            Some(mut boxed) => {
                let ghost s = LinkedListNode::opt_seq(*old(node));
                let ghost rest = LinkedListNode::opt_seq(boxed.next_node);
                let head_hit = (*predicate)(&boxed.data);
                if head_hit {
                    *node = boxed.next_node;
                    proof {
                        assert(s[0] == boxed.data);
                        assert(call_ensures(*predicate, (&s[0],), true));
                        assert(s.remove(0) =~= rest);
                    }
                    Some(boxed.data)
                } else {
                    let r = Self::delete_match_from(&mut boxed.next_node, predicate);
                    let ghost rest_after = LinkedListNode::opt_seq(boxed.next_node);
                    *node = Some(boxed);
                    proof {
                        match &r {
                            Some(v) => {
                                let i = choose|i: int|
                                    {
                                        &&& 0 <= i < rest.len()
                                        &&& *v == rest[i]
                                        &&& rest_after == #[trigger] rest.remove(i)
                                        &&& call_ensures(*predicate, (&rest[i],), true)
                                        &&& forall|j: int|
                                            0 <= j < i ==> call_ensures(
                                                *predicate,
                                                (&rest[j],),
                                                false,
                                            )
                                    };
                                assert(s[i + 1] == rest[i]);
                                assert(s.remove(i + 1) =~= seq![s[0]] + rest.remove(i));
                                assert(call_ensures(*predicate, (&s[i + 1],), true));
                                assert forall|j: int| 0 <= j < i + 1 implies call_ensures(
                                    *predicate,
                                    (&s[j],),
                                    false,
                                ) by {
                                    if j == 0 {
                                        assert(s[0] == boxed.data);
                                    } else {
                                        assert(s[j] == rest[j - 1]);
                                    }
                                }
                            },
                            None => {
                                assert forall|i: int|
                                    0 <= i < s.len() implies #[trigger] call_ensures(
                                    *predicate,
                                    (&s[i],),
                                    false,
                                ) by {
                                    if i == 0 {
                                        assert(s[0] == boxed.data);
                                    } else {
                                        assert(s[i] == rest[i - 1]);
                                    }
                                }
                            },
                        }
                    }
                    r
                }
            },
        }
    }

    /// Removes and returns the first element satisfying `predicate`;
    /// `None` (with the list unchanged) when nothing matches. Absence is a
    /// normal outcome, not an error.
    pub fn delete_match<F: Fn(&T) -> bool>(&mut self, predicate: F) -> (result: Option<T>)
        requires
            old(self).well_formed(),
            forall|t: &T| #[trigger] call_requires(predicate, (t,)),
        ensures
            final(self).well_formed(),
            result matches Some(v) ==> exists|i: int|
                {
                    &&& 0 <= i < old(self)@.len()
                    &&& v == old(self)@[i]
                    &&& final(self)@ == #[trigger] old(self)@.remove(i)
                    &&& call_ensures(predicate, (&old(self)@[i],), true)
                    &&& forall|j: int|
                        0 <= j < i ==> call_ensures(predicate, (&old(self)@[j],), false)
                },
            result is None ==> *final(self) == *old(self) && forall|i: int|
                0 <= i < old(self)@.len() ==> #[trigger] call_ensures(
                    predicate,
                    (&old(self)@[i],),
                    false,
                ),
    {
        let result = Self::delete_match_from(&mut self.head, &predicate);
        if result.is_some() {
            self.len = self.len - 1;
        }
        result
    }

    /// The tail value, if any.
    pub fn get_tail(&self) -> (result: Option<&T>)
        ensures
            self@.len() == 0 ==> result is None,
            self@.len() > 0 ==> (result matches Some(v) && *v == self@.last()),
    {
        match &self.head {
            None => None,
            Some(_) => Some(Self::tail_ref_opt(&self.head)),
        }
    }

    fn tail_mut_opt(node: &mut Option<Box<LinkedListNode<T>>>) -> (result: &mut T)
        requires
            (*old(node)) is Some,
        ensures
            *result == LinkedListNode::opt_seq(*old(node)).last(),
            LinkedListNode::opt_seq(*final(node)) == LinkedListNode::opt_seq(*old(node)).update(
                LinkedListNode::opt_seq(*old(node)).len() - 1,
                *final(result),
            ),
        decreases *old(node),
    {
        let boxed = node.as_mut().unwrap();
        let ghost rest = LinkedListNode::opt_seq(boxed.next_node);
        if boxed.next_node.is_some() {
            proof {
                let inner = boxed.next_node->Some_0;
                assert(rest == seq![inner.data] + LinkedListNode::opt_seq(inner.next_node));
            }
            let r = Self::tail_mut_opt(&mut boxed.next_node);
            proof {
                assert(LinkedListNode::opt_seq(*old(node)).update(
                    LinkedListNode::opt_seq(*old(node)).len() - 1,
                    *final(r),
                ) =~= seq![old(node)->Some_0.data] + rest.update(
                    rest.len() - 1,
                    *final(r),
                ));
            }
            r
        } else {
            assert(LinkedListNode::opt_seq(*old(node)).len() == 1);
            let r = &mut boxed.data;
            proof {
                assert(LinkedListNode::opt_seq(*old(node)).update(0, *final(r)) =~= seq![
                    *final(r),
                ]);
            }
            r
        }
    }

    /// A mutable reference to the tail value, if any; writes through it
    /// replace the last element of the list.
    pub fn get_tail_mut(&mut self) -> (result: Option<&mut T>)
        requires
            old(self).well_formed(),
        ensures
            old(self)@.len() == 0 ==> result is None && *final(self) == *old(self),
            old(self)@.len() > 0 ==> (result matches Some(v) && *v == old(self)@.last()
                && final(self)@ == old(self)@.update(old(self)@.len() - 1, *final(v))
                && final(self).well_formed()),
    {
        if self.head.is_some() {
            Some(Self::tail_mut_opt(&mut self.head))
        } else {
            None
        }
    }

    /// A list holding the elements of `vec`, head first.
    pub fn from(vec: Vec<T>) -> (list: Self)
        ensures
            list.well_formed(),
            list@ == vec@,
    {
        let mut vec = vec;
        let ghost orig = vec@;
        proof {
            vstd::std_specs::vec::axiom_spec_len(&vec);
        }
        let mut list = LinkedList::new();
        while vec.len() > 0
            invariant
                list.well_formed(),
                vec@ == orig.subrange(0, vec@.len() as int),
                list@ == orig.subrange(vec@.len() as int, orig.len() as int),
                vec@.len() <= orig.len(),
                orig.len() <= usize::MAX,
            decreases vec@.len(),
        {
            let ghost prev_vec = vec@;
            let x = vec.pop().unwrap();
            list.add_first(x);
            proof {
                assert(vec@ =~= orig.subrange(0, vec@.len() as int));
                assert(seq![x] + orig.subrange(prev_vec.len() as int, orig.len() as int)
                    =~= orig.subrange(vec@.len() as int, orig.len() as int));
            }
        }
        proof {
            assert(list@ =~= orig);
        }
        list
    }

    /// An iterator that consumes the list, yielding values head to tail.
    pub fn into_iter(self) -> (it: IntoIter<T>)
        requires
            self.well_formed(),
        ensures
            it.well_formed(),
            it.remaining() == self@,
    {
        IntoIter(self)
    }

    /// A borrowing iterator over the values, head to tail.
    pub fn iter<'a>(&'a self) -> (it: Iter<'a, T>)
        ensures
            it.remaining() == self@,
    {
        Iter {
            next: match &self.head {
                None => None,
                Some(b) => Some(&**b),
            },
        }
    }
}

/// Iterator that takes ownership of a list and yields its values from head
/// to tail, removing them as it goes.
pub struct IntoIter<T: PartialEq>(LinkedList<T>);

impl<T: PartialEq> IntoIter<T> {
    /// The values not yet yielded, in the order they will come out.
    pub closed spec fn remaining(&self) -> Seq<T> {
        self.0@
    }

    /// The inner list's length counter is intact.
    pub closed spec fn well_formed(&self) -> bool {
        self.0.well_formed()
    }

    /// The next value, or `None` when the list is exhausted.
    pub fn next(&mut self) -> (result: Option<T>)
        requires
            old(self).well_formed(),
        ensures
            final(self).well_formed(),
            old(self).remaining().len() == 0 ==> result is None && final(self).remaining()
                == old(self).remaining(),
            old(self).remaining().len() > 0 ==> result == Some(old(self).remaining()[0])
                && final(self).remaining() == old(self).remaining().drop_first(),
    {
        self.0.pop()
    }
}

/// Borrowing iterator over a list, yielding references from head to tail.
pub struct Iter<'a, T: PartialEq> {
    next: Option<&'a LinkedListNode<T>>,
}

impl<'a, T: PartialEq> Iter<'a, T> {
    /// The values not yet visited, in the order they will come out.
    pub closed spec fn remaining(&self) -> Seq<T> {
        match self.next {
            None => Seq::empty(),
            Some(n) => n.seq(),
        }
    }

    /// A reference to the next value, or `None` at the end of the chain.
    pub fn next(&mut self) -> (result: Option<&'a T>)
        ensures
            old(self).remaining().len() == 0 ==> result is None && final(self).remaining()
                == old(self).remaining(),
            old(self).remaining().len() > 0 ==> (result matches Some(v) && *v == old(
                self,
            ).remaining()[0] && final(self).remaining() == old(self).remaining().drop_first()),
    {
        match self.next {
            None => None,
            Some(node) => {
                let r = &node.data;
                self.next = match &node.next_node {
                    None => None,
                    Some(b) => Some(&**b),
                };
                proof {
                    assert(final(self).remaining() =~= old(self).remaining().drop_first());
                }
                Some(r)
            },
        }
    }
}

} // verus!
