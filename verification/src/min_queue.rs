//! A FIFO queue that also tracks its minimum in constant time: the classic
//! two-deque structure. Beside the queue itself a second deque holds a
//! non-decreasing subsequence of the queued elements whose front is always
//! the least element still queued.

use core::cmp::Ordering;
use std::collections::VecDeque;
use vstd::laws_cmp::obeys_cmp;
use vstd::laws_eq::obeys_concrete_eq;
use vstd::pervasive::cloned;
use vstd::prelude::*;
use vstd::std_specs::cmp::OrdSpec;
use vstd::std_specs::cmp::PartialEqSpec;
use vstd::std_specs::cmp::PartialOrdSpec;

verus! {

/// The laws the element type must obey for the queue's contracts to carry
/// meaning: `cmp` is a lawful total order, `==` agrees with structural
/// equality, and `clone` returns its argument.
pub open spec fn lawful_elements<T: Clone + Ord>() -> bool {
    &&& obeys_cmp::<T>()
    &&& obeys_concrete_eq::<T>()
    &&& forall|a: T, b: T| cloned::<T>(a, b) ==> b == a
}

/// `a` is no greater than `b` under the element type's order.
pub open spec fn le<T: Ord>(a: T, b: T) -> bool {
    a.cmp_spec(&b) != Ordering::Greater
}

/// `a` is strictly smaller than `b` under the element type's order.
pub open spec fn lt<T: Ord>(a: T, b: T) -> bool {
    a.cmp_spec(&b) == Ordering::Less
}

/// The consequences of `lawful_elements` that the queue's proofs lean on.
proof fn lemma_order_laws<T: Clone + Ord>()
    requires
        lawful_elements::<T>(),
    ensures
        T::obeys_cmp_spec(),
        T::obeys_partial_cmp_spec(),
        T::obeys_eq_spec(),
        forall|a: T, b: T| #[trigger] a.partial_cmp_spec(&b) == Some(a.cmp_spec(&b)),
        forall|a: T, b: T| (#[trigger] a.eq_spec(&b)) <==> a == b,
        forall|a: T, b: T| (#[trigger] a.cmp_spec(&b) == Ordering::Equal) <==> a == b,
        forall|a: T| #[trigger] le(a, a),
        forall|a: T| !#[trigger] lt(a, a),
        forall|a: T, b: T| #[trigger] lt(a, b) ==> le(a, b),
        forall|a: T, b: T| #[trigger] lt(a, b) ==> !le(b, a),
        forall|a: T, b: T| !(#[trigger] le(b, a)) ==> lt(a, b),
        forall|a: T, b: T, c: T| #[trigger] le(a, b) && #[trigger] le(b, c) ==> le(a, c),
        forall|a: T, b: T, c: T| #[trigger] lt(a, b) && #[trigger] le(b, c) ==> lt(a, c),
        forall|a: T, b: T, c: T| #[trigger] le(a, b) && #[trigger] lt(b, c) ==> lt(a, c),
{
    reveal(vstd::laws_cmp::obeys_cmp_partial_ord);
    reveal(vstd::laws_cmp::obeys_cmp_ord);
    reveal(vstd::laws_cmp::obeys_partial_cmp_spec_properties);
    reveal(vstd::laws_eq::obeys_eq_spec_properties);
    reveal(vstd::laws_eq::obeys_concrete_eq);
    assert forall|a: T, b: T| #[trigger] a.partial_cmp_spec(&b) == Some(a.cmp_spec(&b)) by {}
    assert forall|a: T, b: T| (#[trigger] a.cmp_spec(&b) == Ordering::Equal) <==> a == b by {
        assert(a.partial_cmp_spec(&b) == Some(a.cmp_spec(&b)));
        assert(a.eq_spec(&b) <==> a == b);
    }
    assert forall|a: T| #[trigger] le(a, a) && !lt(a, a) by {
        assert(a.eq_spec(&a) <==> a == a);
        assert(a.partial_cmp_spec(&a) == Some(a.cmp_spec(&a)));
    }
    assert forall|a: T, b: T| !(#[trigger] le(b, a)) implies lt(a, b) by {
        assert(a.partial_cmp_spec(&b) == Some(a.cmp_spec(&b)));
        assert(b.partial_cmp_spec(&a) == Some(b.cmp_spec(&a)));
    }
    assert forall|a: T, b: T| #[trigger] lt(a, b) implies !le(b, a) by {
        assert(a.partial_cmp_spec(&b) == Some(a.cmp_spec(&b)));
        assert(b.partial_cmp_spec(&a) == Some(b.cmp_spec(&a)));
    }
    assert forall|a: T, b: T, c: T| #[trigger] le(a, b) && #[trigger] le(b, c) implies le(
        a,
        c,
    ) by {
        lemma_cmp_pairs::<T>(a, b, c);
    }
    assert forall|a: T, b: T, c: T| #[trigger] lt(a, b) && #[trigger] le(b, c) implies lt(
        a,
        c,
    ) by {
        lemma_cmp_pairs::<T>(a, b, c);
    }
    assert forall|a: T, b: T, c: T| #[trigger] le(a, b) && #[trigger] lt(b, c) implies lt(
        a,
        c,
    ) by {
        lemma_cmp_pairs::<T>(a, b, c);
    }
}

/// Instantiates the order laws on every pair drawn from three elements.
proof fn lemma_cmp_pairs<T: Clone + Ord>(a: T, b: T, c: T)
    requires
        lawful_elements::<T>(),
    ensures
        a.partial_cmp_spec(&b) == Some(a.cmp_spec(&b)),
        b.partial_cmp_spec(&c) == Some(b.cmp_spec(&c)),
        a.partial_cmp_spec(&c) == Some(a.cmp_spec(&c)),
        a.cmp_spec(&b) == Ordering::Less && b.cmp_spec(&c) == Ordering::Less ==> a.cmp_spec(&c)
            == Ordering::Less,
        a.cmp_spec(&b) == Ordering::Equal ==> a == b,
        b.cmp_spec(&c) == Ordering::Equal ==> b == c,
        a.cmp_spec(&c) == Ordering::Equal ==> a == c,
        a.cmp_spec(&c) == Ordering::Greater ==> c.cmp_spec(&a) == Ordering::Less,
        c.cmp_spec(&a) == Ordering::Less && a.cmp_spec(&b) == Ordering::Less ==> c.cmp_spec(&b)
            == Ordering::Less,
        c.cmp_spec(&b) == Ordering::Less ==> b.cmp_spec(&c) == Ordering::Greater,
        c.cmp_spec(&a) == Ordering::Equal ==> c == a,
        b.cmp_spec(&c) == Ordering::Less && c.cmp_spec(&a) == Ordering::Less ==> b.cmp_spec(&a)
            == Ordering::Less,
        b.cmp_spec(&a) == Ordering::Less ==> a.cmp_spec(&b) == Ordering::Greater,
{
    reveal(vstd::laws_cmp::obeys_cmp_partial_ord);
    reveal(vstd::laws_cmp::obeys_cmp_ord);
    reveal(vstd::laws_cmp::obeys_partial_cmp_spec_properties);
    reveal(vstd::laws_eq::obeys_eq_spec_properties);
    reveal(vstd::laws_eq::obeys_concrete_eq);
    assert(a.partial_cmp_spec(&b) == Some(a.cmp_spec(&b)));
    assert(b.partial_cmp_spec(&a) == Some(b.cmp_spec(&a)));
    assert(b.partial_cmp_spec(&c) == Some(b.cmp_spec(&c)));
    assert(c.partial_cmp_spec(&b) == Some(c.cmp_spec(&b)));
    assert(a.partial_cmp_spec(&c) == Some(a.cmp_spec(&c)));
    assert(c.partial_cmp_spec(&a) == Some(c.cmp_spec(&a)));
}

/// Where the window of min entry `a` starts: just after the queue position
/// of the entry before it, or at the queue's front for the first entry.
spec fn window_start(ix: Seq<int>, a: int) -> int {
    if a == 0 {
        0
    } else {
        ix[a - 1] + 1
    }
}

/// A FIFO queue over `T` that reports its least element in constant time.
pub struct MinQueue<T> {
    queue: VecDeque<T>,
    min: VecDeque<T>,
    indices: Ghost<Seq<int>>,
}

impl<T> View for MinQueue<T> {
    type V = Seq<T>;

    /// The queued elements, oldest first.
    closed spec fn view(&self) -> Seq<T> {
        self.queue@
    }
}

impl<T: Clone + Ord> Default for MinQueue<T> {
    /// An empty queue.
    fn default() -> (q: Self)
        ensures
            q.wf(),
            q@ == Seq::<T>::empty(),
    {
        Self::new()
    }
}

impl<T: Clone + Ord> MinQueue<T> {
    /// The two deques and the ghost positions of the min entries within the
    /// queue form a valid min-stack: positions strictly increase, each min
    /// entry is the queue element at its position, each entry is no greater
    /// than everything from its window start on, and strictly smaller than
    /// everything in the window before its own position.
    spec fn stack_ok(q: Seq<T>, m: Seq<T>, ix: Seq<int>) -> bool {
        &&& m.len() == ix.len()
        &&& forall|a: int, b: int| 0 <= a < b < ix.len() ==> #[trigger] ix[a] < #[trigger] ix[b]
        &&& forall|a: int| 0 <= a < ix.len() ==> 0 <= #[trigger] ix[a] < q.len()
        &&& forall|a: int| 0 <= a < ix.len() ==> #[trigger] m[a] == q[ix[a]]
        &&& forall|a: int, j: int|
            0 <= a < ix.len() && window_start(ix, a) <= j < q.len() ==> le(
                #[trigger] m[a],
                #[trigger] q[j],
            )
        &&& forall|a: int, j: int|
            0 <= a < ix.len() && window_start(ix, a) <= j < ix[a] ==> lt(
                #[trigger] m[a],
                #[trigger] q[j],
            )
    }

    /// The queue's internal invariant.
    pub closed spec fn wf(self) -> bool {
        &&& Self::stack_ok(self.queue@, self.min@, self.indices@)
        &&& self.queue@.len() > 0 ==> self.min@.len() > 0
        &&& self.queue@.len() == 0 ==> self.min@.len() == 0
        &&& self.min@.len() > 0 ==> self.indices@[self.min@.len() - 1] == self.queue@.len() - 1
    }

    /// An empty queue.
    pub fn new() -> (q: Self)
        ensures
            q.wf(),
            q@ == Seq::<T>::empty(),
    {
        Self { queue: VecDeque::new(), min: VecDeque::new(), indices: Ghost(Seq::empty()) }
    }

    /// Enqueues `val` at the back.
    pub fn push(&mut self, val: T)
        requires
            old(self).wf(),
            lawful_elements::<T>(),
        ensures
            final(self).wf(),
            final(self)@ == old(self)@.push(val),
    {
        proof {
            lemma_order_laws::<T>();
        }
        let ghost q = self.queue@;
        loop
            invariant
                lawful_elements::<T>(),
                self.queue@ == q,
                Self::stack_ok(q, self.min@, self.indices@),
                forall|j: int|
                    (if self.min@.len() > 0 {
                        self.indices@[self.min@.len() - 1] + 1
                    } else {
                        0
                    }) <= j < q.len() ==> lt(val, #[trigger] q[j]),
            ensures
                self.queue@ == q,
                Self::stack_ok(q, self.min@, self.indices@),
                self.min@.len() > 0 ==> le(self.min@[self.min@.len() - 1], val),
                forall|j: int|
                    (if self.min@.len() > 0 {
                        self.indices@[self.min@.len() - 1] + 1
                    } else {
                        0
                    }) <= j < q.len() ==> lt(val, #[trigger] q[j]),
            decreases self.min.len(),
        {
            proof {
                lemma_order_laws::<T>();
            }
            if self.min.len() == 0 {
                break;
            }
            let back_index = self.min.len() - 1;
            if val >= self.min[back_index] {
                break;
            }
            let ghost m0 = self.min@;
            let ghost ix0 = self.indices@;
            self.min.pop_back();
            self.indices = Ghost(self.indices@.drop_last());
            proof {
                let m = self.min@;
                let ix = self.indices@;
                let last = m0.len() - 1;
                assert(lt(val, m0[last]));
                assert(m =~= m0.drop_last());
                assert(forall|a: int| 0 <= a < ix.len() ==> #[trigger] ix[a] == ix0[a]);
                assert(forall|a: int| 0 <= a < m.len() ==> #[trigger] m[a] == m0[a]);
                assert forall|a: int, j: int|
                    0 <= a < ix.len() && window_start(ix, a) <= j < q.len() implies le(
                    #[trigger] m[a],
                    #[trigger] q[j],
                ) by {
                    assert(window_start(ix, a) == window_start(ix0, a));
                    assert(le(m0[a], q[j]));
                }
                assert forall|a: int, j: int|
                    0 <= a < ix.len() && window_start(ix, a) <= j < ix[a] implies lt(
                    #[trigger] m[a],
                    #[trigger] q[j],
                ) by {
                    assert(window_start(ix, a) == window_start(ix0, a));
                    assert(lt(m0[a], q[j]));
                }
                assert forall|j: int|
                    (if m.len() > 0 {
                        ix[m.len() - 1] + 1
                    } else {
                        0
                    }) <= j < q.len() implies lt(val, #[trigger] q[j]) by {
                    if j < ix0[last] {
                        assert(window_start(ix0, last) <= j);
                        assert(lt(m0[last], q[j]));
                    } else if j == ix0[last] {
                        assert(m0[last] == q[j]);
                    } else {
                        assert((ix0[last] + 1) <= j < q.len());
                    }
                }
            }
        }
        let ghost m1 = self.min@;
        let ghost ix1 = self.indices@;
        self.queue.push_back(val.clone());
        self.min.push_back(val);
        self.indices = Ghost(self.indices@.push(q.len() as int));
        proof {
            let qn = self.queue@;
            let m = self.min@;
            let ix = self.indices@;
            assert(cloned::<T>(val, qn[q.len() as int]));
            assert(qn =~= q.push(val));
            assert(forall|a: int| 0 <= a < ix1.len() ==> #[trigger] ix[a] == ix1[a]);
            assert(forall|a: int| 0 <= a < m1.len() ==> #[trigger] m[a] == m1[a]);
            assert(forall|j: int| 0 <= j < q.len() ==> #[trigger] qn[j] == q[j]);
            assert(m[m.len() - 1] == val && ix[ix.len() - 1] == q.len());
            // every surviving min entry is no greater than the new element
            assert forall|a: int| 0 <= a < m1.len() implies le(#[trigger] m[a], val) by {
                let last = m1.len() - 1;
                assert(window_start(ix1, a) <= ix1[last] < q.len());
                assert(le(m1[a], q[ix1[last]]));
                assert(q[ix1[last]] == m1[last]);
                assert(le(m1[last], val));
            }
            assert forall|a: int, j: int|
                0 <= a < ix.len() && window_start(ix, a) <= j < qn.len() implies le(
                #[trigger] m[a],
                #[trigger] qn[j],
            ) by {
                if a < ix1.len() {
                    assert(window_start(ix, a) == window_start(ix1, a));
                    if j < q.len() {
                        assert(le(m1[a], q[j]));
                    } else {
                        assert(le(m[a], val));
                    }
                } else {
                    assert(window_start(ix, a) == (if ix1.len() > 0 {
                        ix1[ix1.len() - 1] + 1
                    } else {
                        0
                    }));
                    if j < q.len() {
                        assert(lt(val, q[j]));
                    } else {
                        assert(le(val, val));
                    }
                }
            }
            assert forall|a: int, j: int|
                0 <= a < ix.len() && window_start(ix, a) <= j < ix[a] implies lt(
                #[trigger] m[a],
                #[trigger] qn[j],
            ) by {
                if a < ix1.len() {
                    assert(window_start(ix, a) == window_start(ix1, a));
                    assert(lt(m1[a], q[j]));
                } else {
                    assert(lt(val, q[j]));
                }
            }
        }
    }

    /// Dequeues and returns the oldest element, or `None` when empty.
    pub fn pop(&mut self) -> (r: Option<T>)
        requires
            old(self).wf(),
            lawful_elements::<T>(),
        ensures
            final(self).wf(),
            match r {
                Some(v) => {
                    &&& old(self)@.len() > 0
                    &&& v == old(self)@[0]
                    &&& final(self)@ == old(self)@.drop_first()
                },
                None => {
                    &&& old(self)@.len() == 0
                    &&& final(self)@ == old(self)@
                },
            },
    {
        proof {
            lemma_order_laws::<T>();
        }
        let ghost q = self.queue@;
        let ghost m0 = self.min@;
        let ghost ix0 = self.indices@;
        let popped = self.queue.pop_front();
        match &popped {
            None => {},
            Some(p) => {
                let should_pop_min = *p == self.min[0];
                proof {
                    assert(m0[0] == q[ix0[0]]);
                    if should_pop_min {
                        // the popped element equals the least entry, whose
                        // queue position can only be the front: anything
                        // before it would be strictly greater than it
                        if ix0[0] > 0 {
                            assert(window_start(ix0, 0) <= 0 < ix0[0]);
                            assert(lt(m0[0], q[0]));
                            assert(false);
                        }
                    } else {
                        if ix0[0] == 0 {
                            assert(m0[0] == q[0]);
                            assert(false);
                        }
                    }
                }
                if should_pop_min {
                    self.min.pop_front();
                    self.indices = Ghost(
                        Seq::new((ix0.len() - 1) as nat, |a: int| ix0[a + 1] - 1),
                    );
                    proof {
                        let qn = self.queue@;
                        let m = self.min@;
                        let ix = self.indices@;
                        assert(qn =~= q.drop_first());
                        assert(m =~= m0.drop_first());
                        assert(forall|a: int| 0 <= a < m.len() ==> #[trigger] m[a] == m0[a + 1]);
                        assert(forall|j: int|
                            0 <= j < qn.len() ==> #[trigger] qn[j] == q[j + 1]);
                        assert forall|a: int, j: int|
                            0 <= a < ix.len() && window_start(ix, a) <= j < qn.len() implies le(
                            #[trigger] m[a],
                            #[trigger] qn[j],
                        ) by {
                            assert(window_start(ix0, a + 1) <= j + 1 < q.len());
                            assert(le(m0[a + 1], q[j + 1]));
                        }
                        assert forall|a: int, j: int|
                            0 <= a < ix.len() && window_start(ix, a) <= j < ix[a] implies lt(
                            #[trigger] m[a],
                            #[trigger] qn[j],
                        ) by {
                            assert(window_start(ix0, a + 1) <= j + 1 < ix0[a + 1]);
                            assert(lt(m0[a + 1], q[j + 1]));
                        }
                    }
                } else {
                    self.indices = Ghost(Seq::new(ix0.len(), |a: int| ix0[a] - 1));
                    proof {
                        let qn = self.queue@;
                        let m = self.min@;
                        let ix = self.indices@;
                        assert(qn =~= q.drop_first());
                        assert(forall|j: int|
                            0 <= j < qn.len() ==> #[trigger] qn[j] == q[j + 1]);
                        assert(0 < ix0[0]);
                        assert forall|a: int, j: int|
                            0 <= a < ix.len() && window_start(ix, a) <= j < qn.len() implies le(
                            #[trigger] m[a],
                            #[trigger] qn[j],
                        ) by {
                            assert(window_start(ix0, a) <= j + 1 < q.len());
                            assert(le(m0[a], q[j + 1]));
                        }
                        assert forall|a: int, j: int|
                            0 <= a < ix.len() && window_start(ix, a) <= j < ix[a] implies lt(
                            #[trigger] m[a],
                            #[trigger] qn[j],
                        ) by {
                            assert(window_start(ix0, a) <= j + 1 < ix0[a]);
                            assert(lt(m0[a], q[j + 1]));
                        }
                    }
                }
            },
        }
        popped
    }

    /// The oldest element, or `None` when empty.
    pub fn front(&self) -> (r: Option<&T>)
        ensures
            match r {
                Some(v) => self@.len() > 0 && *v == self@[0],
                None => self@.len() == 0,
            },
    {
        if self.queue.len() > 0 {
            Some(&self.queue[0])
        } else {
            None
        }
    }

    /// The least queued element, or `None` when empty.
    pub fn min(&self) -> (r: Option<&T>)
        requires
            self.wf(),
            lawful_elements::<T>(),
        ensures
            match r {
                Some(v) => {
                    &&& self@.len() > 0
                    &&& self@.contains(*v)
                    &&& forall|j: int| 0 <= j < self@.len() ==> le(*v, #[trigger] self@[j])
                },
                None => self@.len() == 0,
            },
    {
        if self.min.len() > 0 {
            let r = &self.min[0];
            proof {
                let q = self.queue@;
                let m0 = self.min@[0];
                assert(m0 == q[self.indices@[0]]);
                assert(q.contains(m0)) by {
                    assert(q[self.indices@[0]] == m0);
                }
                assert forall|j: int| 0 <= j < q.len() implies le(m0, #[trigger] q[j]) by {
                    assert(window_start(self.indices@, 0) == 0);
                }
            }
            Some(r)
        } else {
            None
        }
    }

    /// How many elements are queued.
    pub fn len(&self) -> (n: usize)
        ensures
            n == self@.len(),
    {
        self.queue.len()
    }

    /// Whether nothing is queued.
    pub fn is_empty(&self) -> (b: bool)
        ensures
            b == (self@.len() == 0),
    {
        self.queue.len() == 0
    }
}

} // verus!
