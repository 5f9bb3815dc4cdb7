//! The enumerator: a head value, an enumerator over the tail, and an
//! insertion cursor into the tail's latest ordering.
use vstd::prelude::*;
use vstd::slice::slice_subrange;
use crate::order::{order, insert_head, lemma_order_at, lemma_order_entry};

verus! {

/// `b` is `a`, or was obtained from `a` by at most `steps` calls of `clone`
/// in a row.
pub open spec fn clone_chain<T: Clone>(a: T, b: T, steps: nat) -> bool
    decreases steps,
{
    a == b || (steps > 0 && exists|m: T|
        #![trigger cloned(m, b)]
        clone_chain(a, m, (steps - 1) as nat) && cloned(m, b))
}

/// Where `clone` of `T` always returns a value equal to its receiver, a chain
/// of clones ends at the value it started from: the orderings handed out then
/// hold the input values themselves.
pub proof fn lemma_exact_clone_chain<T: Clone>(a: T, b: T, steps: nat)
    requires
        forall|x: T, y: T| #[trigger] cloned(x, y) ==> x == y,
        clone_chain(a, b, steps),
    ensures
        a == b,
    decreases steps,
{
    if a != b {
        let m = choose|m: T| clone_chain(a, m, (steps - 1) as nat) && #[trigger] cloned(m, b);
        lemma_exact_clone_chain(a, m, (steps - 1) as nat);
    }
}

/// Enumerates the orderings of a sequence, one per call of [`Permutator::next`].
pub struct Permutator<T: Clone> {
    /// Length of the input this enumerator ranges over.
    length: usize,
    /// First element of the input; absent only for the empty input.
    head: Option<T>,
    /// Enumerator over the rest of the input; present when `length >= 2`.
    child: Option<Box<Permutator<T>>>,
    /// The child's latest ordering, while the head still has places to go in it.
    current: Option<Vec<T>>,
    /// Next index at which the head goes into `current`.
    cursor: usize,
    /// False once exhausted.
    active: bool,
}

impl<T: Clone> Permutator<T> {
    /// The values this enumerator reorders: its own copies of the input.
    pub closed spec fn items(&self) -> Seq<T>
        decreases self,
    {
        match self.head {
            None => Seq::empty(),
            Some(h) => match self.child {
                None => seq![h],
                Some(c) => seq![h] + c.items(),
            },
        }
    }

    /// How many orderings have been handed out so far.
    pub closed spec fn emitted(&self) -> nat
        decreases self,
    {
        if self.length < 2 {
            if self.active { 0 } else { self.length as nat }
        } else {
            match self.child {
                None => 0,
                Some(c) => if !self.active {
                    order(self.length as nat).len()
                } else {
                    match self.current {
                        Some(_) => ((c.emitted() - 1) * self.length + self.cursor) as nat,
                        None => c.emitted() * self.length as nat,
                    }
                },
            }
        }
    }

    /// The structural invariant, down the whole chain.
    pub closed spec fn wf(&self) -> bool
        decreases self,
    {
        let n = self.length as nat;
        if n == 0 {
            &&& !self.active
            &&& self.head is None
            &&& self.child is None
            &&& self.current is None
        } else if n == 1 {
            &&& self.head is Some
            &&& self.child is None
            &&& self.current is None
        } else {
            &&& self.head is Some
            &&& self.child is Some
            &&& {
                let c = self.child.unwrap();
                &&& c.length == n - 1
                &&& c.wf()
                &&& !self.active ==> c.emitted() == order((n - 1) as nat).len() && self.current is None
                &&& match self.current {
                    None => true,
                    Some(cur) => {
                        let p = order((n - 1) as nat)[c.emitted() - 1];
                        &&& c.emitted() >= 1
                        &&& cur@.len() == n - 1
                        &&& self.cursor < n
                        &&& forall|i: int| 0 <= i < n - 1 ==> #[trigger] clone_chain(
                            c.items()[p[i]],
                            cur@[i],
                            (n - 1) as nat,
                        )
                    },
                }
            }
        }
    }

    /// A well-formed enumerator holds one item per input position.
    proof fn lemma_items_len(&self)
        requires
            self.wf(),
        ensures
            self.items().len() == self.length,
        decreases self,
    {
        if self.length >= 2 {
            self.child.unwrap().lemma_items_len();
        }
    }

    /// A well-formed enumerator never counts past the end of its order.
    proof fn lemma_emitted_bound(&self)
        requires
            self.wf(),
        ensures
            self.emitted() <= order(self.length as nat).len(),
        decreases self,
    {
        let n = self.length as nat;
        if n >= 2 && self.active {
            let c = self.child.unwrap();
            c.lemma_emitted_bound();
            let m = order((n - 1) as nat).len();
            let e = c.emitted();
            if self.current is Some {
                lemma_order_at(n, e - 1, self.cursor as int);
            } else if e < m {
                lemma_order_at(n, e as int, 0);
            } else {
                assert(order(n).len() == m * n);
            }
        }
    }

    /// Builds an enumerator over `values`, holding a clone of each of them.
    pub fn new(values: &[T]) -> (r: Permutator<T>)
        ensures
            r.wf(),
            r.items().len() == values@.len(),
            forall|i: int| 0 <= i < values@.len() ==> cloned(values@[i], #[trigger] r.items()[i]),
            r.emitted() == 0,
        decreases values@.len(),
    {
        if values.len() == 0 {
            Permutator {
                length: 0,
                head: None,
                child: None,
                current: None,
                cursor: 0,
                active: false,
            }
        } else {
            let length = values.len();
            let head = values[0].clone();
            let child = if length == 1 {
                None
            } else {
                let c = Permutator::new(slice_subrange(values, 1, length));
                proof {
                    c.lemma_items_len();
                }
                Some(Box::new(c))
            };
            let r = Permutator { length, head: Some(head), child, current: None, cursor: 0, active: true };
            assert(length >= 2 ==> r.child.unwrap().emitted() * r.length as nat == 0);
            r
        }
    }

    /// Hands out the next ordering, or `None` once all have been handed out.
    ///
    /// Ordering number `k` (counted from zero) of an enumerator over `n` items
    /// holds at index `i` a clone, through at most `n` calls of `clone`, of
    /// item `order(n)[k][i]`. After the last ordering every call returns `None`
    /// and leaves the enumerator as it is.
    pub fn next(&mut self) -> (r: Option<Vec<T>>)
        requires
            old(self).wf(),
        ensures
            final(self).wf(),
            final(self).items() == old(self).items(),
            ({
                let n = old(self).items().len();
                let e = old(self).emitted();
                if e < order(n).len() {
                    &&& r is Some
                    &&& final(self).emitted() == e + 1
                    &&& r.unwrap()@.len() == n
                    &&& forall|i: int| 0 <= i < n ==> #[trigger] clone_chain(
                        old(self).items()[order(n)[e as int][i]],
                        r.unwrap()@[i],
                        n,
                    )
                } else {
                    &&& r is None
                    &&& final(self).emitted() == e
                }
            }),
        decreases old(self).items().len(),
    {
        proof {
            self.lemma_items_len();
            self.lemma_emitted_bound();
        }
        if !self.active {
            return None;
        }
        if self.length == 1 {
            self.active = false;
            let h = self.head.as_ref().unwrap().clone();
            let r = vec![h];
            proof {
                assert(cloned(self.items()[0], h));
                assert(clone_chain(self.items()[0], self.items()[0], 0));
                assert(clone_chain(self.items()[0], r@[0], 1));
            }
            return Some(r);
        }
        let ghost n = self.length as nat;
        proof {
            self.child.unwrap().lemma_items_len();
        }
        if self.current.is_none() {
            let ghost c0 = *self.child.unwrap();
            proof {
                c0.lemma_emitted_bound();
            }
            let pulled = match &mut self.child {
                Some(c) => c.next(),
                None => None,
            };
            proof {
                self.child.unwrap().lemma_items_len();
            }
            match pulled {
                None => {
                    self.active = false;
                    return None;
                },
                Some(p) => {
                    self.current = Some(p);
                    self.cursor = 0;
                },
            }
        }
        let ghost c = *self.child.unwrap();
        let ghost e = c.emitted();
        proof {
            c.lemma_items_len();
            c.lemma_emitted_bound();
            lemma_order_entry((n - 1) as nat, e - 1);
        }
        let ghost q = order((n - 1) as nat)[e - 1];
        let cursor = self.cursor;
        let cur = self.current.as_ref().unwrap();
        let head = self.head.as_ref().unwrap();
        let mut res: Vec<T> = Vec::with_capacity(self.length);
        let mut i: usize = 0;
        while i < cur.len()
            invariant
                cur@.len() == n - 1,
                cursor < n,
                i <= cur@.len(),
                res@.len() == if i > cursor { i + 1 } else { i as int },
                forall|j: int| 0 <= j < res@.len() ==> if j < cursor {
                    cloned(cur@[j], #[trigger] res@[j])
                } else if j == cursor {
                    cloned(*head, res@[j])
                } else {
                    cloned(cur@[j - 1], res@[j])
                },
            decreases cur@.len() - i,
        {
            if i == cursor {
                res.push(head.clone());
            }
            res.push(cur[i].clone());
            i += 1;
        }
        if cursor == cur.len() {
            res.push(head.clone());
        }
        let ghost k = (e - 1) * n + cursor;
        proof {
            lemma_order_at(n, e - 1, cursor as int);
            let p = order(n)[k];
            assert(p == insert_head(q, cursor as int));
            assert(self.items() == old(self).items());
            assert(n == old(self).items().len());
            assert forall|i: int| 0 <= i < n implies #[trigger] clone_chain(
                old(self).items()[p[i]],
                res@[i],
                n,
            ) by {
                if i < cursor {
                    assert(p[i] == q[i] + 1);
                    assert(self.items()[p[i]] == c.items()[q[i]]);
                    assert(clone_chain(c.items()[q[i]], cur@[i], (n - 1) as nat));
                    assert(cloned(cur@[i], res@[i]));
                } else if i == cursor {
                    assert(p[i] == 0);
                    assert(clone_chain(*head, *head, (n - 1) as nat));
                    assert(cloned(*head, res@[i]));
                } else {
                    assert(p[i] == q[i - 1] + 1);
                    assert(self.items()[p[i]] == c.items()[q[i - 1]]);
                    assert(clone_chain(c.items()[q[i - 1]], cur@[i - 1], (n - 1) as nat));
                    assert(cloned(cur@[i - 1], res@[i]));
                }
            }
            assert(e * n == k + n - cursor) by (nonlinear_arith)
                requires k == (e - 1) * n + cursor;
        }
        if cursor == cur.len() {
            self.current = None;
        } else {
            self.cursor = cursor + 1;
        }
        Some(res)
    }
}

} // verus!
