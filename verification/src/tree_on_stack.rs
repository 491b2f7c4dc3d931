//! A tree that lives on the call stack: each node borrows its parent.

use vstd::prelude::*;

verus! {

/// What folding `f` over the payloads `ch` can produce from the
/// accumulator `acc`: the chain of calls succeeds through every payload,
/// or stops at the first error. Each step is constrained only by what the
/// folded function's own contract admits.
pub open spec fn spec_fold_rel<A, E, T, F: Fn(A, &T) -> Result<A, E>>(
    f: F,
    ch: Seq<T>,
    acc: A,
    r: Result<A, E>,
) -> bool
    decreases ch.len(),
{
    if ch.len() == 0 {
        r == Ok::<A, E>(acc)
    } else {
        exists|m: Result<A, E>|
            #[trigger] call_ensures(f, (acc, &ch[0]), m) && (match m {
                Ok(a1) => spec_fold_rel(f, ch.drop_first(), a1, r),
                Err(e) => r == Err::<A, E>(e),
            })
    }
}

/// A chain of frames from some root down to this node; the whole chain
/// exists only as long as the stack frames that own its links.
pub struct Node<'a, T> {
    /// Payload of this node.
    pub data: T,
    /// The node this one was grown from, if any.
    pub parent: Option<&'a Node<'a, T>>,
}

impl<'a, T> Node<'a, T> {
    /// The payloads from the root down to this node, in root-first order.
    pub open spec fn chain(&self) -> Seq<T>
        decreases *self,
    {
        match self.parent {
            Some(p) => p.chain().push(self.data),
            None => seq![self.data],
        }
    }

    /// Builds a root node, the start of a chain.
    pub fn root(data: T) -> (n: Node<'a, T>)
        ensures
            n.chain() == seq![data],
            n.parent is None,
    {
        Node { data, parent: None }
    }

    /// Whether this node is a root.
    pub fn is_root(&self) -> (r: bool)
        ensures
            r == (self.parent is None),
            r == (self.chain().len() == 1),
    {
        proof {
            if self.parent is Some {
                assert(self.parent.unwrap().chain().len() >= 1);
            }
        }
        self.parent.is_none()
    }

    /// How many nodes stand above this one.
    ///
    /// The chain is bounded by the machine's address space, since every
    /// link is a live stack frame; the bound below only states that limit.
    pub fn level(&self) -> (r: usize)
        requires
            self.chain().len() <= usize::MAX,
        ensures
            r + 1 == self.chain().len(),
        decreases *self,
    {
        match self.parent {
            Some(p) => {
                proof {
                    assert(p.chain().len() >= 1);
                }
                p.level() + 1
            },
            None => 0,
        }
    }

    /// Grows the chain by one node borrowing this one.
    pub fn grow(&'a self, data: T) -> (n: Node<'a, T>)
        ensures
            n.chain() == self.chain().push(data),
            n.parent == Some(self),
    {
        Node { data, parent: Some(self) }
    }

    /// Folds `f` over the payloads from just below the root down to this
    /// node, root-nearest first, stopping at the first error; the root's
    /// own payload is not folded.
    pub fn fold<A, E, F: Fn(A, &T) -> Result<A, E>>(&self, init: A, f: F) -> (r: Result<A, E>)
        requires
            forall|a: A, t: &T| #[trigger] call_requires(f, (a, t)),
        ensures
            spec_fold_rel(f, self.chain().drop_first(), init, r),
    {
        let ghost full = self.chain().drop_first();
        let mut refs: Vec<&T> = Vec::new();
        let mut cur: &Node<'_, T> = self;
        loop
            invariant
                full == self.chain().drop_first(),
                cur.chain().len() >= 1,
                cur.chain() =~= self.chain().take(cur.chain().len() as int),
                refs@.len() + cur.chain().len() == self.chain().len(),
                forall|i: int|
                    0 <= i < refs@.len() ==> *(#[trigger] refs@[i]) == self.chain()[self.chain().len()
                        - 1 - i],
            ensures
                refs@.len() == full.len(),
                forall|i: int|
                    0 <= i < refs@.len() ==> *(#[trigger] refs@[i]) == full[full.len() - 1 - i],
            decreases cur.chain().len(),
        {
            match cur.parent {
                Some(p) => {
                    proof {
                        assert(p.chain().len() + 1 == cur.chain().len());
                        assert(cur.chain().drop_last() =~= p.chain());
                        assert(cur.chain().last() == cur.data);
                        assert(cur.chain()[(cur.chain().len() - 1) as int] == self.chain().take(
                            cur.chain().len() as int,
                        )[(cur.chain().len() - 1) as int]);
                        assert(cur.data == self.chain()[(self.chain().len() - 1
                            - refs@.len()) as int]);
                    }
                    refs.push(&cur.data);
                    cur = p;
                },
                None => {
                    proof {
                        assert(cur.chain().len() == 1);
                        assert(forall|i: int|
                            0 <= i < refs@.len() ==> #[trigger] full[full.len() - 1 - i]
                                == self.chain()[(self.chain().len() - 1 - i) as int]);
                    }
                    break ;
                },
            }
        }
        let mut acc = init;
        let mut left = refs.len();
        proof {
            assert(full.skip(0) =~= full);
        }
        loop
            invariant
                forall|a: A, t: &T| #[trigger] call_requires(f, (a, t)),
                full == self.chain().drop_first(),
                left <= refs@.len() == full.len(),
                forall|i: int|
                    0 <= i < refs@.len() ==> *(#[trigger] refs@[i]) == full[full.len() - 1 - i],
                forall|rr: Result<A, E>|
                    #[trigger] spec_fold_rel(f, full.skip(full.len() - left), acc, rr)
                        ==> spec_fold_rel(f, full, init, rr),
            decreases left,
        {
            if left == 0 {
                proof {
                    assert(full.skip(full.len() as int) =~= Seq::<T>::empty());
                    assert(spec_fold_rel(f, full.skip(full.len() as int), acc, Ok::<A, E>(acc)));
                }
                return Ok(acc);
            }
            let ghost tail = full.skip(full.len() - left);
            let ghost acc0 = acc;
            let step = f(acc, refs[left - 1]);
            proof {
                assert(tail[0] == full[full.len() - left]);
                assert(*refs@[left - 1] == tail[0]);
                assert(tail.drop_first() =~= full.skip(full.len() - (left - 1)));
            }
            match step {
                Ok(a1) => {
                    proof {
                        assert forall|rr: Result<A, E>|
                            #[trigger] spec_fold_rel(
                                f,
                                full.skip(full.len() - (left - 1)),
                                a1,
                                rr,
                            ) implies spec_fold_rel(f, full, init, rr) by {
                            assert(call_ensures(f, (acc0, &tail[0]), Ok::<A, E>(a1)));
                            assert(spec_fold_rel(f, tail, acc0, rr));
                        }
                    }
                    acc = a1;
                    left = left - 1;
                },
                Err(e) => {
                    proof {
                        assert(call_ensures(f, (acc0, &tail[0]), Err::<A, E>(e)));
                        assert(spec_fold_rel(f, tail, acc0, Err::<A, E>(e)));
                    }
                    return Err(e);
                },
            }
        }
    }

    /// Folds `f` over the payloads from this node up to and including the
    /// root, stopping at the first error.
    pub fn fold_r<A, E, F: Fn(A, &T) -> Result<A, E>>(&self, init: A, f: F) -> (r: Result<A, E>)
        requires
            forall|a: A, t: &T| #[trigger] call_requires(f, (a, t)),
        ensures
            spec_fold_rel(f, self.chain().reverse(), init, r),
    {
        let ghost full = self.chain().reverse();
        let mut acc = init;
        let mut cur: &Node<'_, T> = self;
        let ghost mut done: int = 0;
        proof {
            assert(full.skip(0) =~= full);
            assert(self.chain().take(self.chain().len() as int) =~= self.chain());
        }
        loop
            invariant
                forall|a: A, t: &T| #[trigger] call_requires(f, (a, t)),
                full == self.chain().reverse(),
                cur.chain().len() >= 1,
                0 <= done,
                done + cur.chain().len() == full.len(),
                cur.chain() =~= self.chain().take(cur.chain().len() as int),
                forall|rr: Result<A, E>|
                    #[trigger] spec_fold_rel(f, full.skip(done), acc, rr) ==> spec_fold_rel(
                        f,
                        full,
                        init,
                        rr,
                    ),
            decreases cur.chain().len(),
        {
            let ghost tail = full.skip(done);
            let ghost acc0 = acc;
            proof {
                assert(tail[0] == full[done]);
                assert(full[done] == self.chain()[self.chain().len() - 1 - done]);
                assert(cur.chain().last() == cur.data);
                assert(self.chain()[self.chain().len() - 1 - done] == cur.chain()[cur.chain().len()
                    - 1]);
                assert(tail[0] == cur.data);
                assert(tail.drop_first() =~= full.skip(done + 1));
            }
            let step = f(acc, &cur.data);
            match step {
                Ok(a1) => {
                    proof {
                        assert forall|rr: Result<A, E>|
                            #[trigger] spec_fold_rel(f, full.skip(done + 1), a1, rr) implies
                            spec_fold_rel(f, full, init, rr) by {
                            assert(call_ensures(f, (acc0, &tail[0]), Ok::<A, E>(a1)));
                            assert(spec_fold_rel(f, tail, acc0, rr));
                        }
                    }
                    acc = a1;
                },
                Err(e) => {
                    proof {
                        assert(call_ensures(f, (acc0, &tail[0]), Err::<A, E>(e)));
                        assert(spec_fold_rel(f, tail, acc0, Err::<A, E>(e)));
                    }
                    return Err(e);
                },
            }
            match cur.parent {
                Some(p) => {
                    proof {
                        assert(p.chain().len() + 1 == cur.chain().len());
                        assert(cur.chain().drop_last() =~= p.chain());
                        done = done + 1;
                    }
                    cur = p;
                },
                None => {
                    proof {
                        done = done + 1;
                        assert(full.skip(done) =~= Seq::<T>::empty());
                        assert(spec_fold_rel(f, full.skip(done), acc, Ok::<A, E>(acc)));
                    }
                    return Ok(acc);
                },
            }
        }
    }
}

} // verus!
