//! Event queues: one first-in first-out queue per event kind.
//!
//! Event kinds are named by `u32` keys that the caller assigns, one per kind
//! of event.

use vstd::prelude::*;

verus! {

/// Queues of events of type `E`, one per event-kind key.
pub struct Events<E> {
    pub(crate) kinds: Vec<u32>,
    pub(crate) queues: Vec<Vec<E>>,
}

/// Application exit event.
#[derive(Debug, Clone, Copy, PartialEq, Eq, Structural)]
pub struct AppExit;

impl<E> Events<E> {
    pub open(crate) spec fn wf(&self) -> bool {
        &&& self.kinds@.len() == self.queues@.len()
        &&& self.kinds@.no_duplicates()
    }

    /// The events of kind `kind`, oldest first.
    pub open(crate) spec fn queue(&self, kind: u32) -> Seq<E> {
        if self.kinds@.contains(kind) {
            self.queues@[self.kinds@.index_of(kind)]@
        } else {
            Seq::empty()
        }
    }

    proof fn lemma_position(&self, p: int)
        requires
            self.wf(),
            0 <= p < self.kinds@.len(),
        ensures
            self.kinds@.index_of(self.kinds@[p]) == p,
            self.queue(self.kinds@[p]) == self.queues@[p]@,
    {
        let k = self.kinds@[p];
        assert(self.kinds@.contains(k));
        let q = self.kinds@.index_of(k);
        assert(self.kinds@[q] == k);
    }

    /// Replacing the queue at one position changes the queue of its kind only.
    proof fn lemma_update(old_ev: &Self, new_ev: &Self, p: int)
        requires
            old_ev.wf(),
            0 <= p < old_ev.kinds@.len(),
            new_ev.kinds@ == old_ev.kinds@,
            new_ev.queues@ == old_ev.queues@.update(p, new_ev.queues@[p]),
        ensures
            new_ev.wf(),
            forall|k: u32|
                #[trigger] new_ev.queue(k) == if k == old_ev.kinds@[p] {
                    new_ev.queues@[p]@
                } else {
                    old_ev.queue(k)
                },
    {
        assert forall|k: u32| #[trigger] new_ev.queue(k) == if k == old_ev.kinds@[p] {
            new_ev.queues@[p]@
        } else {
            old_ev.queue(k)
        } by {
            if new_ev.kinds@.contains(k) {
                let q = new_ev.kinds@.index_of(k);
                new_ev.lemma_position(q);
                old_ev.lemma_position(q);
            }
        }
    }

    /// Creates an empty set of queues.
    pub fn new() -> (r: Self)
        ensures
            r.wf(),
            forall|k: u32| r.queue(k) == Seq::<E>::empty(),
    {
        Events { kinds: Vec::new(), queues: Vec::new() }
    }

    fn position(&self, kind: u32) -> (r: Option<usize>)
        requires
            self.wf(),
        ensures
            r is Some <==> self.kinds@.contains(kind),
            r matches Some(p) ==> p < self.kinds@.len() && self.kinds@[p as int] == kind,
    {
        let mut i: usize = 0;
        while i < self.kinds.len()
            invariant
                i <= self.kinds@.len(),
                forall|j: int| 0 <= j < i ==> self.kinds@[j] != kind,
            decreases self.kinds@.len() - i,
        {
            if self.kinds[i] == kind {
                return Some(i);
            }
            i = i + 1;
        }
        None
    }

    /// Appends `event` to the queue of `kind`.
    pub fn send(&mut self, kind: u32, event: E)
        requires
            old(self).wf(),
        ensures
            final(self).wf(),
            forall|k: u32|
                #[trigger] final(self).queue(k) == if k == kind {
                    old(self).queue(kind).push(event)
                } else {
                    old(self).queue(k)
                },
    {
        match self.position(kind) {
            Some(p) => {
                proof {
                    self.lemma_position(p as int);
                }
                let q = &mut self.queues[p];
                q.push(event);
                proof {
                    Self::lemma_update(old(self), self, p as int);
                }
            },
            None => {
                let mut q: Vec<E> = Vec::new();
                q.push(event);
                self.kinds.push(kind);
                self.queues.push(q);
                proof {
                    let n = old(self).kinds@.len() as int;
                    assert(self.kinds@.no_duplicates()) by {
                        assert(!old(self).kinds@.contains(kind));
                    }
                    assert forall|k: u32| #[trigger] self.queue(k) == if k == kind {
                        old(self).queue(kind).push(event)
                    } else {
                        old(self).queue(k)
                    } by {
                        if self.kinds@.contains(k) {
                            let i = self.kinds@.index_of(k);
                            self.lemma_position(i);
                            if i < n {
                                old(self).lemma_position(i);
                            } else {
                                assert(self.queues@[n]@ =~= Seq::<E>::empty().push(event));
                            }
                        } else {
                            assert(self.kinds@[n] == kind);
                            if old(self).kinds@.contains(k) {
                                let i = old(self).kinds@.index_of(k);
                                assert(self.kinds@[i] == k);
                            }
                        }
                    }
                }
            },
        }
    }

    /// The events of `kind`, oldest first, without removing them.
    pub fn read(&self, kind: u32) -> (r: Vec<&E>)
        requires
            self.wf(),
        ensures
            r@.len() == self.queue(kind).len(),
            forall|i: int| 0 <= i < r@.len() ==> *(#[trigger] r@[i]) == self.queue(kind)[i],
    {
        let mut out: Vec<&E> = Vec::new();
        match self.position(kind) {
            Some(p) => {
                proof {
                    self.lemma_position(p as int);
                }
                let q = &self.queues[p];
                let mut i: usize = 0;
                while i < q.len()
                    invariant
                        i <= q@.len(),
                        q@ == self.queue(kind),
                        out@.len() == i,
                        forall|j: int| 0 <= j < i ==> *(#[trigger] out@[j]) == q@[j],
                    decreases q@.len() - i,
                {
                    out.push(&q[i]);
                    i = i + 1;
                }
            },
            None => {},
        }
        out
    }

    /// Removes and returns the events of `kind`, oldest first.
    pub fn consume(&mut self, kind: u32) -> (r: Vec<E>)
        requires
            old(self).wf(),
        ensures
            final(self).wf(),
            r@ == old(self).queue(kind),
            forall|k: u32|
                #[trigger] final(self).queue(k) == if k == kind {
                    Seq::<E>::empty()
                } else {
                    old(self).queue(k)
                },
    {
        let mut taken: Vec<E> = Vec::new();
        match self.position(kind) {
            Some(p) => {
                proof {
                    self.lemma_position(p as int);
                }
                let q = &mut self.queues[p];
                std::mem::swap(q, &mut taken);
                proof {
                    Self::lemma_update(old(self), self, p as int);
                }
            },
            None => {},
        }
        taken
    }

    /// Empties the queue of `kind`.
    pub fn clear(&mut self, kind: u32)
        requires
            old(self).wf(),
        ensures
            final(self).wf(),
            forall|k: u32|
                #[trigger] final(self).queue(k) == if k == kind {
                    Seq::<E>::empty()
                } else {
                    old(self).queue(k)
                },
    {
        match self.position(kind) {
            Some(p) => {
                proof {
                    self.lemma_position(p as int);
                }
                let q = &mut self.queues[p];
                q.clear();
                proof {
                    Self::lemma_update(old(self), self, p as int);
                }
            },
            None => {},
        }
    }

    /// Empties every queue.
    pub fn clear_all(&mut self)
        ensures
            final(self).wf(),
            forall|k: u32| #[trigger] final(self).queue(k) == Seq::<E>::empty(),
    {
        self.kinds.clear();
        self.queues.clear();
    }
}

} // verus!
