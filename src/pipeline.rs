//! Bookkeeping of the submission/completion pipeline: transfers wait in a
//! bounded queue while every slot is taken, and a request's result is assembled
//! from the outcomes of all its transfers.
use crate::operation::{Delivery, TransferFailure};
use crate::tracker::Tracker;
use std::collections::VecDeque;
use vstd::prelude::*;

verus! {

/// Transfers waiting for a free slot, first come first served, never more than
/// `limit` of them.
pub struct PendingQueue<T> {
    items: VecDeque<T>,
    limit: usize,
}

impl<T> PendingQueue<T> {
    pub closed spec fn items(&self) -> Seq<T> {
        self.items@
    }

    pub closed spec fn limit(&self) -> usize {
        self.limit
    }

    pub open spec fn wf(&self) -> bool {
        self.items().len() <= self.limit()
    }

    pub fn new(limit: usize) -> (r: Self)
        ensures
            r.wf(),
            r.items() == Seq::<T>::empty(),
            r.limit() == limit,
    {
        PendingQueue { items: VecDeque::new(), limit }
    }

    pub fn len(&self) -> (r: usize)
        ensures
            r == self.items().len(),
    {
        self.items.len()
    }

    /// Queues `item` at the back; a full queue refuses it and hands it back.
    pub fn push(&mut self, item: T) -> (r: Result<(), T>)
        requires
            old(self).wf(),
        ensures
            final(self).wf(),
            final(self).limit() == old(self).limit(),
            old(self).items().len() < old(self).limit() ==> {
                &&& r is Ok
                &&& final(self).items() == old(self).items().push(item)
            },
            old(self).items().len() >= old(self).limit() ==> {
                &&& r matches Err(x) && x == item
                &&& final(self).items() == old(self).items()
            },
    {
        if self.items.len() < self.limit {
            self.items.push_back(item);
            Ok(())
        } else {
            Err(item)
        }
    }

    /// Takes the item that has waited longest.
    pub fn pop(&mut self) -> (r: Option<T>)
        requires
            old(self).wf(),
        ensures
            final(self).wf(),
            final(self).limit() == old(self).limit(),
            old(self).items().len() == 0 ==> r is None && final(self).items() == old(self).items(),
            old(self).items().len() > 0 ==> r == Some(old(self).items()[0]) && final(self).items()
                == old(self).items().drop_first(),
    {
        self.items.pop_front()
    }
}

/// Where an incoming transfer went.
pub enum Admission<T> {
    /// Stored in the slot with this index.
    Placed(usize),
    /// Every slot is taken; the transfer waits in the pending queue.
    Queued,
    /// Every slot is taken and the pending queue is full; the transfer is handed back.
    Rejected(T),
}

/// Stores `item` in a free slot if there is one, else queues it; a full queue
/// refuses it.
pub fn place<T>(tracker: &mut Tracker<T>, pending: &mut PendingQueue<T>, item: T) -> (r: Admission<T>)
    requires
        old(tracker).wf(),
        old(pending).wf(),
    ensures
        final(tracker).wf(),
        final(pending).wf(),
        final(pending).limit() == old(pending).limit(),
        old(tracker).free_queue().len() > 0 ==> {
            let i = old(tracker).free_queue()[0];
            &&& r == Admission::<T>::Placed(i)
            &&& final(tracker).slots() == old(tracker).slots().update(i as int, Some(item))
            &&& final(tracker).free_queue() == old(tracker).free_queue().drop_first()
            &&& final(pending).items() == old(pending).items()
        },
        old(tracker).free_queue().len() == 0 ==> {
            &&& final(tracker).table() == old(tracker).table()
            &&& old(pending).items().len() < old(pending).limit() ==> {
                &&& r is Queued
                &&& final(pending).items() == old(pending).items().push(item)
            }
            &&& old(pending).items().len() >= old(pending).limit() ==> {
                &&& r == Admission::<T>::Rejected(item)
                &&& final(pending).items() == old(pending).items()
            }
        },
{
    let ghost before = tracker.table();
    match tracker.get_next_index() {
        Some(i) => {
            proof {
                assert(before.2[0] == i);
                assert(before.2.contains(i));
                assert(tracker.slots()[i as int] is None);
            }
            tracker.put(i, item);
            Admission::Placed(i)
        },
        None => match pending.push(item) {
            Ok(()) => Admission::Queued,
            Err(item) => Admission::Rejected(item),
        },
    }
}

/// After a slot has been released, moves the transfer that has waited longest
/// into a free slot. Returns its slot index, or `None` when nothing waits or no
/// slot is free.
pub fn refill<T>(tracker: &mut Tracker<T>, pending: &mut PendingQueue<T>) -> (r: Option<usize>)
    requires
        old(tracker).wf(),
        old(pending).wf(),
    ensures
        final(tracker).wf(),
        final(pending).wf(),
        final(pending).limit() == old(pending).limit(),
        old(pending).items().len() > 0 && old(tracker).free_queue().len() > 0 ==> {
            let i = old(tracker).free_queue()[0];
            &&& r == Some(i)
            &&& final(tracker).slots() == old(tracker).slots().update(
                i as int,
                Some(old(pending).items()[0]),
            )
            &&& final(tracker).free_queue() == old(tracker).free_queue().drop_first()
            &&& final(pending).items() == old(pending).items().drop_first()
        },
        !(old(pending).items().len() > 0 && old(tracker).free_queue().len() > 0) ==> {
            &&& r is None
            &&& final(tracker).table() == old(tracker).table()
            &&& final(pending).items() == old(pending).items()
        },
{
    if pending.len() == 0 {
        return None;
    }
    let ghost before = tracker.table();
    match tracker.get_next_index() {
        Some(i) => {
            proof {
                assert(before.2[0] == i);
                assert(before.2.contains(i));
                assert(tracker.slots()[i as int] is None);
            }
            match pending.pop() {
                Some(item) => {
                    tracker.put(i, item);
                    Some(i)
                },
                None => None,
            }
        },
        None => None,
    }
}

/// What a request has collected so far: how many of its transfers are still
/// outstanding, the results delivered, and the first failure.
pub struct RequestProgress<M> {
    outstanding: usize,
    deliveries: Vec<Delivery<M>>,
    failure: Option<TransferFailure>,
}

impl<M> RequestProgress<M> {
    pub closed spec fn outstanding(&self) -> usize {
        self.outstanding
    }

    pub closed spec fn deliveries(&self) -> Seq<Delivery<M>> {
        self.deliveries@
    }

    pub closed spec fn failure(&self) -> Option<TransferFailure> {
        self.failure
    }

    /// A request served by `n_ops` transfers, none finished.
    pub fn new(n_ops: usize) -> (r: Self)
        ensures
            r.outstanding() == n_ops,
            r.deliveries() == Seq::<Delivery<M>>::empty(),
            r.failure() is None,
    {
        RequestProgress { outstanding: n_ops, deliveries: Vec::new(), failure: None }
    }

    /// Records the outcome of one finished transfer; returns whether it was the
    /// last one outstanding.
    pub fn record(&mut self, outcome: Result<Vec<Delivery<M>>, TransferFailure>) -> (done: bool)
        requires
            old(self).outstanding() > 0,
        ensures
            final(self).outstanding() == old(self).outstanding() - 1,
            done == (final(self).outstanding() == 0),
            match outcome {
                Ok(ds) => {
                    &&& final(self).deliveries() == old(self).deliveries() + ds@
                    &&& final(self).failure() == old(self).failure()
                },
                Err(f) => {
                    &&& final(self).deliveries() == old(self).deliveries()
                    &&& final(self).failure() == (match old(self).failure() {
                        Some(g) => Some(g),
                        None => Some(f),
                    })
                },
            },
    {
        self.outstanding = self.outstanding - 1;
        match outcome {
            Ok(mut ds) => {
                self.deliveries.append(&mut ds);
            },
            Err(f) => {
                if self.failure.is_none() {
                    self.failure = Some(f);
                }
            },
        }
        self.outstanding == 0
    }

    /// The request's result: the first failure if any transfer failed, else
    /// every delivery in the order the transfers finished.
    pub fn finish(self) -> (r: Result<Vec<Delivery<M>>, TransferFailure>)
        ensures
            match self.failure() {
                Some(f) => r == Err::<Vec<Delivery<M>>, TransferFailure>(f),
                None => r matches Ok(ds) && ds@ == self.deliveries(),
            },
    {
        match self.failure {
            Some(f) => Err(f),
            None => Ok(self.deliveries),
        }
    }
}

} // verus!
