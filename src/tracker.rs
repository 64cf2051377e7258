//! Fixed-capacity slot table for in-flight operations.
//!
//! A slot index is in one of three states: free (queued for reuse, empty),
//! reserved but empty (handed out by `get_next_index`, nothing stored yet), or
//! occupied (reserved and holding a value). Free indices are handed out in
//! FIFO order; capacity never changes.
use std::collections::VecDeque;
use vstd::prelude::*;

verus! {

/// Shared well-formedness of a slot table, stated over its abstract parts.
pub open spec fn table_wf<V>(slots: Seq<Option<V>>, reserved: Seq<bool>, free: Seq<usize>) -> bool {
    &&& reserved.len() == slots.len()
    &&& free.no_duplicates()
    &&& forall|j: int| 0 <= j < free.len() ==> (free[j] as int) < slots.len()
    &&& forall|i: usize|
        (i as int) < slots.len() ==> (#[trigger] free.contains(i) <==> !reserved[i as int])
    &&& forall|i: int| 0 <= i < slots.len() && !reserved[i] ==> slots[i] is None
}

/// What handing out an index does: the front of the free queue is reserved and
/// returned; with an empty queue nothing changes and the result is `None`.
pub open spec fn allocate_step<V>(
    pre: (Seq<Option<V>>, Seq<bool>, Seq<usize>),
    post: (Seq<Option<V>>, Seq<bool>, Seq<usize>),
    r: Option<usize>,
) -> bool {
    if pre.2.len() == 0 {
        r is None && post == pre
    } else {
        &&& r == Some(pre.2[0])
        &&& post == (pre.0, pre.1.update(pre.2[0] as int, true), pre.2.drop_first())
    }
}

/// What releasing index `i` does: a reserved slot is emptied, its value
/// returned and the index queued at the back; a free index is left as it is
/// and gives `None`.
pub open spec fn release_step<V>(
    pre: (Seq<Option<V>>, Seq<bool>, Seq<usize>),
    post: (Seq<Option<V>>, Seq<bool>, Seq<usize>),
    i: usize,
    r: Option<V>,
) -> bool {
    &&& r == pre.0[i as int]
    &&& pre.1[i as int] ==> post == (
        pre.0.update(i as int, None),
        pre.1.update(i as int, false),
        pre.2.push(i),
    )
    &&& !pre.1[i as int] ==> post == pre
}

/// The free queue of a freshly built table of `n` slots: `0, 1, .., n - 1`.
pub open spec fn initial_free(n: nat) -> Seq<usize> {
    Seq::new(n, |i: int| i as usize)
}

/// Slot table that stores each value inline.
pub struct Tracker<T> {
    ops_in_flight: Vec<Option<T>>,
    reserved: Vec<bool>,
    next_index: VecDeque<usize>,
}

impl<T> Tracker<T> {
    /// What each slot holds.
    pub closed spec fn slots(&self) -> Seq<Option<T>> {
        self.ops_in_flight@
    }

    /// Whether each slot has been handed out and not yet released.
    pub closed spec fn reserved(&self) -> Seq<bool> {
        self.reserved@
    }

    /// The queue of free indices, front first.
    pub closed spec fn free_queue(&self) -> Seq<usize> {
        self.next_index@
    }

    pub open spec fn capacity(&self) -> nat {
        self.slots().len()
    }

    pub open spec fn wf(&self) -> bool {
        table_wf(self.slots(), self.reserved(), self.free_queue())
    }

    /// Slots, reservations and free queue together.
    pub open spec fn table(&self) -> (Seq<Option<T>>, Seq<bool>, Seq<usize>) {
        (self.slots(), self.reserved(), self.free_queue())
    }

    /// A table of `n` free, empty slots.
    pub fn new(n: usize) -> (r: Self)
        ensures
            r.wf(),
            r.slots() == Seq::new(n as nat, |i: int| None::<T>),
            r.reserved() == Seq::new(n as nat, |i: int| false),
            r.free_queue() == initial_free(n as nat),
    {
        let mut ops_in_flight: Vec<Option<T>> = Vec::new();
        let mut reserved: Vec<bool> = Vec::new();
        let mut next_index: VecDeque<usize> = VecDeque::new();
        let mut i: usize = 0;
        while i < n
            invariant
                i <= n,
                ops_in_flight@ == Seq::new(i as nat, |k: int| None::<T>),
                reserved@ == Seq::new(i as nat, |k: int| false),
                next_index@ == initial_free(i as nat),
            decreases n - i,
        {
            ops_in_flight.push(None);
            reserved.push(false);
            next_index.push_back(i);
            i = i + 1;
            proof {
                assert(ops_in_flight@ =~= Seq::new(i as nat, |k: int| None::<T>));
                assert(reserved@ =~= Seq::new(i as nat, |k: int| false));
                assert(next_index@ =~= initial_free(i as nat));
            }
        }
        let r = Tracker { ops_in_flight, reserved, next_index };
        proof {
            lemma_initial_table_wf(r.slots(), r.reserved(), n as nat);
        }
        r
    }

    /// Hands out the index at the front of the free queue, or `None` when every
    /// slot is reserved.
    pub fn get_next_index(&mut self) -> (r: Option<usize>)
        requires
            old(self).wf(),
        ensures
            final(self).wf(),
            allocate_step(old(self).table(), final(self).table(), r),
    {
        let r = self.next_index.pop_front();
        match r {
            Some(index) => {
                proof {
                    lemma_reserve_front(self.slots(), old(self).reserved(), old(self).free_queue());
                }
                self.reserved.set(index, true);
            },
            None => {},
        }
        r
    }

    /// Stores `op` in a reserved, empty slot.
    pub fn put(&mut self, index: usize, op: T)
        requires
            old(self).wf(),
            index < old(self).capacity(),
            old(self).reserved()[index as int],
            old(self).slots()[index as int] is None,
        ensures
            final(self).wf(),
            final(self).slots() == old(self).slots().update(index as int, Some(op)),
            final(self).reserved() == old(self).reserved(),
            final(self).free_queue() == old(self).free_queue(),
    {
        self.ops_in_flight.set(index, Some(op));
    }

    /// Mutable access to the value of an occupied slot; `None` for an empty one.
    pub fn as_mut(&mut self, index: usize) -> (r: Option<&mut T>)
        requires
            old(self).wf(),
            index < old(self).capacity(),
        ensures
            final(self).reserved() == old(self).reserved(),
            final(self).free_queue() == old(self).free_queue(),
            match old(self).slots()[index as int] {
                None => r is None && final(self).slots() == old(self).slots(),
                Some(v) => r is Some && *r.unwrap() == v && final(self).slots()
                    == old(self).slots().update(index as int, Some(*final(r.unwrap()))),
            },
    {
        self.ops_in_flight[index].as_mut()
    }

    /// Takes the value out of a reserved slot and puts the index back at the end
    /// of the free queue. A free index is left as it is and gives `None`.
    pub fn remove(&mut self, index: usize) -> (r: Option<T>)
        requires
            old(self).wf(),
            index < old(self).capacity(),
        ensures
            final(self).wf(),
            release_step(old(self).table(), final(self).table(), index, r),
    {
        if self.reserved[index] {
            let mut taken: Option<T> = None;
            std::mem::swap(&mut taken, &mut self.ops_in_flight[index]);
            proof {
                lemma_release(old(self).slots(), old(self).reserved(), old(self).free_queue(), index);
            }
            self.reserved.set(index, false);
            self.next_index.push_back(index);
            taken
        } else {
            None
        }
    }
}

/// Slot table that keeps each value behind its own heap allocation.
pub struct TrackerUsingBox<T> {
    ops_in_flight: Vec<Option<Box<T>>>,
    reserved: Vec<bool>,
    next_index: VecDeque<usize>,
}

/// What a boxed slot holds, seen through its box.
pub open spec fn unbox_slot<T>(s: Option<Box<T>>) -> Option<T> {
    match s {
        Some(b) => Some(*b),
        None => None,
    }
}

impl<T> TrackerUsingBox<T> {
    /// What each slot holds.
    pub closed spec fn slots(&self) -> Seq<Option<T>> {
        self.ops_in_flight@.map_values(|s: Option<Box<T>>| unbox_slot(s))
    }

    /// Whether each slot has been handed out and not yet released.
    pub closed spec fn reserved(&self) -> Seq<bool> {
        self.reserved@
    }

    /// The queue of free indices, front first.
    pub closed spec fn free_queue(&self) -> Seq<usize> {
        self.next_index@
    }

    pub open spec fn capacity(&self) -> nat {
        self.slots().len()
    }

    pub open spec fn wf(&self) -> bool {
        table_wf(self.slots(), self.reserved(), self.free_queue())
    }

    /// Slots, reservations and free queue together.
    pub open spec fn table(&self) -> (Seq<Option<T>>, Seq<bool>, Seq<usize>) {
        (self.slots(), self.reserved(), self.free_queue())
    }

    /// A table of `n` free, empty slots.
    pub fn new(n: usize) -> (r: Self)
        ensures
            r.wf(),
            r.slots() == Seq::new(n as nat, |i: int| None::<T>),
            r.reserved() == Seq::new(n as nat, |i: int| false),
            r.free_queue() == initial_free(n as nat),
    {
        let mut ops_in_flight: Vec<Option<Box<T>>> = Vec::new();
        let mut reserved: Vec<bool> = Vec::new();
        let mut next_index: VecDeque<usize> = VecDeque::new();
        let mut i: usize = 0;
        while i < n
            invariant
                i <= n,
                ops_in_flight@ == Seq::new(i as nat, |k: int| None::<Box<T>>),
                reserved@ == Seq::new(i as nat, |k: int| false),
                next_index@ == initial_free(i as nat),
            decreases n - i,
        {
            ops_in_flight.push(None);
            reserved.push(false);
            next_index.push_back(i);
            i = i + 1;
            proof {
                assert(ops_in_flight@ =~= Seq::new(i as nat, |k: int| None::<Box<T>>));
                assert(reserved@ =~= Seq::new(i as nat, |k: int| false));
                assert(next_index@ =~= initial_free(i as nat));
            }
        }
        let r = TrackerUsingBox { ops_in_flight, reserved, next_index };
        proof {
            assert(r.slots() =~= Seq::new(n as nat, |k: int| None::<T>));
            lemma_initial_table_wf(r.slots(), r.reserved(), n as nat);
        }
        r
    }

    /// Hands out the index at the front of the free queue, or `None` when every
    /// slot is reserved.
    pub fn get_next_index(&mut self) -> (r: Option<usize>)
        requires
            old(self).wf(),
        ensures
            final(self).wf(),
            allocate_step(old(self).table(), final(self).table(), r),
    {
        let r = self.next_index.pop_front();
        match r {
            Some(index) => {
                proof {
                    lemma_reserve_front(self.slots(), old(self).reserved(), old(self).free_queue());
                }
                self.reserved.set(index, true);
            },
            None => {},
        }
        r
    }

    /// Boxes `op` and stores it in a reserved, empty slot.
    pub fn put(&mut self, index: usize, op: T)
        requires
            old(self).wf(),
            index < old(self).capacity(),
            old(self).reserved()[index as int],
            old(self).slots()[index as int] is None,
        ensures
            final(self).wf(),
            final(self).slots() == old(self).slots().update(index as int, Some(op)),
            final(self).reserved() == old(self).reserved(),
            final(self).free_queue() == old(self).free_queue(),
    {
        let op = Box::new(op);
        self.ops_in_flight.set(index, Some(op));
        proof {
            assert(self.slots() =~= old(self).slots().update(index as int, Some(*op)));
        }
    }

    /// Mutable access to the value of an occupied slot; `None` for an empty one.
    pub fn as_mut(&mut self, index: usize) -> (r: Option<&mut T>)
        requires
            old(self).wf(),
            index < old(self).capacity(),
        ensures
            final(self).reserved() == old(self).reserved(),
            final(self).free_queue() == old(self).free_queue(),
            match old(self).slots()[index as int] {
                None => r is None && final(self).slots() == old(self).slots(),
                Some(v) => r is Some && *r.unwrap() == v && final(self).slots()
                    == old(self).slots().update(index as int, Some(*final(r.unwrap()))),
            },
    {
        match self.ops_in_flight[index].as_mut() {
            Some(b) => Some(&mut **b),
            None => None,
        }
    }

    /// Takes the value out of a reserved slot and puts the index back at the end
    /// of the free queue. A free index is left as it is and gives `None`.
    pub fn remove(&mut self, index: usize) -> (r: Option<T>)
        requires
            old(self).wf(),
            index < old(self).capacity(),
        ensures
            final(self).wf(),
            release_step(old(self).table(), final(self).table(), index, r),
    {
        if self.reserved[index] {
            let mut taken: Option<Box<T>> = None;
            std::mem::swap(&mut taken, &mut self.ops_in_flight[index]);
            proof {
                assert(self.slots() =~= old(self).slots().update(index as int, None));
                lemma_release(old(self).slots(), old(self).reserved(), old(self).free_queue(), index);
            }
            self.reserved.set(index, false);
            self.next_index.push_back(index);
            match taken {
                Some(b) => Some(*b),
                None => None,
            }
        } else {
            None
        }
    }
}

proof fn lemma_initial_table_wf<V>(slots: Seq<Option<V>>, reserved: Seq<bool>, n: nat)
    requires
        n <= usize::MAX,
        slots == Seq::new(n, |i: int| None::<V>),
        reserved == Seq::new(n, |i: int| false),
    ensures
        table_wf(slots, reserved, initial_free(n)),
{
    let free = initial_free(n);
    assert forall|i: usize| (i as int) < slots.len() implies #[trigger] free.contains(i) by {
        assert(free[i as int] == i);
    }
    assert forall|a: int, b: int| 0 <= a < free.len() && 0 <= b < free.len() && a != b implies free[a]
        != free[b] by {}
}

proof fn lemma_reserve_front<V>(slots: Seq<Option<V>>, reserved: Seq<bool>, free: Seq<usize>)
    requires
        table_wf(slots, reserved, free),
        free.len() > 0,
    ensures
        table_wf(slots, reserved.update(free[0] as int, true), free.drop_first()),
        !reserved[free[0] as int],
{
    let x = free[0];
    let rest = free.drop_first();
    assert(free.contains(x));
    assert forall|i: usize| (i as int) < slots.len() implies (#[trigger] rest.contains(i)
        <==> !reserved.update(x as int, true)[i as int]) by {
        if rest.contains(i) {
            let j = choose|j: int| 0 <= j < rest.len() && rest[j] == i;
            assert(free[j + 1] == i);
            assert(free.contains(i));
            assert(i != x);
        }
        if i != x && !reserved[i as int] {
            assert(free.contains(i));
            let j = choose|j: int| 0 <= j < free.len() && free[j] == i;
            assert(j != 0);
            assert(rest[j - 1] == i);
        }
    }
}

proof fn lemma_release<V>(slots: Seq<Option<V>>, reserved: Seq<bool>, free: Seq<usize>, index: usize)
    requires
        table_wf(slots, reserved, free),
        index < slots.len(),
        reserved[index as int],
    ensures
        table_wf(slots.update(index as int, None), reserved.update(index as int, false), free.push(index)),
{
    let nfree = free.push(index);
    assert(!free.contains(index));
    assert(nfree[free.len() as int] == index);
    assert forall|a: int, b: int| 0 <= a < nfree.len() && 0 <= b < nfree.len() && a != b implies nfree[a]
        != nfree[b] by {
        if a < free.len() && b < free.len() {
        } else if a < free.len() {
            assert(free.contains(free[a]));
        } else {
            assert(free.contains(free[b]));
        }
    }
    assert forall|i: usize| (i as int) < slots.len() implies (#[trigger] nfree.contains(i)
        <==> !reserved.update(index as int, false)[i as int]) by {
        if i == index {
            assert(nfree.contains(index));
        } else {
            if nfree.contains(i) {
                let j = choose|j: int| 0 <= j < nfree.len() && nfree[j] == i;
                assert(j < free.len());
                assert(free.contains(i));
            }
            if !reserved[i as int] {
                assert(free.contains(i));
                let j = choose|j: int| 0 <= j < free.len() && free[j] == i;
                assert(nfree[j] == i);
            }
        }
    }
}

/// Round trip: an index released right after it was handed out is back in
/// service, at the back of the free queue, so later calls hand it out again;
/// releasing it a second time is refused: it returns `None` and changes nothing.
pub proof fn lemma_release_round_trip<V>(
    t0: (Seq<Option<V>>, Seq<bool>, Seq<usize>),
    t1: (Seq<Option<V>>, Seq<bool>, Seq<usize>),
    t2: (Seq<Option<V>>, Seq<bool>, Seq<usize>),
    t3: (Seq<Option<V>>, Seq<bool>, Seq<usize>),
    i: usize,
    r2: Option<V>,
    r3: Option<V>,
)
    requires
        table_wf(t0.0, t0.1, t0.2),
        allocate_step(t0, t1, Some(i)),
        release_step(t1, t2, i, r2),
        release_step(t2, t3, i, r3),
    ensures
        t2.2 == t0.2.drop_first().push(i),
        t2.2.contains(i),
        !t2.1[i as int],
        r3 is None,
        t3 == t2,
{
    assert(t0.2.contains(i));
    lemma_reserve_front(t0.0, t0.1, t0.2);
    assert(t2.2[t2.2.len() - 1] == i);
}

} // verus!
