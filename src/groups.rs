//! Ordering barrier between groups of operations: completions may arrive in any
//! order, but every completion of a group is delivered before any completion of
//! a later group.
use crate::optimise::{into_slots, take_slot};
use vstd::prelude::*;

verus! {

/// How many times `g` occurs in `s`.
pub open spec fn count_in(s: Seq<usize>, g: usize) -> nat
    decreases s.len(),
{
    if s.len() == 0 {
        0
    } else {
        count_in(s.drop_last(), g) + (if s.last() == g {
            1nat
        } else {
            0nat
        })
    }
}

proof fn lemma_count_push(s: Seq<usize>, x: usize, g: usize)
    ensures
        count_in(s.push(x), g) == count_in(s, g) + (if x == g {
            1nat
        } else {
            0nat
        }),
{
    assert(s.push(x).drop_last() =~= s);
}

/// The ordering facts of a delivery log: nothing beyond group `cur` has been
/// delivered, every group before `cur` has been delivered in full, and each
/// delivery came after every earlier group had been delivered in full.
pub open spec fn in_group_order(log: Seq<usize>, sizes: Seq<usize>, cur: usize) -> bool {
    &&& forall|j: int| 0 <= j < log.len() ==> log[j] <= cur
    &&& forall|g: usize| g < cur ==> #[trigger] count_in(log, g) == sizes[g as int]
    &&& forall|j: int, g: usize|
        0 <= j < log.len() && g < log[j] ==> #[trigger] count_in(log.subrange(0, j), g)
            == sizes[g as int]
}

/// Each completion received is either delivered or held, for every group but `skip`.
pub open spec fn accounted<T>(
    log: Seq<usize>,
    held: Seq<Seq<T>>,
    received: Seq<usize>,
    n: int,
    skip: int,
) -> bool {
    forall|g: int|
        0 <= g < n && g != skip ==> count_in(log, g as usize) + held[g].len() == #[trigger] received[g]
}

proof fn lemma_deliver_current(log: Seq<usize>, sizes: Seq<usize>, cur: usize)
    requires
        in_group_order(log, sizes, cur),
    ensures
        in_group_order(log.push(cur), sizes, cur),
        forall|g: usize| #[trigger] count_in(log.push(cur), g) == count_in(log, g) + (if g == cur {
            1nat
        } else {
            0nat
        }),
{
    let nl = log.push(cur);
    assert forall|g: usize| #[trigger] count_in(nl, g) == count_in(log, g) + (if g == cur {
        1nat
    } else {
        0nat
    }) by {
        lemma_count_push(log, cur, g);
    }
    assert forall|j: int, g: usize| 0 <= j < nl.len() && g < nl[j] implies #[trigger] count_in(
        nl.subrange(0, j),
        g,
    ) == sizes[g as int] by {
        if j < log.len() {
            assert(nl.subrange(0, j) =~= log.subrange(0, j));
        } else {
            assert(nl.subrange(0, j) =~= log);
        }
    }
}

/// The held completions of groups `a` to `b - 1`, group by group, each tagged
/// with its group.
pub open spec fn tagged<T>(held: Seq<Seq<T>>, a: int, b: int) -> Seq<(usize, T)>
    decreases b - a,
{
    if b <= a {
        seq![]
    } else {
        tagged(held, a, b - 1) + held[b - 1].map_values(|x: T| ((b - 1) as usize, x))
    }
}

/// Releases completions group by group. Group `g` expects `sizes[g]`
/// completions; those of a later group are held back until every earlier group
/// has been delivered in full.
pub struct GroupSequencer<T> {
    sizes: Vec<usize>,
    received: Vec<usize>,
    held: Vec<Vec<T>>,
    current: usize,
    log: Ghost<Seq<usize>>,
}

impl<T> GroupSequencer<T> {
    /// Expected completions per group.
    pub closed spec fn sizes(&self) -> Seq<usize> {
        self.sizes@
    }

    /// Completions received so far, per group.
    pub closed spec fn received(&self) -> Seq<usize> {
        self.received@
    }

    /// The group of each completion delivered so far, in delivery order.
    pub closed spec fn log(&self) -> Seq<usize> {
        self.log@
    }

    /// The group whose completions are being delivered.
    pub closed spec fn current(&self) -> usize {
        self.current
    }

    /// Completions held back, per group.
    pub closed spec fn held(&self) -> Seq<Seq<T>> {
        self.held@.map_values(|v: Vec<T>| v@)
    }

    pub open spec fn wf(&self) -> bool {
        &&& self.settled_wf()
        &&& self.current() + 1 < self.sizes().len() ==> count_in(self.log(), self.current())
            < self.sizes()[self.current() as int]
    }

    /// Everything `wf` asks but that the current group is still open.
    pub open spec fn settled_wf(&self) -> bool {
        let n = self.sizes().len();
        let cur = self.current();
        &&& self.received().len() == n
        &&& self.held().len() == n
        &&& (n == 0 || cur < n)
        &&& in_group_order(self.log(), self.sizes(), cur)
        &&& accounted(self.log(), self.held(), self.received(), n as int, -1)
        &&& forall|g: int| 0 <= g < n ==> #[trigger] self.received()[g] <= self.sizes()[g]
        &&& forall|g: int| 0 <= g <= cur && g < n ==> #[trigger] self.held()[g].len() == 0
    }

    /// A sequencer for groups of the given sizes, with nothing received yet.
    pub fn new(sizes: Vec<usize>) -> (r: Self)
        ensures
            r.wf(),
            r.sizes() == sizes@,
            r.received() == Seq::new(sizes@.len(), |g: int| 0usize),
            r.log() == Seq::<usize>::empty(),
            r.current() == 0 || r.current() < sizes@.len(),
            forall|g: int| 0 <= g < r.current() ==> sizes@[g] == 0,
            r.current() + 1 < sizes@.len() ==> sizes@[r.current() as int] > 0,
    {
        let n = sizes.len();
        let mut received: Vec<usize> = Vec::new();
        let mut held: Vec<Vec<T>> = Vec::new();
        let mut i: usize = 0;
        while i < n
            invariant
                i <= n,
                received@ == Seq::new(i as nat, |g: int| 0usize),
                held.len() == i,
                forall|g: int| 0 <= g < i ==> (#[trigger] held@[g])@.len() == 0,
            decreases n - i,
        {
            received.push(0);
            held.push(Vec::new());
            i = i + 1;
            proof {
                assert(received@ =~= Seq::new(i as nat, |g: int| 0usize));
            }
        }
        let mut current: usize = 0;
        while current + 1 < n && sizes[current] == 0
            invariant
                n == sizes.len(),
                current == 0 || current < n,
                forall|g: int| 0 <= g < current ==> sizes@[g] == 0,
            decreases n - current,
        {
            current = current + 1;
        }
        let r = GroupSequencer { sizes, received, held, current, log: Ghost(Seq::empty()) };
        proof {
            assert forall|g: int| 0 <= g < n implies #[trigger] r.held()[g].len() == 0 by {
                assert(r.held()[g] == r.held@[g]@);
            }
        }
        r
    }

    /// Records a completion of `group` carrying `item`, and returns what may be
    /// delivered now, in order, each with its group. A completion of the group
    /// being delivered goes out at once, followed by the held completions of each
    /// later group that becomes current; a completion of a later group is held.
    pub fn complete(&mut self, group: usize, item: T) -> (out: Vec<(usize, T)>)
        requires
            old(self).wf(),
            group < old(self).sizes().len(),
            old(self).received()[group as int] < old(self).sizes()[group as int],
        ensures
            final(self).wf(),
            final(self).sizes() == old(self).sizes(),
            final(self).received() == old(self).received().update(
                group as int,
                (old(self).received()[group as int] + 1) as usize,
            ),
            final(self).log() == old(self).log() + out@.map_values(|p: (usize, T)| p.0),
            group == old(self).current() ==> {
                &&& old(self).current() <= final(self).current()
                &&& out@ == seq![(group, item)] + tagged(
                    old(self).held(),
                    old(self).current() + 1,
                    final(self).current() + 1,
                )
                &&& forall|g: int|
                    final(self).current() < g < old(self).sizes().len() ==> #[trigger] final(self).held()[g] == old(self).held()[g]
            },
            group != old(self).current() ==> {
                &&& out@.len() == 0
                &&& final(self).current() == old(self).current()
                &&& final(self).held() == old(self).held().update(
                    group as int,
                    old(self).held()[group as int].push(item),
                )
            },
    {
        let n = self.sizes.len();
        let mut out: Vec<(usize, T)> = Vec::new();
        let r = self.received[group];
        self.received.set(group, r + 1);
        if group == self.current {
            proof {
                lemma_deliver_current(self.log@, self.sizes@, group);
            }
            out.push((group, item));
            self.log = Ghost(self.log@.push(group));
            proof {
                assert(out@.map_values(|p: (usize, T)| p.0) =~= seq![group]);
                assert(self.held() =~= old(self).held());
                assert(out@ =~= seq![(group, item)] + tagged(
                    old(self).held(),
                    old(self).current() + 1,
                    self.current + 1,
                ));
            }
            while self.current + 1 < n && self.received[self.current] == self.sizes[self.current]
                invariant
                    n == self.sizes.len(),
                    self.current < n,
                    self.settled_wf(),
                    self.sizes() == old(self).sizes(),
                    self.received() == old(self).received().update(
                        group as int,
                        (old(self).received()[group as int] + 1) as usize,
                    ),
                    self.log() == old(self).log() + out@.map_values(|p: (usize, T)| p.0),
                    group == old(self).current(),
                    old(self).current() <= self.current,
                    out@ == seq![(group, item)] + tagged(
                        old(self).held(),
                        old(self).current() + 1,
                        self.current + 1,
                    ),
                    forall|g: int|
                        self.current < g < n ==> #[trigger] self.held()[g] == old(self).held()[g],
                decreases n - self.current,
            {
                let next = self.current + 1;
                proof {
                    assert(count_in(self.log(), self.current) == self.sizes()[self.current as int]);
                }
                let ghost held_before = self.held();
                let mut taken: Vec<T> = Vec::new();
                std::mem::swap(&mut taken, &mut self.held[next]);
                self.current = next;
                proof {
                    assert(taken@ == held_before[next as int]);
                    assert(self.held() =~= held_before.update(next as int, seq![]));
                }
                let k = taken.len();
                let mut slots = into_slots(taken);
                let ghost items = slots@;
                proof {
                    assert(held_before[next as int] == old(self).held()[next as int]);
                    assert(old(self).held()[next as int].subrange(0, 0).map_values(|x: T| (next, x)) =~= Seq::<(usize, T)>::empty());
                    assert(tagged(old(self).held(), old(self).current() + 1, next as int) + Seq::<(usize, T)>::empty() =~= tagged(old(self).held(), old(self).current() + 1, next as int));
                }
                let mut i: usize = 0;
                while i < k
                    invariant
                        i <= k,
                        slots.len() == k,
                        n == self.sizes.len(),
                        self.current == next,
                        next < n,
                        self.received.len() == n,
                        self.held.len() == n,
                        self.sizes() == old(self).sizes(),
                        self.received() == old(self).received().update(
                            group as int,
                            (old(self).received()[group as int] + 1) as usize,
                        ),
                        forall|g: int| 0 <= g < n ==> #[trigger] self.received()[g] <= self.sizes()[g],
                        forall|g: int| 0 <= g <= next && g < n ==> #[trigger] self.held()[g].len() == 0,
                        in_group_order(self.log(), self.sizes(), next),
                        accounted(self.log(), self.held(), self.received(), n as int, next as int),
                        count_in(self.log(), next) + (k - i) == self.received()[next as int],
                        forall|j: int| i <= j < k ==> #[trigger] slots@[j] == items[j],
                        forall|j: int| 0 <= j < k ==> #[trigger] items[j] is Some,
                        self.log() == old(self).log() + out@.map_values(|p: (usize, T)| p.0),
                        group == old(self).current(),
                        old(self).current() < next,
                        items == old(self).held()[next as int].map_values(|x: T| Some(x)),
                        items.len() == k,
                        out@ == seq![(group, item)] + tagged(
                            old(self).held(),
                            old(self).current() + 1,
                            next as int,
                        ) + old(self).held()[next as int].subrange(0, i as int).map_values(
                            |x: T| (next, x),
                        ),
                        forall|g: int|
                            next < g < n ==> #[trigger] self.held()[g] == old(self).held()[g],
                    decreases k - i,
                {
                    let it = take_slot(&mut slots, i);
                    proof {
                        assert(it == items[i as int]);
                    }
                    match it {
                        Some(x) => {
                            proof {
                                lemma_deliver_current(self.log@, self.sizes@, next);
                            }
                            let ghost before = out@;
                            out.push((next, x));
                            self.log = Ghost(self.log@.push(next));
                            proof {
                                assert(out@.map_values(|p: (usize, T)| p.0) =~= before.map_values(
                                    |p: (usize, T)| p.0,
                                ).push(next));
                                let h = old(self).held()[next as int];
                                assert(items[i as int] == Some(h[i as int]));
                                assert(x == h[i as int]);
                                assert(h.subrange(0, i + 1).map_values(|x: T| (next, x)) =~= h.subrange(
                                    0,
                                    i as int,
                                ).map_values(|x: T| (next, x)).push((next, x)));
                            }
                        },
                        None => {},
                    }
                    i = i + 1;
                }
                proof {
                    let h = old(self).held()[next as int];
                    assert(h.subrange(0, k as int) =~= h);
                    assert(out@ =~= seq![(group, item)] + tagged(
                        old(self).held(),
                        old(self).current() + 1,
                        next + 1,
                    ));
                }
            }
        } else {
            proof {
                assert(group > self.current) by {
                    if group < self.current {
                        assert(count_in(self.log(), group) == self.sizes()[group as int]);
                        assert(self.held()[group as int].len() == 0);
                    }
                }
            }
            let ghost held_before = self.held();
            self.held[group].push(item);
            proof {
                assert(self.held() =~= held_before.update(group as int, held_before[group as int].push(item)));
            }
        }
        out
    }
}

/// Group barrier: when a completion of some group is delivered, every
/// completion of each earlier group has already been delivered.
pub proof fn lemma_groups_delivered_in_order<T>(s: &GroupSequencer<T>)
    requires
        s.wf(),
    ensures
        forall|j: int, g: usize|
            0 <= j < s.log().len() && g < s.log()[j] ==> #[trigger] count_in(s.log().subrange(0, j), g)
                == s.sizes()[g as int],
{
}

/// Nothing is held back for ever: once every completion of every group has
/// arrived, every one of them has been delivered.
pub proof fn lemma_all_delivered<T>(s: &GroupSequencer<T>)
    requires
        s.wf(),
        s.received() == s.sizes(),
    ensures
        forall|g: int| 0 <= g < s.sizes().len() ==> count_in(s.log(), g as usize) == #[trigger] s.sizes()[g],
{
    let n = s.sizes().len();
    let cur = s.current();
    if n > 0 {
        assert(count_in(s.log(), cur) + s.held()[cur as int].len() == s.received()[cur as int]);
        assert forall|g: int| 0 <= g < n implies count_in(s.log(), g as usize) == #[trigger] s.sizes()[g] by {
            if g < cur {
                assert(count_in(s.log(), g as usize) == s.sizes()[g]);
            } else {
                assert(count_in(s.log(), g as usize) + s.held()[g].len() == s.received()[g]);
            }
        }
    }
}

} // verus!
