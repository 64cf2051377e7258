//! Grouping of a request's ranges into transfers: merge windows over the ranges
//! sorted by start, and the cutting of an oversized range into bounded pieces.
use crate::byte_range::{is_sorted_order, ByteRange};
use vstd::prelude::*;

verus! {

/// Whether a range starting at `start` joins a window that currently ends at
/// `wend`. Reads may bridge a gap of up to `gap` bytes (bytes in between are read
/// and thrown away); writes join only a range that starts exactly where the
/// window ends, since there is nothing to write into a gap.
pub open spec fn joins(write: bool, gap: int, wend: int, start: int) -> bool {
    if write {
        start == wend
    } else {
        start <= wend + gap
    }
}

/// The ranges of `rs` in the order given by `order`.
pub open spec fn in_order(rs: Seq<ByteRange>, order: Seq<usize>) -> Seq<ByteRange> {
    order.map_values(|i: usize| rs[i as int])
}

/// End of the window that holds sorted position `k`, counting positions up to `k`.
pub open spec fn window_end(s: Seq<ByteRange>, gap: int, write: bool, k: int) -> int
    decreases k,
{
    if k <= 0 {
        s[0].end as int
    } else {
        let prev = window_end(s, gap, write, k - 1);
        if joins(write, gap, prev, s[k].start as int) {
            if s[k].end > prev {
                s[k].end as int
            } else {
                prev
            }
        } else {
            s[k].end as int
        }
    }
}

/// Whether sorted position `k` opens a new window.
pub open spec fn starts_window(s: Seq<ByteRange>, gap: int, write: bool, k: int) -> bool {
    k == 0 || !joins(write, gap, window_end(s, gap, write, k - 1), s[k].start as int)
}

/// Last sorted position of the window that runs through position `k`.
pub open spec fn window_last(s: Seq<ByteRange>, gap: int, write: bool, k: int) -> int
    decreases s.len() - k,
{
    if 0 <= k && k + 1 < s.len() && !starts_window(s, gap, write, k + 1) {
        window_last(s, gap, write, k + 1)
    } else {
        k
    }
}

/// The groups of request indices that become one transfer each, for the sorted
/// positions from `k` on, where `k` opens a window. A window of two or more ranges
/// whose span fits in `max` bytes becomes one group; any other window gives one
/// group per range.
pub open spec fn plan_from(
    rs: Seq<ByteRange>,
    order: Seq<usize>,
    gap: int,
    max: int,
    write: bool,
    k: int,
) -> Seq<Seq<usize>>
    decreases order.len() - k,
{
    let s = in_order(rs, order);
    if k < 0 || k >= order.len() {
        seq![]
    } else {
        let l = window_last(s, gap, write, k);
        if l < k || l >= order.len() {
            seq![]
        } else if l > k && window_end(s, gap, write, l) - s[k].start <= max {
            seq![order.subrange(k, l + 1)] + plan_from(rs, order, gap, max, write, l + 1)
        } else {
            singles(order, k, l + 1) + plan_from(rs, order, gap, max, write, l + 1)
        }
    }
}

/// One group per sorted position in `[a, b)`.
pub open spec fn singles(order: Seq<usize>, a: int, b: int) -> Seq<Seq<usize>> {
    Seq::new((b - a) as nat, |i: int| seq![order[a + i]])
}

pub open spec fn plan(rs: Seq<ByteRange>, order: Seq<usize>, gap: int, max: int, write: bool) -> Seq<
    Seq<usize>,
> {
    plan_from(rs, order, gap, max, write, 0)
}

pub open spec fn groups_view(g: Seq<Vec<usize>>) -> Seq<Seq<usize>> {
    g.map_values(|v: Vec<usize>| v@)
}

fn joins_exec(write: bool, gap: usize, wend: u64, start: u64) -> (r: bool)
    ensures
        r == joins(write, gap as int, wend as int, start as int),
{
    if write {
        start == wend
    } else if start <= wend {
        true
    } else {
        start - wend <= gap as u64
    }
}

pub(crate) proof fn lemma_window_last_bounds(s: Seq<ByteRange>, gap: int, write: bool, k: int)
    requires
        0 <= k < s.len(),
    ensures
        k <= window_last(s, gap, write, k) < s.len(),
    decreases s.len() - k,
{
    if k + 1 < s.len() && !starts_window(s, gap, write, k + 1) {
        lemma_window_last_bounds(s, gap, write, k + 1);
    }
}

/// No window starts strictly after `k` and up to the last position of its window.
pub proof fn lemma_window_inside(s: Seq<ByteRange>, gap: int, write: bool, k: int)
    requires
        0 <= k < s.len(),
    ensures
        forall|j: int| k < j <= window_last(s, gap, write, k) ==> !starts_window(s, gap, write, j),
        window_last(s, gap, write, k) + 1 < s.len() ==> starts_window(
            s,
            gap,
            write,
            window_last(s, gap, write, k) + 1,
        ),
    decreases s.len() - k,
{
    if k + 1 < s.len() && !starts_window(s, gap, write, k + 1) {
        lemma_window_inside(s, gap, write, k + 1);
    }
}

/// The single groups of `[a, b)`, laid end to end, are the positions themselves.
pub proof fn lemma_singles_flatten(order: Seq<usize>, a: int, b: int)
    requires
        0 <= a <= b <= order.len(),
    ensures
        singles(order, a, b).flatten() == order.subrange(a, b),
    decreases b - a,
{
    if a == b {
        assert(singles(order, a, b) =~= Seq::<Seq<usize>>::empty());
        assert(order.subrange(a, b) =~= Seq::<usize>::empty());
    } else {
        lemma_singles_flatten(order, a + 1, b);
        assert(singles(order, a, b).drop_first() =~= singles(order, a + 1, b));
        assert(singles(order, a, b).first() == seq![order[a]]);
        assert(order.subrange(a, b) =~= seq![order[a]] + order.subrange(a + 1, b));
    }
}

/// Groups the ranges `rs`, taken in the sorted order `order`, into transfers.
pub fn plan_groups(
    rs: &Vec<ByteRange>,
    order: &Vec<usize>,
    max_gap: usize,
    max_transfer_size: usize,
    write: bool,
) -> (groups: Vec<Vec<usize>>)
    requires
        is_sorted_order(rs@, order@),
        forall|i: int| 0 <= i < rs.len() ==> rs@[i].start < rs@[i].end,
    ensures
        groups_view(groups@) == plan(rs@, order@, max_gap as int, max_transfer_size as int, write),
{
    let ghost s = in_order(rs@, order@);
    let ghost gap = max_gap as int;
    let ghost max = max_transfer_size as int;
    let n = order.len();
    let mut groups: Vec<Vec<usize>> = Vec::new();
    let mut a: usize = 0;
    while a < n
        invariant
            is_sorted_order(rs@, order@),
            n == order.len(),
            s == in_order(rs@, order@),
            gap == max_gap as int,
            max == max_transfer_size as int,
            a <= n,
            forall|i: int| 0 <= i < rs.len() ==> rs@[i].start < rs@[i].end,
            a < n ==> starts_window(s, gap, write, a as int),
            groups_view(groups@) + plan_from(rs@, order@, gap, max, write, a as int) == plan(
                rs@,
                order@,
                gap,
                max,
                write,
            ),
        decreases n - a,
    {
        let mut l: usize = a;
        let mut wend: u64 = rs[order[a]].end;
        while l + 1 < n && joins_exec(write, max_gap, wend, rs[order[l + 1]].start)
            invariant
                is_sorted_order(rs@, order@),
                n == order.len(),
                s == in_order(rs@, order@),
                gap == max_gap as int,
                a <= l < n,
                wend == window_end(s, gap, write, l as int),
                wend >= s[a as int].end,
                window_last(s, gap, write, a as int) == window_last(s, gap, write, l as int),
            decreases n - l,
        {
            proof {
                assert(!starts_window(s, gap, write, l + 1));
            }
            l = l + 1;
            let e = rs[order[l]].end;
            if e > wend {
                wend = e;
            }
        }
        proof {
            assert(window_last(s, gap, write, l as int) == l);
            lemma_window_last_bounds(s, gap, write, a as int);
        }
        let ghost prev = groups@;
        let first_start = rs[order[a]].start;
        if l > a && wend - first_start <= max_transfer_size as u64 {
            let mut g: Vec<usize> = Vec::new();
            let mut j: usize = a;
            while j <= l
                invariant
                    a <= j <= l + 1,
                    l < n,
                    n == order.len(),
                    g@ == order@.subrange(a as int, j as int),
                decreases l + 1 - j,
            {
                g.push(order[j]);
                j = j + 1;
                proof {
                    assert(g@ =~= order@.subrange(a as int, j as int));
                }
            }
            groups.push(g);
            proof {
                assert(groups_view(groups@) =~= groups_view(prev).push(
                    order@.subrange(a as int, l + 1),
                ));
                assert(groups_view(groups@) + plan_from(rs@, order@, gap, max, write, l + 1)
                    =~= groups_view(prev) + plan_from(rs@, order@, gap, max, write, a as int));
            }
        } else {
            let mut j: usize = a;
            while j <= l
                invariant
                    a <= j <= l + 1,
                    l < n,
                    n == order.len(),
                    groups_view(groups@) == groups_view(prev) + singles(
                        order@,
                        a as int,
                        j as int,
                    ),
                decreases l + 1 - j,
            {
                let ghost before = groups@;
                let mut g: Vec<usize> = Vec::new();
                g.push(order[j]);
                groups.push(g);
                j = j + 1;
                proof {
                    assert(g@ =~= seq![order@[j - 1]]);
                    assert(groups_view(groups@) =~= groups_view(before).push(seq![order@[j - 1]]));
                    assert(singles(order@, a as int, j as int) =~= singles(
                        order@,
                        a as int,
                        j - 1,
                    ).push(seq![order@[j - 1]]));
                    assert(groups_view(groups@) =~= groups_view(prev) + singles(
                        order@,
                        a as int,
                        j as int,
                    ));
                }
            }
            proof {
                assert(groups_view(groups@) + plan_from(rs@, order@, gap, max, write, l + 1)
                    =~= groups_view(prev) + plan_from(rs@, order@, gap, max, write, a as int));
            }
        }
        a = l + 1;
    }
    proof {
        assert(groups_view(groups@) =~= groups_view(groups@) + plan_from(
            rs@,
            order@,
            gap,
            max,
            write,
            a as int,
        ));
    }
    groups
}

/// The pieces of `[start, end)` cut every `max` bytes from `start`; the last piece
/// holds what is left.
pub open spec fn pieces(start: int, end: int, max: int) -> Seq<ByteRange>
    decreases end - start,
{
    if max <= 0 || end <= start {
        seq![]
    } else if end - start <= max {
        seq![ByteRange { start: start as u64, end: end as u64 }]
    } else {
        seq![ByteRange { start: start as u64, end: (start + max) as u64 }] + pieces(
            start + max,
            end,
            max,
        )
    }
}

/// Cuts `r` into pieces of at most `max` bytes each.
pub fn split_range(r: ByteRange, max: usize) -> (out: Vec<ByteRange>)
    requires
        max > 0,
        r.start < r.end,
    ensures
        out@ == pieces(r.start as int, r.end as int, max as int),
{
    let mut out: Vec<ByteRange> = Vec::new();
    let mut cur: u64 = r.start;
    while r.end - cur > max as u64
        invariant
            r.start <= cur < r.end,
            max > 0,
            out@ + pieces(cur as int, r.end as int, max as int) == pieces(
                r.start as int,
                r.end as int,
                max as int,
            ),
        decreases r.end - cur,
    {
        let next = cur + max as u64;
        let ghost before = out@;
        out.push(ByteRange { start: cur, end: next });
        proof {
            assert(out@ + pieces(next as int, r.end as int, max as int) =~= before + pieces(
                cur as int,
                r.end as int,
                max as int,
            ));
        }
        cur = next;
    }
    let ghost before = out@;
    out.push(ByteRange { start: cur, end: r.end });
    proof {
        assert(out@ =~= before + pieces(cur as int, r.end as int, max as int));
    }
    out
}

} // verus!
