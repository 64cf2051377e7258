//! What the transfers planned by `optimise` cover: the pieces of a split range,
//! the span of a merged group, and the bytes of the request as a whole.
use crate::byte_range::{is_sorted_order, ByteRange};
use crate::optimise::{
    group_ok, is_optimised, is_planned_op, lemma_plan_facts, merged_end, range_fault,
    request_error, request_parts, resolved_all, IoOperation, OptimisedOp,
};
use crate::plan::{joins, pieces, plan};
use vstd::prelude::*;

verus! {

/// The user ranges a transfer serves.
pub open spec fn served<M>(op: OptimisedOp<M>) -> Seq<usize> {
    match op {
        OptimisedOp::Unchanged { user_index, .. } => seq![user_index],
        OptimisedOp::Split { user_index, .. } => seq![user_index],
        OptimisedOp::Merged { user_indices, .. } => user_indices@,
    }
}

/// Some transfer of `ops` serves user range `u`.
pub open spec fn served_by_some<M>(ops: Seq<OptimisedOp<M>>, u: usize) -> bool {
    exists|t: int| 0 <= t < ops.len() && #[trigger] served(ops[t]).contains(u)
}

/// Some transfer of `ops` moves byte `x`.
pub open spec fn transfers_hold<M>(ops: Seq<OptimisedOp<M>>, x: int) -> bool {
    exists|t: int, j: int|
        0 <= t < ops.len() && 0 <= j < ops[t].transfers().len() && (#[trigger] ops[t].transfers()[j]).holds(x)
}

/// Some range of `rs` holds byte `x`.
pub open spec fn ranges_hold(rs: Seq<ByteRange>, x: int) -> bool {
    exists|u: usize| (u as int) < rs.len() && (#[trigger] rs[u as int]).holds(x)
}

/// Some range of `s` holds byte `x`.
pub open spec fn any_holds(s: Seq<ByteRange>, x: int) -> bool {
    exists|i: int| 0 <= i < s.len() && (#[trigger] s[i]).holds(x)
}

/// One of the first `m` members of the group `g` holds byte `x`.
pub open spec fn members_hold(rs: Seq<ByteRange>, g: Seq<usize>, m: int, x: int) -> bool {
    exists|i: int| 0 <= i < m && (#[trigger] rs[g[i] as int]).holds(x)
}

/// The pieces of a range lie end to end, in order, from its start to its end,
/// each non-empty and at most `max` bytes long.
pub proof fn lemma_pieces(start: int, end: int, max: int)
    requires
        0 <= start < end <= u64::MAX,
        max > 0,
    ensures
        pieces(start, end, max).len() >= 1,
        pieces(start, end, max)[0].start == start,
        pieces(start, end, max).last().end == end,
        forall|i: int|
            0 <= i < pieces(start, end, max).len() - 1 ==> (#[trigger] pieces(start, end, max)[i]).end
                == pieces(start, end, max)[i + 1].start,
        forall|i: int|
            0 <= i < pieces(start, end, max).len() ==> {
                let p = #[trigger] pieces(start, end, max)[i];
                &&& start <= p.start < p.end <= end
                &&& p.end - p.start <= max
            },
        forall|x: int| start <= x < end ==> #[trigger] any_holds(pieces(start, end, max), x),
    decreases end - start,
{
    let p = pieces(start, end, max);
    if end - start > max {
        lemma_pieces(start + max, end, max);
        let rest = pieces(start + max, end, max);
        assert(p == seq![ByteRange { start: start as u64, end: (start + max) as u64 }] + rest);
        assert forall|i: int| 0 <= i < p.len() - 1 implies (#[trigger] p[i]).end == p[i + 1].start by {
            if i > 0 {
                assert(p[i] == rest[i - 1]);
                assert(p[i + 1] == rest[i]);
            }
        }
        assert forall|i: int| 0 <= i < p.len() implies {
            let q = #[trigger] p[i];
            &&& start <= q.start < q.end <= end
            &&& q.end - q.start <= max
        } by {
            if i > 0 {
                assert(p[i] == rest[i - 1]);
            }
        }
        assert forall|x: int| start <= x < end implies #[trigger] any_holds(p, x) by {
            if x < start + max {
                assert(p[0].holds(x));
            } else {
                assert(any_holds(rest, x));
                let i = choose|i: int| 0 <= i < rest.len() && (#[trigger] rest[i]).holds(x);
                assert(p[i + 1] == rest[i]);
                assert(p[i + 1].holds(x));
            }
        }
    } else {
        assert(p[0].holds(start));
        assert forall|x: int| start <= x < end implies #[trigger] any_holds(p, x) by {
            assert(p[0].holds(x));
        }
    }
}

/// Every member ends no later than the largest end of the group.
pub proof fn lemma_merged_end_bounds(rs: Seq<ByteRange>, g: Seq<usize>)
    requires
        g.len() >= 1,
    ensures
        forall|i: int| 0 <= i < g.len() ==> rs[#[trigger] g[i] as int].end <= merged_end(rs, g),
    decreases g.len(),
{
    if g.len() > 1 {
        lemma_merged_end_bounds(rs, g.drop_last());
        assert forall|i: int| 0 <= i < g.len() implies rs[#[trigger] g[i] as int].end <= merged_end(rs, g) by {
            if i < g.len() - 1 {
                assert(g.drop_last()[i] == g[i]);
            }
        }
    }
}

/// When no member of a group leaves a gap before it, every byte from the first
/// start to the largest end of the first `m` members lies in one of them.
proof fn lemma_chain_cover(rs: Seq<ByteRange>, g: Seq<usize>, gap: int, max: int, write: bool, m: int)
    requires
        group_ok(rs, g, gap, max, write),
        gap == 0 || write,
        1 <= m <= g.len(),
    ensures
        forall|x: int|
            rs[g[0] as int].start <= x < merged_end(rs, g.subrange(0, m)) ==> #[trigger] members_hold(
                rs,
                g,
                m,
                x,
            ),
    decreases m,
{
    let h = g.subrange(0, m);
    if m == 1 {
        assert forall|x: int| rs[g[0] as int].start <= x < merged_end(rs, h) implies #[trigger] members_hold(rs, g, m, x) by {
            assert(rs[g[0] as int].holds(x));
        }
    } else {
        lemma_chain_cover(rs, g, gap, max, write, m - 1);
        assert(h.drop_last() =~= g.subrange(0, m - 1));
        assert(h.last() == g[m - 1]);
        assert(joins(write, gap, merged_end(rs, g.subrange(0, m - 1)), rs[g[m - 1] as int].start as int));
        assert forall|x: int| rs[g[0] as int].start <= x < merged_end(rs, h) implies #[trigger] members_hold(rs, g, m, x) by {
            if x < merged_end(rs, g.subrange(0, m - 1)) {
                assert(members_hold(rs, g, m - 1, x));
                let i = choose|i: int| 0 <= i < m - 1 && (#[trigger] rs[g[i] as int]).holds(x);
                assert(rs[g[i] as int].holds(x));
            } else {
                assert(rs[g[m - 1] as int].holds(x));
            }
        }
    }
}

/// An element of a group is an element of the groups laid end to end.
proof fn lemma_in_flatten(s: Seq<Seq<usize>>, t: int, i: int)
    requires
        0 <= t < s.len(),
        0 <= i < s[t].len(),
    ensures
        s.flatten().contains(s[t][i]),
    decreases s.len(),
{
    if t == 0 {
        assert(s.flatten() == s[0] + s.drop_first().flatten());
        assert(s.flatten()[i] == s[0][i]);
    } else {
        lemma_in_flatten(s.drop_first(), t - 1, i);
        assert(s.drop_first()[t - 1] == s[t]);
        let k = choose|k: int| 0 <= k < s.drop_first().flatten().len() && s.drop_first().flatten()[k] == s[t][i];
        assert(s.flatten()[s[0].len() + k] == s[t][i]);
    }
}

/// An element of the groups laid end to end lies in one of the groups.
proof fn lemma_from_flatten(s: Seq<Seq<usize>>, x: usize)
    requires
        s.flatten().contains(x),
    ensures
        exists|t: int, i: int| 0 <= t < s.len() && 0 <= i < s[t].len() && #[trigger] s[t][i] == x,
    decreases s.len(),
{
    if s.len() > 0 {
        assert(s.flatten() == s[0] + s.drop_first().flatten());
        let k = choose|k: int| 0 <= k < s.flatten().len() && s.flatten()[k] == x;
        if k < s[0].len() {
            assert(s[0][k] == x);
        } else {
            assert(s.drop_first().flatten()[k - s[0].len()] == x);
            lemma_from_flatten(s.drop_first(), x);
            let (t, i) = choose|t: int, i: int|
                0 <= t < s.drop_first().len() && 0 <= i < s.drop_first()[t].len() && #[trigger] s.drop_first()[t][i] == x;
            assert(s[t + 1][i] == x);
        }
    }
}

/// Groups laid end to end without repeats share no element.
proof fn lemma_flatten_disjoint(s: Seq<Seq<usize>>, t1: int, i1: int, t2: int, i2: int)
    requires
        s.flatten().no_duplicates(),
        0 <= t1 < t2 < s.len(),
        0 <= i1 < s[t1].len(),
        0 <= i2 < s[t2].len(),
    ensures
        s[t1][i1] != s[t2][i2],
    decreases s.len(),
{
    let rest = s.drop_first();
    assert(s.flatten() == s[0] + rest.flatten());
    assert(rest.flatten().no_duplicates()) by {
        assert forall|a: int, b: int| 0 <= a < b < rest.flatten().len() implies rest.flatten()[a] != rest.flatten()[b] by {
            assert(s.flatten()[s[0].len() + a] == rest.flatten()[a]);
            assert(s.flatten()[s[0].len() + b] == rest.flatten()[b]);
        }
    }
    if t1 == 0 {
        assert(rest[t2 - 1] == s[t2]);
        lemma_in_flatten(rest, t2 - 1, i2);
        let k = choose|k: int| 0 <= k < rest.flatten().len() && rest.flatten()[k] == s[t2][i2];
        assert(s.flatten()[i1] == s[0][i1]);
        assert(s.flatten()[s[0].len() + k] == s[t2][i2]);
    } else {
        assert(rest[t1 - 1] == s[t1]);
        assert(rest[t2 - 1] == s[t2]);
        lemma_flatten_disjoint(rest, t1 - 1, i1, t2 - 1, i2);
    }
}

/// The ranges of an accepted request resolve to non-empty ranges inside the file.
pub proof fn lemma_accepted_ranges<M>(op: IoOperation<M>, file_size: u64)
    requires
        request_error(op, file_size) is None,
    ensures
        request_parts(op).1.len() >= 1,
        forall|u: int|
            0 <= u < request_parts(op).1.len() ==> {
                let r = #[trigger] resolved_all(request_parts(op).1, file_size)[u];
                0 <= r.start < r.end <= file_size
            },
{
    let (fname, ranges, md, write, bufs) = request_parts(op);
    assert forall|u: int| 0 <= u < ranges.len() implies {
        let r = #[trigger] resolved_all(ranges, file_size)[u];
        0 <= r.start < r.end <= file_size
    } by {
        if range_fault(ranges, write, bufs, file_size, u) {
            assert(exists|i: int| 0 <= i < ranges.len() && range_fault(ranges, write, bufs, file_size, i));
        }
    }
}

/// The pieces of a split transfer lie end to end, in order, from the start to
/// the end of its user range, each non-empty and at most `max` bytes long.
pub open spec fn split_ok<M>(op: OptimisedOp<M>, max: int) -> bool {
    match op {
        OptimisedOp::Split { split_byte_ranges, user_byte_range, .. } => {
            let s = split_byte_ranges@;
            &&& s.len() >= 1
            &&& s[0].start == user_byte_range.start
            &&& s.last().end == user_byte_range.end
            &&& forall|i: int| 0 <= i < s.len() - 1 ==> (#[trigger] s[i]).end == s[i + 1].start
            &&& forall|i: int|
                0 <= i < s.len() ==> (#[trigger] s[i]).start < s[i].end && s[i].end - s[i].start <= max
        },
        _ => true,
    }
}

/// A merged transfer spans at most `max` bytes and holds each of its user ranges.
pub open spec fn merged_ok<M>(op: OptimisedOp<M>, max: int) -> bool {
    match op {
        OptimisedOp::Merged { merged_byte_range: m, user_byte_ranges, .. } => {
            &&& m.end - m.start <= max
            &&& forall|i: int|
                0 <= i < user_byte_ranges.len() ==> m.start <= (#[trigger] user_byte_ranges@[i]).start
                    && user_byte_ranges@[i].end <= m.end
        },
        _ => true,
    }
}

/// Every member of a planned group is an index of the request.
proof fn lemma_member_valid(
    rs: Seq<ByteRange>,
    order: Seq<usize>,
    gap: int,
    max: int,
    write: bool,
    t: int,
    i: int,
)
    requires
        is_sorted_order(rs, order),
        0 <= t < plan(rs, order, gap, max, write).len(),
        0 <= i < plan(rs, order, gap, max, write)[t].len(),
    ensures
        plan(rs, order, gap, max, write)[t][i] < rs.len(),
{
    let pl = plan(rs, order, gap, max, write);
    lemma_plan_facts(rs, order, gap, max, write, 0);
    assert(order.subrange(0, order.len() as int) =~= order);
    lemma_in_flatten(pl, t, i);
    let k = choose|k: int| 0 <= k < order.len() && order[k] == pl[t][i];
    assert(order[k] < rs.len());
}

/// The sorted order behind an optimised request.
spec fn order_of<M>(op: IoOperation<M>, file_size: u64, max_gap: int, max: int, ops: Seq<OptimisedOp<M>>) -> Seq<usize> {
    let (fname, ranges, md, write, bufs) = request_parts(op);
    let rs = resolved_all(ranges, file_size);
    choose|order: Seq<usize>|
        {
            &&& is_sorted_order(rs, order)
            &&& ops.len() == plan(rs, order, max_gap, max, write).len()
            &&& forall|t: int|
                0 <= t < ops.len() ==> is_planned_op(
                    #[trigger] ops[t],
                    fname,
                    rs,
                    md,
                    bufs,
                    write,
                    max,
                    plan(rs, order, max_gap, max, write)[t],
                )
        }
}

/// Split transfers: their pieces are contiguous, ordered, without overlap, and
/// none is longer than `max_transfer_size`.
pub proof fn lemma_split_outputs<M>(
    op: IoOperation<M>,
    file_size: u64,
    max_gap: int,
    max_transfer_size: int,
    ops: Seq<OptimisedOp<M>>,
)
    requires
        max_transfer_size > 0,
        request_error(op, file_size) is None,
        is_optimised(op, file_size, max_gap, max_transfer_size, ops),
    ensures
        forall|t: int| 0 <= t < ops.len() ==> split_ok(#[trigger] ops[t], max_transfer_size),
{
    let (fname, ranges, md, write, bufs) = request_parts(op);
    let rs = resolved_all(ranges, file_size);
    let order = order_of(op, file_size, max_gap, max_transfer_size, ops);
    let pl = plan(rs, order, max_gap, max_transfer_size, write);
    lemma_accepted_ranges(op, file_size);
    lemma_plan_facts(rs, order, max_gap, max_transfer_size, write, 0);
    assert forall|t: int| 0 <= t < ops.len() implies split_ok(#[trigger] ops[t], max_transfer_size) by {
        assert(is_planned_op(ops[t], fname, rs, md, bufs, write, max_transfer_size, pl[t]));
        if ops[t] is Split {
            let u = pl[t][0];
            lemma_member_valid(rs, order, max_gap, max_transfer_size, write, t, 0);
            lemma_pieces(rs[u as int].start as int, rs[u as int].end as int, max_transfer_size);
        }
    }
}

/// Merged transfers: the merged range is at most `max_transfer_size` bytes long
/// and holds every user range it serves.
pub proof fn lemma_merged_outputs<M>(
    op: IoOperation<M>,
    file_size: u64,
    max_gap: int,
    max_transfer_size: int,
    ops: Seq<OptimisedOp<M>>,
)
    requires
        max_transfer_size > 0,
        request_error(op, file_size) is None,
        is_optimised(op, file_size, max_gap, max_transfer_size, ops),
    ensures
        forall|t: int| 0 <= t < ops.len() ==> merged_ok(#[trigger] ops[t], max_transfer_size),
{
    let (fname, ranges, md, write, bufs) = request_parts(op);
    let rs = resolved_all(ranges, file_size);
    let order = order_of(op, file_size, max_gap, max_transfer_size, ops);
    let pl = plan(rs, order, max_gap, max_transfer_size, write);
    assert forall|t: int| 0 <= t < ops.len() implies merged_ok(#[trigger] ops[t], max_transfer_size) by {
        assert(is_planned_op(ops[t], fname, rs, md, bufs, write, max_transfer_size, pl[t]));
        match ops[t] {
            OptimisedOp::Merged { merged_byte_range: m, user_byte_ranges, .. } => {
                let g = pl[t];
                lemma_merged_end_bounds(rs, g);
                assert forall|i: int| 0 <= i < user_byte_ranges.len() implies m.start <= (
                #[trigger] user_byte_ranges@[i]).start && user_byte_ranges@[i].end <= m.end by {
                    assert(user_byte_ranges@[i] == rs[g[i] as int]);
                }
            },
            _ => {},
        }
    }
}

/// Coverage: every user range is served by exactly one transfer; every byte of
/// every user range is moved by some transfer; and where no gap is bridged
/// (`max_gap` is zero, or the request is a write) every byte a transfer moves
/// lies in some user range, so the transfers cover exactly the request's bytes.
pub proof fn lemma_optimise_covers<M>(
    op: IoOperation<M>,
    file_size: u64,
    max_gap: int,
    max_transfer_size: int,
    ops: Seq<OptimisedOp<M>>,
)
    requires
        max_transfer_size > 0,
        max_gap >= 0,
        request_error(op, file_size) is None,
        is_optimised(op, file_size, max_gap, max_transfer_size, ops),
    ensures
        forall|u: usize|
            (u as int) < request_parts(op).1.len() ==> #[trigger] served_by_some(ops, u),
        forall|t1: int, t2: int, i: int, j: int|
            0 <= t1 < t2 < ops.len() && 0 <= i < served(ops[t1]).len() && 0 <= j < served(
                ops[t2],
            ).len() ==> #[trigger] served(ops[t1])[i] != #[trigger] served(ops[t2])[j],
        forall|x: int|
            #[trigger] ranges_hold(resolved_all(request_parts(op).1, file_size), x) ==> transfers_hold(
                ops,
                x,
            ),
        max_gap == 0 || request_parts(op).3 ==> forall|x: int|
            #[trigger] transfers_hold(ops, x) ==> ranges_hold(
                resolved_all(request_parts(op).1, file_size),
                x,
            ),
{
    let (fname, ranges, md, write, bufs) = request_parts(op);
    let rs = resolved_all(ranges, file_size);
    let order = order_of(op, file_size, max_gap, max_transfer_size, ops);
    let pl = plan(rs, order, max_gap, max_transfer_size, write);
    let n = rs.len();
    lemma_accepted_ranges(op, file_size);
    lemma_plan_facts(rs, order, max_gap, max_transfer_size, write, 0);
    assert(order.subrange(0, n as int) =~= order);
    assert(pl.flatten() == order);
    assert forall|t: int| 0 <= t < ops.len() implies #[trigger] served(ops[t]) == pl[t] by {
        assert(is_planned_op(ops[t], fname, rs, md, bufs, write, max_transfer_size, pl[t]));
        if !(ops[t] is Merged) {
            assert(served(ops[t]) =~= pl[t]);
        }
    }
    // Every user range is served.
    assert forall|u: usize| (u as int) < n implies #[trigger] served_by_some(ops, u) by {
        assert(order.contains(u));
        lemma_from_flatten(pl, u);
        let (t, i) = choose|t: int, i: int| 0 <= t < pl.len() && 0 <= i < pl[t].len() && #[trigger] pl[t][i] == u;
        assert(served(ops[t]) == pl[t]);
        assert(served(ops[t])[i] == u);
        assert(served(ops[t]).contains(u));
    }
    // No user range is served twice.
    assert(order.no_duplicates()) by {
        assert forall|a: int, b: int| 0 <= a < b < order.len() implies order[a] != order[b] by {
            assert(crate::byte_range::key_lt(rs, order[a], order[b]));
        }
    }
    assert forall|t1: int, t2: int, i: int, j: int|
        0 <= t1 < t2 < ops.len() && 0 <= i < served(ops[t1]).len() && 0 <= j < served(ops[t2]).len()
        implies #[trigger] served(ops[t1])[i] != #[trigger] served(ops[t2])[j] by {
        lemma_flatten_disjoint(pl, t1, i, t2, j);
    }
    // Every byte of a user range is moved.
    assert forall|x: int| #[trigger] ranges_hold(rs, x) implies transfers_hold(ops, x) by {
        let u = choose|u: usize| (u as int) < rs.len() && (#[trigger] rs[u as int]).holds(x);
        assert(served_by_some(ops, u));
        let t = choose|t: int| 0 <= t < ops.len() && #[trigger] served(ops[t]).contains(u);
        let i = choose|i: int| 0 <= i < served(ops[t]).len() && served(ops[t])[i] == u;
        let g = pl[t];
        assert(is_planned_op(ops[t], fname, rs, md, bufs, write, max_transfer_size, g));
        match ops[t] {
            OptimisedOp::Unchanged { byte_range, .. } => {
                assert(served(ops[t]) == g);
                assert(g[0] == u);
                assert(byte_range == rs[u as int]);
                assert(ops[t].transfers()[0].holds(x));
            },
            OptimisedOp::Split { split_byte_ranges, .. } => {
                assert(served(ops[t]) == g);
                assert(g[0] == u);
                lemma_pieces(rs[u as int].start as int, rs[u as int].end as int, max_transfer_size);
                assert(any_holds(pieces(rs[u as int].start as int, rs[u as int].end as int, max_transfer_size), x));
                let j = choose|j: int| 0 <= j < split_byte_ranges@.len() && (#[trigger] split_byte_ranges@[j]).holds(x);
                assert(ops[t].transfers()[j].holds(x));
            },
            OptimisedOp::Merged { .. } => {
                assert(served(ops[t]) == g);
                lemma_merged_end_bounds(rs, g);
                assert(g[i] == u);
                assert(ops[t].transfers()[0].holds(x));
            },
        }
    }
    // Without bridged gaps, every byte moved lies in a user range.
    if max_gap == 0 || write {
        assert forall|x: int| #[trigger] transfers_hold(ops, x) implies ranges_hold(rs, x) by {
            let (t, j) = choose|t: int, j: int|
                0 <= t < ops.len() && 0 <= j < ops[t].transfers().len() && (#[trigger] ops[t].transfers()[j]).holds(x);
            let g = pl[t];
            assert(is_planned_op(ops[t], fname, rs, md, bufs, write, max_transfer_size, g));
            lemma_member_valid(rs, order, max_gap, max_transfer_size, write, t, 0);
            match ops[t] {
                OptimisedOp::Unchanged { .. } => {
                    assert(rs[g[0] as int].holds(x));
                    assert(ranges_hold(rs, x));
                },
                OptimisedOp::Split { .. } => {
                    lemma_pieces(rs[g[0] as int].start as int, rs[g[0] as int].end as int, max_transfer_size);
                    assert(rs[g[0] as int].holds(x));
                    assert(ranges_hold(rs, x));
                },
                OptimisedOp::Merged { .. } => {
                    assert(group_ok(rs, g, max_gap, max_transfer_size, write));
                    lemma_chain_cover(rs, g, max_gap, max_transfer_size, write, g.len() as int);
                    assert(g.subrange(0, g.len() as int) =~= g);
                    assert(members_hold(rs, g, g.len() as int, x));
                    let i = choose|i: int| 0 <= i < g.len() && (#[trigger] rs[g[i] as int]).holds(x);
                    lemma_member_valid(rs, order, max_gap, max_transfer_size, write, t, i);
                    assert(rs[g[i] as int].holds(x));
                    assert(ranges_hold(rs, x));
                },
            }
        }
    }
}

/// The ranges of `rs` share no byte.
pub open spec fn pairwise_disjoint(rs: Seq<ByteRange>) -> bool {
    forall|a: int, b: int|
        0 <= a < rs.len() && 0 <= b < rs.len() && a != b ==> #[trigger] rs[a].end <= #[trigger] rs[b].start
            || rs[b].end <= rs[a].start
}

/// Transfer `j` of operation `t` moves byte `x`.
pub open spec fn moves<M>(ops: Seq<OptimisedOp<M>>, t: int, j: int, x: int) -> bool {
    &&& 0 <= t < ops.len()
    &&& 0 <= j < ops[t].transfers().len()
    &&& ops[t].transfers()[j].holds(x)
}

/// Earlier pieces end no later than later pieces start.
pub proof fn lemma_pieces_ordered(start: int, end: int, max: int, i: int, j: int)
    requires
        0 <= start < end <= u64::MAX,
        max > 0,
        0 <= i < j < pieces(start, end, max).len(),
    ensures
        pieces(start, end, max)[i].end <= pieces(start, end, max)[j].start,
    decreases j - i,
{
    lemma_pieces(start, end, max);
    let p = pieces(start, end, max);
    if j > i + 1 {
        lemma_pieces_ordered(start, end, max, i, j - 1);
        assert(p[j - 1].end == p[j].start);
    }
}

/// A byte moved by a planned transfer lies in one of the user ranges of its
/// group, when no gap is bridged.
proof fn lemma_moved_byte_in_group<M>(
    o: OptimisedOp<M>,
    fname: Seq<u8>,
    rs: Seq<ByteRange>,
    md: Option<Seq<M>>,
    bufs: Seq<Seq<u8>>,
    write: bool,
    gap: int,
    max: int,
    g: Seq<usize>,
    j: int,
    x: int,
)
    requires
        is_planned_op(o, fname, rs, md, bufs, write, max, g),
        group_ok(rs, g, gap, max, write),
        gap == 0 || write,
        max > 0,
        forall|i: int| 0 <= i < g.len() ==> (#[trigger] g[i] as int) < rs.len(),
        forall|u: int| 0 <= u < rs.len() ==> 0 <= (#[trigger] rs[u]).start < rs[u].end <= u64::MAX,
        0 <= j < o.transfers().len(),
        o.transfers()[j].holds(x),
    ensures
        members_hold(rs, g, g.len() as int, x),
{
    match o {
        OptimisedOp::Unchanged { .. } => {
            assert(rs[g[0] as int].holds(x));
        },
        OptimisedOp::Split { .. } => {
            lemma_pieces(rs[g[0] as int].start as int, rs[g[0] as int].end as int, max);
            assert(rs[g[0] as int].holds(x));
        },
        OptimisedOp::Merged { .. } => {
            lemma_chain_cover(rs, g, gap, max, write, g.len() as int);
            assert(g.subrange(0, g.len() as int) =~= g);
        },
    }
}

/// No byte is moved twice: when the user ranges share no byte and no gap is
/// bridged (`max_gap` is zero, or the request is a write), no two transfers share
/// a byte.
pub proof fn lemma_no_byte_moved_twice<M>(
    op: IoOperation<M>,
    file_size: u64,
    max_gap: int,
    max_transfer_size: int,
    ops: Seq<OptimisedOp<M>>,
)
    requires
        max_transfer_size > 0,
        max_gap >= 0,
        request_error(op, file_size) is None,
        is_optimised(op, file_size, max_gap, max_transfer_size, ops),
        max_gap == 0 || request_parts(op).3,
        pairwise_disjoint(resolved_all(request_parts(op).1, file_size)),
    ensures
        forall|t1: int, j1: int, t2: int, j2: int, x: int|
            #[trigger] moves(ops, t1, j1, x) && #[trigger] moves(ops, t2, j2, x) ==> t1 == t2 && j1 == j2,
{
    let (fname, ranges, md, write, bufs) = request_parts(op);
    let rs = resolved_all(ranges, file_size);
    let order = order_of(op, file_size, max_gap, max_transfer_size, ops);
    let pl = plan(rs, order, max_gap, max_transfer_size, write);
    let n = rs.len();
    lemma_accepted_ranges(op, file_size);
    lemma_plan_facts(rs, order, max_gap, max_transfer_size, write, 0);
    assert(order.subrange(0, n as int) =~= order);
    assert(order.no_duplicates()) by {
        assert forall|a: int, b: int| 0 <= a < b < order.len() implies order[a] != order[b] by {
            assert(crate::byte_range::key_lt(rs, order[a], order[b]));
        }
    }
    assert forall|t1: int, j1: int, t2: int, j2: int, x: int|
        #[trigger] moves(ops, t1, j1, x) && #[trigger] moves(ops, t2, j2, x) implies t1 == t2 && j1 == j2 by {
        let g1 = pl[t1];
        let g2 = pl[t2];
        assert(is_planned_op(ops[t1], fname, rs, md, bufs, write, max_transfer_size, g1));
        assert(is_planned_op(ops[t2], fname, rs, md, bufs, write, max_transfer_size, g2));
        assert(group_ok(rs, g1, max_gap, max_transfer_size, write));
        assert(group_ok(rs, g2, max_gap, max_transfer_size, write));
        assert forall|i: int| 0 <= i < g1.len() implies (#[trigger] g1[i] as int) < rs.len() by {
            lemma_member_valid(rs, order, max_gap, max_transfer_size, write, t1, i);
        }
        assert forall|i: int| 0 <= i < g2.len() implies (#[trigger] g2[i] as int) < rs.len() by {
            lemma_member_valid(rs, order, max_gap, max_transfer_size, write, t2, i);
        }
        if t1 != t2 {
            lemma_moved_byte_in_group(ops[t1], fname, rs, md, bufs, write, max_gap, max_transfer_size, g1, j1, x);
            lemma_moved_byte_in_group(ops[t2], fname, rs, md, bufs, write, max_gap, max_transfer_size, g2, j2, x);
            let i1 = choose|i: int| 0 <= i < g1.len() && (#[trigger] rs[g1[i] as int]).holds(x);
            let i2 = choose|i: int| 0 <= i < g2.len() && (#[trigger] rs[g2[i] as int]).holds(x);
            if t1 < t2 {
                lemma_flatten_disjoint(pl, t1, i1, t2, i2);
            } else {
                lemma_flatten_disjoint(pl, t2, i2, t1, i1);
            }
            assert(rs[g1[i1] as int].end <= rs[g2[i2] as int].start || rs[g2[i2] as int].end <= rs[g1[i1] as int].start);
        } else if j1 != j2 {
            match ops[t1] {
                OptimisedOp::Split { .. } => {
                    let u = g1[0] as int;
                    if j1 < j2 {
                        lemma_pieces_ordered(rs[u].start as int, rs[u].end as int, max_transfer_size, j1, j2);
                    } else {
                        lemma_pieces_ordered(rs[u].start as int, rs[u].end as int, max_transfer_size, j2, j1);
                    }
                },
                _ => {},
            }
        }
    }
}

} // verus!
