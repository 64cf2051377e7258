//! Rewriting of a user request into the set of transfers that serve it:
//! unchanged ranges, oversized ranges split into bounded pieces, and nearby
//! ranges merged into one transfer.
use crate::byte_range::{
    is_sorted_order, resolvable, resolve, resolved, sort_by_start, ByteRange,
};
use crate::plan::{
    in_order, pieces, plan, plan_from, plan_groups, singles, split_range, starts_window,
    window_end, window_last,
};
use std::ops::Range;
use std::sync::Arc;
use vstd::prelude::*;
use vstd::seq_lib::lemma_flatten_concat;

verus! {

/// A request as a user submits it. Negative bounds in `byte_ranges` count from
/// the end of the file (`0..-1` is the whole file, `-100..-1` its last 100
/// bytes). `metadata`, when given, holds one entry per range.
pub enum IoOperation<M> {
    GetRanges { filename: Vec<u8>, byte_ranges: Vec<Range<isize>>, metadata: Option<Vec<M>> },
    PutRanges {
        filename: Vec<u8>,
        byte_ranges: Vec<Range<isize>>,
        metadata: Option<Vec<M>>,
        /// One buffer per range, holding exactly the bytes to write there.
        buffers: Vec<Vec<u8>>,
    },
}

/// Why a request is refused before any transfer is planned.
#[derive(Clone, Copy, Debug, PartialEq, Eq, Structural)]
pub enum RequestError {
    /// The file name holds a zero byte, so no file handle can be opened for it.
    InvalidFilename,
    /// The request names no range.
    NoRanges,
    /// Metadata is given, but not one entry per range.
    MetadataLength,
    /// A write does not give one buffer per range.
    BufferCount,
    /// The range at `index` does not resolve to a non-empty range inside the file.
    Range { index: usize },
    /// The buffer at `index` does not have the length of its range.
    BufferLength { index: usize },
}

/// One planned transfer, with what is needed to hand its bytes back to the
/// user ranges it serves.
pub enum OptimisedOp<M> {
    /// A single user range, transferred as it is.
    Unchanged {
        filename: Arc<Vec<u8>>,
        write: bool,
        byte_range: ByteRange,
        buffer: Option<Vec<u8>>,
        metadata: Option<M>,
        user_index: usize,
    },
    /// A single user range larger than one transfer may be, cut into pieces.
    Split {
        filename: Arc<Vec<u8>>,
        write: bool,
        split_byte_ranges: Vec<ByteRange>,
        next_to_submit: usize,
        n_completed: usize,
        /// The first piece whose transfer failed, if any.
        failed: Option<usize>,
        user_byte_range: ByteRange,
        user_buffer: Option<Vec<u8>>,
        user_metadata: Option<M>,
        user_index: usize,
    },
    /// Several user ranges served by one transfer over the span that holds them.
    Merged {
        filename: Arc<Vec<u8>>,
        write: bool,
        merged_byte_range: ByteRange,
        merged_buffer: Option<Vec<u8>>,
        user_byte_ranges: Vec<ByteRange>,
        user_metadata: Option<Vec<M>>,
        user_indices: Vec<usize>,
    },
}

pub open spec fn opt_view<T>(b: Option<Vec<T>>) -> Option<Seq<T>> {
    match b {
        Some(v) => Some(v@),
        None => None,
    }
}

/// The metadata of user range `u`, if the request has metadata.
pub open spec fn meta_of<M>(md: Option<Seq<M>>, u: usize) -> Option<M> {
    match md {
        Some(m) => Some(m[u as int]),
        None => None,
    }
}

/// The metadata of the user ranges `g`, if the request has metadata.
pub open spec fn metas_of<M>(md: Option<Seq<M>>, g: Seq<usize>) -> Option<Seq<M>> {
    match md {
        Some(m) => Some(g.map_values(|u: usize| m[u as int])),
        None => None,
    }
}

/// The buffer that travels with user range `u`: its bytes for a write, none for a read.
pub open spec fn buf_of(bufs: Seq<Seq<u8>>, write: bool, u: usize) -> Option<Seq<u8>> {
    if write {
        Some(bufs[u as int])
    } else {
        None
    }
}

/// The buffers of the user ranges `g`, one after the other.
pub open spec fn concat_bufs(bufs: Seq<Seq<u8>>, g: Seq<usize>) -> Seq<u8>
    decreases g.len(),
{
    if g.len() == 0 {
        seq![]
    } else {
        concat_bufs(bufs, g.drop_last()) + bufs[g.last() as int]
    }
}

/// The largest end among the user ranges `g`.
pub open spec fn merged_end(rs: Seq<ByteRange>, g: Seq<usize>) -> int
    decreases g.len(),
{
    if g.len() <= 1 {
        rs[g[0] as int].end as int
    } else {
        let prev = merged_end(rs, g.drop_last());
        if rs[g.last() as int].end > prev {
            rs[g.last() as int].end as int
        } else {
            prev
        }
    }
}

/// `op` is the transfer planned for the group `g` of user ranges: the resolved
/// ranges are `rs`, the request's metadata `md`, its buffers `bufs`.
pub open spec fn is_planned_op<M>(
    op: OptimisedOp<M>,
    fname: Seq<u8>,
    rs: Seq<ByteRange>,
    md: Option<Seq<M>>,
    bufs: Seq<Seq<u8>>,
    write: bool,
    max: int,
    g: Seq<usize>,
) -> bool {
    match op {
        OptimisedOp::Unchanged { filename, write: w, byte_range, buffer, metadata, user_index } => {
            &&& g.len() == 1
            &&& rs[g[0] as int].len_spec() <= max
            &&& filename@ == fname
            &&& w == write
            &&& byte_range == rs[g[0] as int]
            &&& opt_view(buffer) == buf_of(bufs, write, g[0])
            &&& metadata == meta_of(md, g[0])
            &&& user_index == g[0]
        },
        OptimisedOp::Split {
            filename,
            write: w,
            split_byte_ranges,
            next_to_submit,
            n_completed,
            failed,
            user_byte_range,
            user_buffer,
            user_metadata,
            user_index,
        } => {
            &&& g.len() == 1
            &&& rs[g[0] as int].len_spec() > max
            &&& filename@ == fname
            &&& w == write
            &&& split_byte_ranges@ == pieces(
                rs[g[0] as int].start as int,
                rs[g[0] as int].end as int,
                max,
            )
            &&& next_to_submit == 0
            &&& n_completed == 0
            &&& failed is None
            &&& user_byte_range == rs[g[0] as int]
            &&& opt_view(user_buffer) == buf_of(bufs, write, g[0])
            &&& user_metadata == meta_of(md, g[0])
            &&& user_index == g[0]
        },
        OptimisedOp::Merged {
            filename,
            write: w,
            merged_byte_range,
            merged_buffer,
            user_byte_ranges,
            user_metadata,
            user_indices,
        } => {
            &&& g.len() >= 2
            &&& filename@ == fname
            &&& w == write
            &&& merged_byte_range.start == rs[g[0] as int].start
            &&& merged_byte_range.end == merged_end(rs, g)
            &&& merged_byte_range.end - merged_byte_range.start <= max
            &&& forall|i: int| 0 <= i < g.len() ==> rs[g[0] as int].start <= rs[#[trigger] g[i] as int].start
            &&& user_byte_ranges@ == g.map_values(|u: usize| rs[u as int])
            &&& user_indices@ == g
            &&& opt_view(user_metadata) == metas_of(md, g)
            &&& opt_view(merged_buffer) == (if write {
                Some(concat_bufs(bufs, g))
            } else {
                None
            })
        },
    }
}

/// The file name, the ranges, the metadata and the buffers of a request.
pub open spec fn request_parts<M>(op: IoOperation<M>) -> (Seq<u8>, Seq<Range<isize>>, Option<Seq<M>>, bool, Seq<Seq<u8>>) {
    match op {
        IoOperation::GetRanges { filename, byte_ranges, metadata } => (
            filename@,
            byte_ranges@,
            opt_view(metadata),
            false,
            seq![],
        ),
        IoOperation::PutRanges { filename, byte_ranges, metadata, buffers } => (
            filename@,
            byte_ranges@,
            opt_view(metadata),
            true,
            buffers@.map_values(|b: Vec<u8>| b@),
        ),
    }
}

/// Whether the range at `i` is at fault: it does not resolve, or its write buffer
/// has another length.
pub open spec fn range_fault(
    ranges: Seq<Range<isize>>,
    write: bool,
    bufs: Seq<Seq<u8>>,
    file_size: u64,
    i: int,
) -> bool {
    !resolvable(ranges[i], file_size) || (write && bufs[i].len() != resolved(
        ranges[i],
        file_size,
    ).len_spec())
}

/// The error of the first range at fault, if any.
pub open spec fn first_range_error(
    ranges: Seq<Range<isize>>,
    write: bool,
    bufs: Seq<Seq<u8>>,
    file_size: u64,
) -> Option<RequestError> {
    if exists|i: int| 0 <= i < ranges.len() && range_fault(ranges, write, bufs, file_size, i) {
        let i = choose|i: int|
            0 <= i < ranges.len() && range_fault(ranges, write, bufs, file_size, i) && forall|
                j: int,
            | 0 <= j < i ==> !range_fault(ranges, write, bufs, file_size, j);
        if !resolvable(ranges[i], file_size) {
            Some(RequestError::Range { index: i as usize })
        } else {
            Some(RequestError::BufferLength { index: i as usize })
        }
    } else {
        None
    }
}

/// Why a request on a file of `file_size` bytes is refused, if it is.
pub open spec fn request_error<M>(op: IoOperation<M>, file_size: u64) -> Option<RequestError> {
    let (fname, ranges, md, write, bufs) = request_parts(op);
    if fname.contains(0u8) {
        Some(RequestError::InvalidFilename)
    } else if ranges.len() == 0 {
        Some(RequestError::NoRanges)
    } else if md is Some && md.unwrap().len() != ranges.len() {
        Some(RequestError::MetadataLength)
    } else if write && bufs.len() != ranges.len() {
        Some(RequestError::BufferCount)
    } else {
        first_range_error(ranges, write, bufs, file_size)
    }
}

/// The ranges of a request resolved against the file size.
pub open spec fn resolved_all(ranges: Seq<Range<isize>>, file_size: u64) -> Seq<ByteRange> {
    ranges.map_values(|r: Range<isize>| resolved(r, file_size))
}

/// `ops` is the outcome of planning the accepted request `op` on a file of
/// `file_size` bytes: one transfer per group of the merge plan over the ranges
/// in sorted order.
pub open spec fn is_optimised<M>(
    op: IoOperation<M>,
    file_size: u64,
    max_gap: int,
    max: int,
    ops: Seq<OptimisedOp<M>>,
) -> bool {
    let (fname, ranges, md, write, bufs) = request_parts(op);
    let rs = resolved_all(ranges, file_size);
    exists|order: Seq<usize>|
        #![trigger is_sorted_order(rs, order)]
        {
            &&& is_sorted_order(rs, order)
            &&& ops.len() == plan(rs, order, max_gap, max, write).len()
            &&& forall|t: int|
                0 <= t < ops.len() ==> is_planned_op(
                    #[trigger] ops[t],
                    fname,
                    rs,
                    md,
                    bufs,
                    write,
                    max,
                    plan(rs, order, max_gap, max, write)[t],
                )
        }
}

/// Shares a file name among the transfers of a request; refused when the name
/// holds a zero byte.
pub fn convert_filename(filename: Vec<u8>) -> (r: Result<Arc<Vec<u8>>, RequestError>)
    ensures
        filename@.contains(0u8) ==> r == Err::<Arc<Vec<u8>>, RequestError>(
            RequestError::InvalidFilename,
        ),
        !filename@.contains(0u8) ==> r is Ok && r.unwrap()@ == filename@,
{
    let mut i: usize = 0;
    while i < filename.len()
        invariant
            i <= filename.len(),
            forall|j: int| 0 <= j < i ==> filename@[j] != 0u8,
        decreases filename.len() - i,
    {
        if filename[i] == 0 {
            return Err(RequestError::InvalidFilename);
        }
        i = i + 1;
    }
    Ok(Arc::new(filename))
}

/// A single range, transferred as it is.
pub fn new_unchanged_byte_range<M>(
    filename: Arc<Vec<u8>>,
    write: bool,
    byte_range: ByteRange,
    buffer: Option<Vec<u8>>,
    metadata: Option<M>,
    user_index: usize,
) -> (r: OptimisedOp<M>)
    ensures
        r == (OptimisedOp::Unchanged { filename, write, byte_range, buffer, metadata, user_index }),
{
    OptimisedOp::Unchanged { filename, write, byte_range, buffer, metadata, user_index }
}

/// A single range cut into `split_byte_ranges`, none of them submitted yet.
pub fn new_split_byte_range<M>(
    filename: Arc<Vec<u8>>,
    write: bool,
    split_byte_ranges: Vec<ByteRange>,
    user_byte_range: ByteRange,
    user_buffer: Option<Vec<u8>>,
    user_metadata: Option<M>,
    user_index: usize,
) -> (r: OptimisedOp<M>)
    ensures
        r == (OptimisedOp::Split {
            filename,
            write,
            split_byte_ranges,
            next_to_submit: 0,
            n_completed: 0,
            failed: None,
            user_byte_range,
            user_buffer,
            user_metadata,
            user_index,
        }),
{
    OptimisedOp::Split {
        filename,
        write,
        split_byte_ranges,
        next_to_submit: 0,
        n_completed: 0,
        failed: None,
        user_byte_range,
        user_buffer,
        user_metadata,
        user_index,
    }
}

/// Several ranges served by one transfer over `merged_byte_range`.
pub fn new_merged_byte_range<M>(
    filename: Arc<Vec<u8>>,
    write: bool,
    merged_byte_range: ByteRange,
    merged_buffer: Option<Vec<u8>>,
    user_byte_ranges: Vec<ByteRange>,
    user_metadata: Option<Vec<M>>,
    user_indices: Vec<usize>,
) -> (r: OptimisedOp<M>)
    ensures
        r == (OptimisedOp::Merged {
            filename,
            write,
            merged_byte_range,
            merged_buffer,
            user_byte_ranges,
            user_metadata,
            user_indices,
        }),
{
    OptimisedOp::Merged {
        filename,
        write,
        merged_byte_range,
        merged_buffer,
        user_byte_ranges,
        user_metadata,
        user_indices,
    }
}

/// Turns `v` into one filled slot per item.
pub(crate) fn into_slots<T>(v: Vec<T>) -> (r: Vec<Option<T>>)
    ensures
        r@ == v@.map_values(|x: T| Some(x)),
{
    let ghost orig = v@;
    let mut v = v;
    let n = v.len();
    let mut r: Vec<Option<T>> = Vec::new();
    let mut i: usize = 0;
    while i < n
        invariant
            i <= n,
            r.len() == i,
            forall|k: int| 0 <= k < i ==> r@[k] is None,
        decreases n - i,
    {
        r.push(None);
        i = i + 1;
    }
    while v.len() > 0
        invariant
            r.len() == n,
            n == orig.len(),
            v.len() <= n,
            v@ == orig.subrange(0, v.len() as int),
            forall|k: int| 0 <= k < v.len() ==> r@[k] is None,
            forall|k: int| v.len() <= k < n ==> r@[k] == Some(orig[k]),
        decreases v.len(),
    {
        let ghost before = v@;
        let x = v.pop().unwrap();
        let k = v.len();
        r.set(k, Some(x));
        proof {
            assert(x == orig[k as int]);
            assert(v@ =~= orig.subrange(0, v.len() as int));
        }
    }
    proof {
        assert(r@ =~= orig.map_values(|x: T| Some(x)));
    }
    r
}

/// No slots: the request gave no metadata.
fn empty_slots<T>(n: usize) -> (r: Vec<Option<T>>)
    ensures
        r@ == Seq::new(n as nat, |i: int| None::<T>),
{
    let mut r: Vec<Option<T>> = Vec::new();
    let mut i: usize = 0;
    while i < n
        invariant
            i <= n,
            r@ == Seq::new(i as nat, |k: int| None::<T>),
        decreases n - i,
    {
        r.push(None);
        i = i + 1;
        proof {
            assert(r@ =~= Seq::new(i as nat, |k: int| None::<T>));
        }
    }
    r
}

/// Empties slot `i` and returns what it held.
pub(crate) fn take_slot<T>(slots: &mut Vec<Option<T>>, i: usize) -> (r: Option<T>)
    requires
        i < old(slots).len(),
    ensures
        r == old(slots)@[i as int],
        final(slots)@ == old(slots)@.update(i as int, None),
{
    let mut taken: Option<T> = None;
    std::mem::swap(&mut taken, &mut slots[i]);
    taken
}

/// What building a transfer for the group `g` asks of the slots and the ranges.
pub open spec fn group_ready<M>(
    rs: Seq<ByteRange>,
    g: Seq<usize>,
    meta_slots: Seq<Option<M>>,
    buf_slots: Seq<Option<Vec<u8>>>,
    md: Option<Seq<M>>,
    bufs: Seq<Seq<u8>>,
    write: bool,
) -> bool {
    &&& g.len() >= 1
    &&& forall|i: int| 0 <= i < g.len() ==> (g[i] as int) < rs.len()
    &&& forall|a: int, b: int| 0 <= a < b < g.len() ==> g[a] != g[b]
    &&& forall|i: int| 0 <= i < rs.len() ==> rs[i].start < rs[i].end
    &&& meta_slots.len() == rs.len()
    &&& buf_slots.len() == rs.len()
    &&& forall|i: int| 0 <= i < g.len() ==> meta_slots[#[trigger] g[i] as int] == meta_of(md, g[i])
    &&& forall|i: int|
        0 <= i < g.len() ==> opt_view(buf_slots[#[trigger] g[i] as int]) == buf_of(bufs, write, g[i])
}

/// The slots outside the group `g` are as they were.
pub open spec fn slots_kept<T>(g: Seq<usize>, before: Seq<Option<T>>, after: Seq<Option<T>>) -> bool {
    &&& after.len() == before.len()
    &&& forall|u: usize|
        (u as int) < before.len() && !g.contains(u) ==> #[trigger] after[u as int] == before[u as int]
}

/// Builds the transfer for a single user range, taking its metadata and buffer
/// out of their slots.
fn build_single<M>(
    filename: &Arc<Vec<u8>>,
    write: bool,
    rs: &Vec<ByteRange>,
    u: usize,
    meta_slots: &mut Vec<Option<M>>,
    buf_slots: &mut Vec<Option<Vec<u8>>>,
    max: usize,
    Ghost(md): Ghost<Option<Seq<M>>>,
    Ghost(bufs): Ghost<Seq<Seq<u8>>>,
) -> (op: OptimisedOp<M>)
    requires
        max > 0,
        group_ready(rs@, seq![u], old(meta_slots)@, old(buf_slots)@, md, bufs, write),
    ensures
        is_planned_op(op, filename@, rs@, md, bufs, write, max as int, seq![u]),
        slots_kept(seq![u], old(meta_slots)@, final(meta_slots)@),
        slots_kept(seq![u], old(buf_slots)@, final(buf_slots)@),
{
    let ghost g = seq![u];
    proof {
        assert(g[0] == u);
        assert(old(meta_slots)@[g[0] as int] == meta_of(md, g[0]));
        assert(opt_view(old(buf_slots)@[g[0] as int]) == buf_of(bufs, write, g[0]));
    }
    let name = filename.clone();
    let r = rs[u];
    let metadata = take_slot(meta_slots, u);
    let buffer = take_slot(buf_slots, u);
    proof {
        assert forall|v: usize| (v as int) < old(meta_slots)@.len() && !g.contains(v) implies #[trigger] meta_slots@[v as int]
            == old(meta_slots)@[v as int] by {
            if v == u {
                assert(g.contains(v));
            }
        }
        assert forall|v: usize| (v as int) < old(buf_slots)@.len() && !g.contains(v) implies #[trigger] buf_slots@[v as int]
            == old(buf_slots)@[v as int] by {
            if v == u {
                assert(g.contains(v));
            }
        }
    }
    if r.end - r.start <= max as u64 {
        new_unchanged_byte_range(name, write, r, buffer, metadata, u)
    } else {
        let split_byte_ranges = split_range(r, max);
        new_split_byte_range(name, write, split_byte_ranges, r, buffer, metadata, u)
    }
}

/// Builds the transfer for a group of two or more user ranges, taking their
/// metadata and buffers out of their slots.
#[verifier::rlimit(30)]
fn build_merged<M>(
    filename: &Arc<Vec<u8>>,
    write: bool,
    rs: &Vec<ByteRange>,
    g: &Vec<usize>,
    has_meta: bool,
    meta_slots: &mut Vec<Option<M>>,
    buf_slots: &mut Vec<Option<Vec<u8>>>,
    max: usize,
    Ghost(md): Ghost<Option<Seq<M>>>,
    Ghost(bufs): Ghost<Seq<Seq<u8>>>,
) -> (op: OptimisedOp<M>)
    requires
        g.len() >= 2,
        has_meta == md is Some,
        group_ready(rs@, g@, old(meta_slots)@, old(buf_slots)@, md, bufs, write),
        merged_end(rs@, g@) - rs@[g@[0] as int].start <= max,
        forall|i: int|
            0 <= i < g.len() ==> rs@[g@[0] as int].start <= rs@[#[trigger] g@[i] as int].start,
    ensures
        is_planned_op(op, filename@, rs@, md, bufs, write, max as int, g@),
        slots_kept(g@, old(meta_slots)@, final(meta_slots)@),
        slots_kept(g@, old(buf_slots)@, final(buf_slots)@),
{
    let name = filename.clone();
    let first = rs[g[0]];
    let mut end: u64 = first.end;
    let mut user_byte_ranges: Vec<ByteRange> = Vec::new();
    let mut user_indices: Vec<usize> = Vec::new();
    let mut metas: Vec<M> = Vec::new();
    let mut merged: Vec<u8> = Vec::new();
    let mut j: usize = 0;
    while j < g.len()
        invariant
            1 < g.len(),
            j <= g.len(),
            group_ready(rs@, g@, old(meta_slots)@, old(buf_slots)@, md, bufs, write),
            has_meta == md is Some,
            first == rs@[g@[0] as int],
            j == 0 ==> end == first.end,
            j > 0 ==> end == merged_end(rs@, g@.subrange(0, j as int)),
            user_byte_ranges@ == g@.subrange(0, j as int).map_values(|u: usize| rs@[u as int]),
            user_indices@ == g@.subrange(0, j as int),
            has_meta ==> Some(metas@) == metas_of(md, g@.subrange(0, j as int)),
            write ==> merged@ == concat_bufs(bufs, g@.subrange(0, j as int)),
            forall|i: int|
                j <= i < g.len() ==> meta_slots@[#[trigger] g@[i] as int] == old(
                    meta_slots,
                )@[g@[i] as int],
            forall|i: int|
                j <= i < g.len() ==> buf_slots@[#[trigger] g@[i] as int] == old(
                    buf_slots,
                )@[g@[i] as int],
            slots_kept(g@, old(meta_slots)@, meta_slots@),
            slots_kept(g@, old(buf_slots)@, buf_slots@),
        decreases g.len() - j,
    {
        let u = g[j];
        let r = rs[u];
        let ghost prev_g = g@.subrange(0, j as int);
        let ghost next_g = g@.subrange(0, j + 1);
        proof {
            assert(next_g.drop_last() =~= prev_g);
            assert(next_g.last() == u);
        }
        if r.end > end {
            end = r.end;
        }
        user_byte_ranges.push(r);
        user_indices.push(u);
        let m = take_slot(meta_slots, u);
        let b = take_slot(buf_slots, u);
        proof {
            assert(old(meta_slots)@[g@[j as int] as int] == meta_of(md, g@[j as int]));
            assert(opt_view(old(buf_slots)@[g@[j as int] as int]) == buf_of(
                bufs,
                write,
                g@[j as int],
            ));
        }
        if has_meta {
            match m {
                Some(x) => {
                    metas.push(x);
                },
                None => {},
            }
        }
        if write {
            match b {
                Some(mut bv) => {
                    merged.append(&mut bv);
                },
                None => {},
            }
        }
        j = j + 1;
        proof {
            assert(user_byte_ranges@ =~= next_g.map_values(|u: usize| rs@[u as int]));
            assert(user_indices@ =~= next_g);
            if has_meta {
                assert(metas@ =~= next_g.map_values(|u: usize| md.unwrap()[u as int]));
            }
            assert forall|i: int| j <= i < g.len() implies meta_slots@[#[trigger] g@[i] as int]
                == old(meta_slots)@[g@[i] as int] by {
                assert(g@[i] != g@[j - 1]);
            }
            assert forall|i: int| j <= i < g.len() implies buf_slots@[#[trigger] g@[i] as int]
                == old(buf_slots)@[g@[i] as int] by {
                assert(g@[i] != g@[j - 1]);
            }
            assert(g@[j - 1] == u);
            assert(g@.contains(u));
        }
    }
    proof {
        assert(g@.subrange(0, g.len() as int) =~= g@);
    }
    let user_metadata = if has_meta {
        Some(metas)
    } else {
        None
    };
    let merged_buffer = if write {
        Some(merged)
    } else {
        None
    };
    new_merged_byte_range(
        name,
        write,
        ByteRange { start: first.start, end },
        merged_buffer,
        user_byte_ranges,
        user_metadata,
        user_indices,
    )
}

/// Resolves every range of a request and checks its write buffer, stopping at
/// the first range at fault.
fn resolve_all(
    byte_ranges: &Vec<Range<isize>>,
    buffers: &Vec<Vec<u8>>,
    write: bool,
    file_size: u64,
) -> (r: Result<Vec<ByteRange>, RequestError>)
    requires
        write ==> buffers.len() == byte_ranges.len(),
    ensures
        ({
            let bufs = if write {
                buffers@.map_values(|b: Vec<u8>| b@)
            } else {
                seq![]
            };
            match r {
                Ok(rs) => first_range_error(byte_ranges@, write, bufs, file_size) is None && rs@
                    == resolved_all(byte_ranges@, file_size),
                Err(e) => first_range_error(byte_ranges@, write, bufs, file_size) == Some(e),
            }
        }),
{
    let ghost bufs = if write {
        buffers@.map_values(|b: Vec<u8>| b@)
    } else {
        seq![]
    };
    let ghost ranges = byte_ranges@;
    let n = byte_ranges.len();
    let mut rs: Vec<ByteRange> = Vec::new();
    let mut i: usize = 0;
    while i < n
        invariant
            i <= n,
            n == ranges.len(),
            ranges == byte_ranges@,
            write ==> buffers.len() == n,
            bufs == (if write {
                buffers@.map_values(|b: Vec<u8>| b@)
            } else {
                seq![]
            }),
            forall|j: int| 0 <= j < i ==> !range_fault(ranges, write, bufs, file_size, j),
            rs@ == resolved_all(ranges, file_size).subrange(0, i as int),
        decreases n - i,
    {
        match resolve(&byte_ranges[i], file_size) {
            None => {
                proof {
                    assert(range_fault(ranges, write, bufs, file_size, i as int));
                    lemma_first_fault(ranges, write, bufs, file_size, i as int);
                }
                return Err(RequestError::Range { index: i });
            },
            Some(r) => {
                if write && buffers[i].len() as u64 != r.end - r.start {
                    proof {
                        assert(bufs[i as int] == buffers@[i as int]@);
                        assert(range_fault(ranges, write, bufs, file_size, i as int));
                        lemma_first_fault(ranges, write, bufs, file_size, i as int);
                    }
                    return Err(RequestError::BufferLength { index: i });
                }
                proof {
                    if write {
                        assert(bufs[i as int] == buffers@[i as int]@);
                    }
                    assert(!range_fault(ranges, write, bufs, file_size, i as int));
                }
                rs.push(r);
                i = i + 1;
                proof {
                    assert(rs@ =~= resolved_all(ranges, file_size).subrange(0, i as int));
                }
            },
        }
    }
    proof {
        assert(rs@ =~= resolved_all(ranges, file_size));
    }
    Ok(rs)
}

/// The first range at fault decides the error.
proof fn lemma_first_fault(
    ranges: Seq<Range<isize>>,
    write: bool,
    bufs: Seq<Seq<u8>>,
    file_size: u64,
    i: int,
)
    requires
        0 <= i < ranges.len(),
        range_fault(ranges, write, bufs, file_size, i),
        forall|j: int| 0 <= j < i ==> !range_fault(ranges, write, bufs, file_size, j),
    ensures
        first_range_error(ranges, write, bufs, file_size) == (if !resolvable(ranges[i], file_size) {
            Some(RequestError::Range { index: i as usize })
        } else {
            Some(RequestError::BufferLength { index: i as usize })
        }),
{
    let k = choose|k: int|
        0 <= k < ranges.len() && range_fault(ranges, write, bufs, file_size, k) && forall|j: int|
            0 <= j < k ==> !range_fault(ranges, write, bufs, file_size, j);
    assert(k == i) by {
        if k < i {
            assert(!range_fault(ranges, write, bufs, file_size, k));
        }
        if i < k {
            assert(!range_fault(ranges, write, bufs, file_size, i));
        }
    }
}

/// A planned group is non-empty, and a group of two or more fits in one transfer
/// and starts with its lowest start.
pub open spec fn group_ok(rs: Seq<ByteRange>, g: Seq<usize>, gap: int, max: int, write: bool) -> bool {
    &&& g.len() >= 1
    &&& g.len() >= 2 ==> merged_end(rs, g) - rs[g[0] as int].start <= max
    &&& g.len() >= 2 ==> forall|i: int|
        0 <= i < g.len() ==> rs[g[0] as int].start <= rs[#[trigger] g[i] as int].start
    &&& forall|i: int|
        0 < i < g.len() ==> crate::plan::joins(
            write,
            gap,
            merged_end(rs, g.subrange(0, i)),
            rs[#[trigger] g[i] as int].start as int,
        )
}

/// Over a window that opens at `k`, its running end is the largest end of its members.
proof fn lemma_window_end_merged(
    rs: Seq<ByteRange>,
    order: Seq<usize>,
    gap: int,
    write: bool,
    k: int,
    l: int,
)
    requires
        is_sorted_order(rs, order),
        0 <= k <= l < order.len(),
        starts_window(in_order(rs, order), gap, write, k),
        forall|j: int| k < j <= l ==> !starts_window(in_order(rs, order), gap, write, j),
    ensures
        window_end(in_order(rs, order), gap, write, l) == merged_end(rs, order.subrange(k, l + 1)),
    decreases l - k,
{
    let s = in_order(rs, order);
    let g = order.subrange(k, l + 1);
    if l == k {
        assert(g.len() == 1);
    } else {
        lemma_window_end_merged(rs, order, gap, write, k, l - 1);
        assert(g.drop_last() =~= order.subrange(k, l));
        assert(!starts_window(s, gap, write, l));
    }
}

/// What the plan from window start `k` is made of: its groups, laid end to end,
/// are the sorted positions from `k` on, and each group is well formed.
pub proof fn lemma_plan_facts(
    rs: Seq<ByteRange>,
    order: Seq<usize>,
    gap: int,
    max: int,
    write: bool,
    k: int,
)
    requires
        is_sorted_order(rs, order),
        0 <= k <= order.len(),
        k < order.len() ==> starts_window(in_order(rs, order), gap, write, k),
    ensures
        plan_from(rs, order, gap, max, write, k).flatten() == order.subrange(k, order.len() as int),
        forall|t: int|
            0 <= t < plan_from(rs, order, gap, max, write, k).len() ==> group_ok(
                rs,
                #[trigger] plan_from(rs, order, gap, max, write, k)[t],
                gap,
                max,
                write,
            ),
    decreases order.len() - k,
{
    let s = in_order(rs, order);
    let n = order.len() as int;
    let p = plan_from(rs, order, gap, max, write, k);
    if k == n {
        assert(order.subrange(k, n) =~= Seq::<usize>::empty());
    } else {
        let l = window_last(s, gap, write, k);
        crate::plan::lemma_window_last_bounds(s, gap, write, k);
        crate::plan::lemma_window_inside(s, gap, write, k);
        lemma_plan_facts(rs, order, gap, max, write, l + 1);
        let rest = plan_from(rs, order, gap, max, write, l + 1);
        let head = if l > k && window_end(s, gap, write, l) - s[k].start <= max {
            seq![order.subrange(k, l + 1)]
        } else {
            singles(order, k, l + 1)
        };
        assert(p == head + rest);
        lemma_flatten_concat(head, rest);
        if l > k && window_end(s, gap, write, l) - s[k].start <= max {
            seq![order.subrange(k, l + 1)].lemma_flatten_one_element();
            lemma_window_end_merged(rs, order, gap, write, k, l);
            let g = order.subrange(k, l + 1);
            assert forall|i: int| 0 <= i < g.len() implies rs[g[0] as int].start <= rs[#[trigger] g[i] as int].start by {
                if i > 0 {
                    assert(crate::byte_range::key_lt(rs, order[k], order[k + i]));
                }
            }
            assert forall|i: int| 0 < i < g.len() implies crate::plan::joins(
                write,
                gap,
                merged_end(rs, g.subrange(0, i)),
                rs[#[trigger] g[i] as int].start as int,
            ) by {
                lemma_window_end_merged(rs, order, gap, write, k, k + i - 1);
                assert(g.subrange(0, i) =~= order.subrange(k, k + i));
                assert(!starts_window(s, gap, write, k + i));
            }
            assert(group_ok(rs, g, gap, max, write));
        } else {
            crate::plan::lemma_singles_flatten(order, k, l + 1);
            assert forall|t: int| 0 <= t < head.len() implies group_ok(rs, #[trigger] head[t], gap, max, write) by {
                assert(head[t].len() == 1);
            }
        }
        assert(order.subrange(k, n) =~= order.subrange(k, l + 1) + order.subrange(l + 1, n));
        assert forall|t: int| 0 <= t < p.len() implies group_ok(rs, #[trigger] p[t], gap, max, write) by {
            if t >= head.len() {
                assert(p[t] == rest[t - head.len()]);
            } else {
                assert(p[t] == head[t]);
            }
        }
    }
}

/// Rewrites a request on a file of `file_size` bytes into the transfers that
/// serve it. Ranges are taken by start offset and gathered into windows: a range
/// joins the current window when it starts within `max_gap` bytes of the
/// window's end (for a write, exactly at its end). A window of two or more
/// ranges that spans at most `max_transfer_size` bytes becomes one merged
/// transfer; otherwise each range becomes a transfer of its own, cut into pieces
/// of `max_transfer_size` bytes when it is longer than that.
pub fn optimise<M>(
    io_operation: IoOperation<M>,
    file_size: u64,
    max_gap: usize,
    max_transfer_size: usize,
) -> (r: Result<Vec<OptimisedOp<M>>, RequestError>)
    requires
        max_transfer_size > 0,
    ensures
        match r {
            Ok(ops) => request_error(io_operation, file_size) is None && is_optimised(
                io_operation,
                file_size,
                max_gap as int,
                max_transfer_size as int,
                ops@,
            ),
            Err(e) => request_error(io_operation, file_size) == Some(e),
        },
{
    let ghost (fname, ranges, md, write_g, bufs) = request_parts(io_operation);
    let (filename, byte_ranges, metadata, write, buffers) = match io_operation {
        IoOperation::GetRanges { filename, byte_ranges, metadata } => (
            filename,
            byte_ranges,
            metadata,
            false,
            Vec::new(),
        ),
        IoOperation::PutRanges { filename, byte_ranges, metadata, buffers } => (
            filename,
            byte_ranges,
            metadata,
            true,
            buffers,
        ),
    };
    proof {
        if !write {
            assert(bufs =~= buffers@.map_values(|b: Vec<u8>| b@));
        }
    }
    let filename = match convert_filename(filename) {
        Ok(f) => f,
        Err(e) => {
            return Err(e);
        },
    };
    let n = byte_ranges.len();
    if n == 0 {
        return Err(RequestError::NoRanges);
    }
    let has_meta = match &metadata {
        Some(m) => {
            if m.len() != n {
                return Err(RequestError::MetadataLength);
            }
            true
        },
        None => false,
    };
    if write && buffers.len() != n {
        return Err(RequestError::BufferCount);
    }
    let rs = match resolve_all(&byte_ranges, &buffers, write, file_size) {
        Ok(rs) => rs,
        Err(e) => {
            return Err(e);
        },
    };
    let ghost rsv = rs@;
    proof {
        assert forall|i: int| 0 <= i < rs.len() implies rs@[i].start < rs@[i].end by {
            assert(!range_fault(ranges, write, bufs, file_size, i));
        }
    }
    let order = sort_by_start(&rs);
    let groups = plan_groups(&rs, &order, max_gap, max_transfer_size, write);
    let ghost pl = plan(rsv, order@, max_gap as int, max_transfer_size as int, write);
    proof {
        lemma_plan_facts(rsv, order@, max_gap as int, max_transfer_size as int, write, 0);
        assert(order@.subrange(0, n as int) =~= order@);
        assert(pl.subrange(0, pl.len() as int) =~= pl);
    }
    let mut meta_slots = match metadata {
        Some(m) => into_slots(m),
        None => empty_slots(n),
    };
    let mut buf_slots = if write {
        into_slots(buffers)
    } else {
        empty_slots(n)
    };
    let mut ops: Vec<OptimisedOp<M>> = Vec::new();
    let mut gi: usize = 0;
    let ghost mut p: int = 0;
    while gi < groups.len()
        invariant
            crate::plan::groups_view(groups@) == pl,
            pl == plan(rsv, order@, max_gap as int, max_transfer_size as int, write),
            is_sorted_order(rsv, order@),
            rs@ == rsv,
            rsv == resolved_all(ranges, file_size),
            n == rsv.len(),
            max_transfer_size > 0,
            has_meta == md is Some,
            md is Some ==> md.unwrap().len() == n,
            write ==> bufs.len() == n,
            fname == filename@,
            write == write_g,
            forall|i: int| 0 <= i < n ==> rsv[i].start < rsv[i].end,
            forall|t: int|
                0 <= t < pl.len() ==> group_ok(
                    rsv,
                    #[trigger] pl[t],
                    max_gap as int,
                    max_transfer_size as int,
                    write,
                ),
            0 <= gi <= pl.len(),
            0 <= p <= n,
            pl.subrange(gi as int, pl.len() as int).flatten() == order@.subrange(p, n as int),
            meta_slots.len() == n,
            buf_slots.len() == n,
            forall|k: int| p <= k < n ==> meta_slots@[#[trigger] order@[k] as int] == meta_of(md, order@[k]),
            forall|k: int|
                p <= k < n ==> opt_view(buf_slots@[#[trigger] order@[k] as int]) == buf_of(
                    bufs,
                    write,
                    order@[k],
                ),
            ops.len() == gi,
            forall|t: int|
                0 <= t < gi ==> is_planned_op(
                    #[trigger] ops@[t],
                    fname,
                    rsv,
                    md,
                    bufs,
                    write,
                    max_transfer_size as int,
                    pl[t],
                ),
        decreases groups.len() - gi,
    {
        let g = &groups[gi];
        let ghost tail = pl.subrange(gi as int, pl.len() as int);
        let ghost len = g@.len() as int;
        proof {
            assert(g@ == pl[gi as int]);
            assert(tail.first() == g@);
            assert(tail.drop_first() =~= pl.subrange(gi + 1, pl.len() as int));
            assert(tail.flatten() == g@ + pl.subrange(gi + 1, pl.len() as int).flatten());
            assert(order@.subrange(p, n as int) =~= g@ + pl.subrange(gi + 1, pl.len() as int).flatten());
            assert forall|i: int| 0 <= i < len implies g@[i] == order@[p + i] by {
                assert(order@.subrange(p, n as int)[i] == g@[i]);
            }
            let flat_rest = pl.subrange(gi + 1, pl.len() as int).flatten();
            assert(flat_rest =~= (g@ + flat_rest).subrange(len, n - p));
            assert(order@.subrange(p, n as int).subrange(len, n - p) =~= order@.subrange(p + len, n as int));
            assert(group_ok(rsv, pl[gi as int], max_gap as int, max_transfer_size as int, write));
            assert forall|a: int, b: int| 0 <= a < b < len implies g@[a] != g@[b] by {
                assert(crate::byte_range::key_lt(rsv, order@[p + a], order@[p + b]));
            }
            assert forall|i: int| 0 <= i < len implies meta_slots@[#[trigger] g@[i] as int] == meta_of(md, g@[i]) by {
                assert(g@[i] == order@[p + i]);
            }
            assert forall|i: int| 0 <= i < len implies opt_view(buf_slots@[#[trigger] g@[i] as int]) == buf_of(bufs, write, g@[i]) by {
                assert(g@[i] == order@[p + i]);
            }
        }
        let ghost before_meta = meta_slots@;
        let ghost before_buf = buf_slots@;
        let op = if g.len() == 1 {
            proof {
                assert(g@ =~= seq![g@[0]]);
            }
            build_single(
                &filename,
                write,
                &rs,
                g[0],
                &mut meta_slots,
                &mut buf_slots,
                max_transfer_size,
                Ghost(md),
                Ghost(bufs),
            )
        } else {
            build_merged(
                &filename,
                write,
                &rs,
                g,
                has_meta,
                &mut meta_slots,
                &mut buf_slots,
                max_transfer_size,
                Ghost(md),
                Ghost(bufs),
            )
        };
        ops.push(op);
        proof {
            assert forall|k: int| p + len <= k < n implies meta_slots@[#[trigger] order@[k] as int] == meta_of(md, order@[k]) by {
                assert(!g@.contains(order@[k])) by {
                    if g@.contains(order@[k]) {
                        let i = choose|i: int| 0 <= i < len && g@[i] == order@[k];
                        assert(g@[i] == order@[p + i]);
                        assert(crate::byte_range::key_lt(rsv, order@[p + i], order@[k]));
                    }
                }
                assert(before_meta[order@[k] as int] == meta_of(md, order@[k]));
            }
            assert forall|k: int| p + len <= k < n implies opt_view(buf_slots@[#[trigger] order@[k] as int]) == buf_of(bufs, write, order@[k]) by {
                assert(!g@.contains(order@[k])) by {
                    if g@.contains(order@[k]) {
                        let i = choose|i: int| 0 <= i < len && g@[i] == order@[k];
                        assert(g@[i] == order@[p + i]);
                        assert(crate::byte_range::key_lt(rsv, order@[p + i], order@[k]));
                    }
                }
                assert(opt_view(before_buf[order@[k] as int]) == buf_of(bufs, write, order@[k]));
            }
            p = p + len;
        }
        gi = gi + 1;
    }
    proof {
        assert(pl.len() == groups.len());
        assert(is_sorted_order(resolved_all(ranges, file_size), order@));
    }
    Ok(ops)
}

} // verus!
