//! Progress of one planned transfer: which pieces to submit next, and what to
//! hand back to the user once every piece has come back.
use crate::byte_range::ByteRange;
use crate::optimise::{into_slots, opt_view, take_slot, OptimisedOp};
use crate::plan::pieces;
use std::sync::Arc;
use vstd::prelude::*;

verus! {

/// What the I/O layer reports for one submitted piece.
pub enum SubTransferResult {
    /// The piece at `index` was transferred; for a read, `data` holds its bytes.
    Completed { index: usize, data: Vec<u8> },
    /// The transfer of the piece at `index` failed.
    Failed { index: usize },
}

/// The result for one user range: its bytes (none for a write) and its metadata.
#[derive(Debug)]
pub struct Delivery<M> {
    pub user_index: usize,
    pub data: Vec<u8>,
    pub metadata: Option<M>,
}

/// A transfer failed: the file and the range that could not be transferred.
#[derive(Debug)]
pub struct TransferFailure {
    pub filename: Arc<Vec<u8>>,
    pub byte_range: ByteRange,
}

/// What to do after a piece has come back.
pub enum StepOutcome<M> {
    /// Submit these pieces (index and range) next.
    NeedsMoreSubmissions(Vec<(usize, ByteRange)>),
    /// Wait for pieces still in flight.
    AwaitingMore,
    /// The transfer is over: the results for its user ranges, or why it failed.
    Complete(Result<Vec<Delivery<M>>, TransferFailure>),
}

impl SubTransferResult {
    pub open spec fn index_spec(self) -> usize {
        match self {
            SubTransferResult::Completed { index, .. } => index,
            SubTransferResult::Failed { index } => index,
        }
    }

    /// Whether the piece came back whole: a read must bring `len` bytes.
    pub open spec fn succeeded(self, write: bool, len: int) -> bool {
        match self {
            SubTransferResult::Completed { data, .. } => write || data@.len() == len,
            SubTransferResult::Failed { .. } => false,
        }
    }

    pub open spec fn data_spec(self) -> Seq<u8> {
        match self {
            SubTransferResult::Completed { data, .. } => data@,
            SubTransferResult::Failed { .. } => seq![],
        }
    }
}

/// `buf` with `data` written over it from offset `off`.
pub open spec fn written_at(buf: Seq<u8>, off: int, data: Seq<u8>) -> Seq<u8> {
    buf.subrange(0, off) + data + buf.subrange(off + data.len(), buf.len() as int)
}

/// The outcome hands back exactly one result.
pub open spec fn delivers_one<M>(out: StepOutcome<M>, ui: usize, data: Seq<u8>, md: Option<M>) -> bool {
    match out {
        StepOutcome::Complete(Ok(ds)) => {
            &&& ds@.len() == 1
            &&& ds@[0].user_index == ui
            &&& ds@[0].data@ == data
            &&& ds@[0].metadata == md
        },
        _ => false,
    }
}

/// The outcome reports a failure of `r` in the file `name`.
pub open spec fn fails_with<M>(out: StepOutcome<M>, name: Seq<u8>, r: ByteRange) -> bool {
    match out {
        StepOutcome::Complete(Err(f)) => f.filename@ == name && f.byte_range == r,
        _ => false,
    }
}

/// The outcome asks to submit exactly the piece `i`, `r`.
pub open spec fn submits_one<M>(out: StepOutcome<M>, i: usize, r: ByteRange) -> bool {
    match out {
        StepOutcome::NeedsMoreSubmissions(v) => v@ == seq![(i, r)],
        _ => false,
    }
}

/// What one user range of a merged transfer receives.
pub open spec fn merged_delivery<M>(
    d: Delivery<M>,
    write: bool,
    merged: ByteRange,
    data: Seq<u8>,
    r: ByteRange,
    ui: usize,
    md: Option<Seq<M>>,
    i: int,
) -> bool {
    &&& d.user_index == ui
    &&& d.data@ == (if write {
        seq![]
    } else {
        data.subrange(r.start - merged.start, r.end - merged.start)
    })
    &&& d.metadata == (match md {
        Some(m) => Some(m[i]),
        None => None,
    })
}

impl<M> OptimisedOp<M> {
    /// The ranges this transfer moves, in order.
    pub open spec fn transfers(self) -> Seq<ByteRange> {
        match self {
            OptimisedOp::Unchanged { byte_range, .. } => seq![byte_range],
            OptimisedOp::Split { split_byte_ranges, .. } => split_byte_ranges@,
            OptimisedOp::Merged { merged_byte_range, .. } => seq![merged_byte_range],
        }
    }

    /// Whether `c` can be the next piece to come back: for a split transfer, a
    /// submitted piece while some are still in flight.
    pub open spec fn accepts(self, c: SubTransferResult) -> bool {
        match self {
            OptimisedOp::Split { next_to_submit, n_completed, .. } => {
                &&& c.index_spec() < next_to_submit
                &&& n_completed < next_to_submit
            },
            _ => true,
        }
    }

    /// A split read assembles its range in memory, so the range must fit there.
    pub open spec fn fits_memory(self) -> bool {
        match self {
            OptimisedOp::Split { write, user_byte_range, .. } => !write ==> user_byte_range.end
                - user_byte_range.start <= usize::MAX,
            _ => true,
        }
    }

    /// No piece of a split transfer has been submitted yet.
    pub open spec fn not_started(self) -> bool {
        match self {
            OptimisedOp::Split { next_to_submit, .. } => next_to_submit == 0,
            _ => true,
        }
    }

    /// Bookkeeping that holds of a transfer throughout its life.
    pub open spec fn wf(self) -> bool {
        match self {
            OptimisedOp::Unchanged { byte_range, .. } => byte_range.start < byte_range.end,
            OptimisedOp::Split {
                write,
                split_byte_ranges,
                next_to_submit,
                n_completed,
                failed,
                user_byte_range,
                user_buffer,
                ..
            } => {
                &&& user_byte_range.start < user_byte_range.end
                &&& forall|i: int|
                    0 <= i < split_byte_ranges.len() ==> user_byte_range.start
                        <= #[trigger] split_byte_ranges@[i].start <= split_byte_ranges@[i].end
                        <= user_byte_range.end
                &&& n_completed <= next_to_submit <= split_byte_ranges.len()
                &&& (failed matches Some(f) ==> f < split_byte_ranges.len())
                &&& (!write && user_buffer is Some ==> user_buffer.unwrap()@.len()
                    == user_byte_range.end - user_byte_range.start)
            },
            OptimisedOp::Merged {
                merged_byte_range,
                user_byte_ranges,
                user_metadata,
                user_indices,
                ..
            } => {
                &&& merged_byte_range.start <= merged_byte_range.end
                &&& user_indices.len() == user_byte_ranges.len()
                &&& (user_metadata is Some ==> user_metadata.unwrap().len()
                    == user_byte_ranges.len())
                &&& forall|i: int|
                    0 <= i < user_byte_ranges.len() ==> merged_byte_range.start
                        <= #[trigger] user_byte_ranges@[i].start <= user_byte_ranges@[i].end
                        <= merged_byte_range.end
            },
        }
    }
}

/// Copies `data[from..to]` into a new buffer.
fn copy_range(data: &Vec<u8>, from: usize, to: usize) -> (r: Vec<u8>)
    requires
        from <= to <= data.len(),
    ensures
        r@ == data@.subrange(from as int, to as int),
{
    let mut r: Vec<u8> = Vec::new();
    let mut i: usize = from;
    while i < to
        invariant
            from <= i <= to <= data.len(),
            r@ == data@.subrange(from as int, i as int),
        decreases to - i,
    {
        r.push(data[i]);
        i = i + 1;
        proof {
            assert(r@ =~= data@.subrange(from as int, i as int));
        }
    }
    r
}

/// A buffer of `n` zero bytes.
fn zeroed(n: usize) -> (r: Vec<u8>)
    ensures
        r@ == Seq::new(n as nat, |i: int| 0u8),
{
    let mut r: Vec<u8> = Vec::new();
    let mut i: usize = 0;
    while i < n
        invariant
            i <= n,
            r@ == Seq::new(i as nat, |k: int| 0u8),
        decreases n - i,
    {
        r.push(0);
        i = i + 1;
        proof {
            assert(r@ =~= Seq::new(i as nat, |k: int| 0u8));
        }
    }
    r
}

/// Writes `data` into `buf` from offset `off`.
fn write_at(buf: &mut Vec<u8>, off: usize, data: &Vec<u8>)
    requires
        off + data.len() <= old(buf).len(),
    ensures
        final(buf)@ == written_at(old(buf)@, off as int, data@),
{
    let mut i: usize = 0;
    while i < data.len()
        invariant
            off + data.len() <= buf.len(),
            buf.len() == old(buf).len(),
            i <= data.len(),
            buf@ == written_at(old(buf)@, off as int, data@.subrange(0, i as int)),
            forall|k: int| off + i <= k < buf.len() ==> buf@[k] == old(buf)@[k],
        decreases data.len() - i,
    {
        buf.set(off + i, data[i]);
        i = i + 1;
        proof {
            assert(buf@ =~= written_at(old(buf)@, off as int, data@.subrange(0, i as int)));
        }
    }
    proof {
        assert(data@.subrange(0, data.len() as int) =~= data@);
        assert(buf@ =~= written_at(old(buf)@, off as int, data@));
    }
}

/// The user buffer of a split read once a piece has landed in it: the buffer so
/// far (zeros before the first piece) with the piece's bytes at its offset.
pub open spec fn landed(buf: Option<Seq<u8>>, user: ByteRange, piece: ByteRange, data: Seq<u8>) -> Seq<u8> {
    let base = match buf {
        Some(b) => b,
        None => Seq::new((user.end - user.start) as nat, |k: int| 0u8),
    };
    written_at(base, piece.start - user.start, data)
}

/// `op` is a split transfer with these fields.
pub open spec fn is_split<M>(
    op: OptimisedOp<M>,
    name: Seq<u8>,
    w: bool,
    sr: Seq<ByteRange>,
    nx: usize,
    nc: usize,
    fl: Option<usize>,
    ur: ByteRange,
    buf: Option<Seq<u8>>,
    um: Option<M>,
    ui: usize,
) -> bool {
    match op {
        OptimisedOp::Split {
            filename,
            write,
            split_byte_ranges,
            next_to_submit,
            n_completed,
            failed,
            user_byte_range,
            user_buffer,
            user_metadata,
            user_index,
        } => {
            &&& filename@ == name
            &&& write == w
            &&& split_byte_ranges@ == sr
            &&& next_to_submit == nx
            &&& n_completed == nc
            &&& failed == fl
            &&& user_byte_range == ur
            &&& crate::optimise::opt_view(user_buffer) == buf
            &&& user_metadata == um
            &&& user_index == ui
        },
        _ => false,
    }
}

/// What one call of `advance` does, from the transfer before the call, the
/// transfer after it, the piece that came back and the outcome.
pub open spec fn advance_spec<M>(
    pre: OptimisedOp<M>,
    post: OptimisedOp<M>,
    c: SubTransferResult,
    out: StepOutcome<M>,
) -> bool {
    match pre {
        OptimisedOp::Unchanged { filename, write, byte_range, metadata, user_index, .. } => {
            if c.succeeded(write, byte_range.len_spec()) {
                delivers_one(
                    out,
                    user_index,
                    if write {
                        seq![]
                    } else {
                        c.data_spec()
                    },
                    metadata,
                )
            } else {
                fails_with(out, filename@, byte_range)
            }
        },
        OptimisedOp::Split {
            filename,
            write,
            split_byte_ranges,
            next_to_submit,
            n_completed,
            failed,
            user_byte_range,
            user_buffer,
            user_metadata,
            user_index,
        } => {
            let sr = split_byte_ranges@;
            let i = c.index_spec();
            if failed is None && c.succeeded(write, sr[i as int].len_spec()) {
                let buf = if write {
                    crate::optimise::opt_view(user_buffer)
                } else {
                    Some(
                        landed(
                            crate::optimise::opt_view(user_buffer),
                            user_byte_range,
                            sr[i as int],
                            c.data_spec(),
                        ),
                    )
                };
                if next_to_submit < sr.len() {
                    &&& submits_one(out, next_to_submit, sr[next_to_submit as int])
                    &&& is_split(
                        post,
                        filename@,
                        write,
                        sr,
                        (next_to_submit + 1) as usize,
                        (n_completed + 1) as usize,
                        None,
                        user_byte_range,
                        buf,
                        user_metadata,
                        user_index,
                    )
                } else if n_completed + 1 == sr.len() {
                    delivers_one(
                        out,
                        user_index,
                        if write {
                            seq![]
                        } else {
                            buf.unwrap()
                        },
                        user_metadata,
                    )
                } else {
                    &&& out is AwaitingMore
                    &&& is_split(
                        post,
                        filename@,
                        write,
                        sr,
                        next_to_submit,
                        (n_completed + 1) as usize,
                        None,
                        user_byte_range,
                        buf,
                        user_metadata,
                        user_index,
                    )
                }
            } else {
                let f = match failed {
                    Some(f) => f,
                    None => i,
                };
                if n_completed + 1 == next_to_submit {
                    fails_with(out, filename@, sr[f as int])
                } else {
                    &&& out is AwaitingMore
                    &&& is_split(
                        post,
                        filename@,
                        write,
                        sr,
                        next_to_submit,
                        (n_completed + 1) as usize,
                        Some(f),
                        user_byte_range,
                        crate::optimise::opt_view(user_buffer),
                        user_metadata,
                        user_index,
                    )
                }
            }
        },
        OptimisedOp::Merged {
            filename,
            write,
            merged_byte_range,
            user_byte_ranges,
            user_metadata,
            user_indices,
            ..
        } => {
            if c.succeeded(write, merged_byte_range.len_spec()) {
                match out {
                    StepOutcome::Complete(Ok(ds)) => {
                        &&& ds@.len() == user_indices@.len()
                        &&& forall|i: int|
                            0 <= i < ds@.len() ==> merged_delivery(
                                #[trigger] ds@[i],
                                write,
                                merged_byte_range,
                                c.data_spec(),
                                user_byte_ranges@[i],
                                user_indices@[i],
                                crate::optimise::opt_view(user_metadata),
                                i,
                            )
                    },
                    _ => false,
                }
            } else {
                fails_with(out, filename@, merged_byte_range)
            }
        },
    }
}

/// The pieces to submit first, and the transfer afterwards, when at most
/// `window` pieces may be in flight.
pub open spec fn initial_spec<M>(pre: OptimisedOp<M>, post: OptimisedOp<M>, window: usize, out: Seq<(usize, ByteRange)>) -> bool {
    match pre {
        OptimisedOp::Split { split_byte_ranges, next_to_submit, .. } => {
            let k = if window < split_byte_ranges.len() {
                window as int
            } else {
                split_byte_ranges.len() as int
            };
            &&& out == Seq::new(k as nat, |i: int| (i as usize, split_byte_ranges@[i]))
            &&& post == (match pre {
                OptimisedOp::Split {
                    filename,
                    write,
                    split_byte_ranges,
                    n_completed,
                    failed,
                    user_byte_range,
                    user_buffer,
                    user_metadata,
                    user_index,
                    ..
                } => OptimisedOp::Split {
                    filename,
                    write,
                    split_byte_ranges,
                    next_to_submit: k as usize,
                    n_completed,
                    failed,
                    user_byte_range,
                    user_buffer,
                    user_metadata,
                    user_index,
                },
                _ => pre,
            })
        },
        _ => out == pre.transfers().map(|i: int, r: ByteRange| (i as usize, r)) && post == pre,
    }
}

impl<M> OptimisedOp<M> {
    /// The pieces to submit when the transfer starts. A split transfer starts
    /// with up to `window` pieces; the others with their one range.
    pub fn initial_submissions(&mut self, window: usize) -> (out: Vec<(usize, ByteRange)>)
        requires
            window > 0,
            old(self).wf(),
            old(self).not_started(),
        ensures
            initial_spec(*old(self), *final(self), window, out@),
            final(self).wf(),
    {
        let mut out: Vec<(usize, ByteRange)> = Vec::new();
        match self {
            OptimisedOp::Unchanged { byte_range, .. } => {
                out.push((0, *byte_range));
                proof {
                    assert(out@ =~= old(self).transfers().map(|i: int, r: ByteRange| (i as usize, r)));
                }
            },
            OptimisedOp::Merged { merged_byte_range, .. } => {
                out.push((0, *merged_byte_range));
                proof {
                    assert(out@ =~= old(self).transfers().map(|i: int, r: ByteRange| (i as usize, r)));
                }
            },
            OptimisedOp::Split { split_byte_ranges, next_to_submit, .. } => {
                let n = split_byte_ranges.len();
                let k = if window < n {
                    window
                } else {
                    n
                };
                let mut i: usize = 0;
                while i < k
                    invariant
                        i <= k <= n,
                        n == split_byte_ranges.len(),
                        out@ == Seq::new(i as nat, |j: int| (j as usize, split_byte_ranges@[j])),
                    decreases k - i,
                {
                    out.push((i, split_byte_ranges[i]));
                    i = i + 1;
                    proof {
                        assert(out@ =~= Seq::new(i as nat, |j: int| (j as usize, split_byte_ranges@[j])));
                    }
                }
                *next_to_submit = k;
            },
        }
        out
    }

    /// Records that a piece came back, and says what to do next. A split
    /// transfer asks for one more piece for each piece that succeeds while pieces
    /// are left to submit; after a failure it submits nothing more and reports the
    /// first failed piece once all pieces in flight are back.
    pub fn advance(&mut self, completion: SubTransferResult) -> (out: StepOutcome<M>)
        requires
            old(self).wf(),
            old(self).fits_memory(),
            old(self).accepts(completion),
        ensures
            advance_spec(*old(self), *final(self), completion, out),
            final(self).wf(),
            final(self).fits_memory(),
    {
        match self {
            OptimisedOp::Unchanged { filename, write, byte_range, metadata, user_index, .. } => {
                match completion {
                    SubTransferResult::Completed { data, .. } => {
                        if *write || data.len() as u64 == byte_range.end - byte_range.start {
                            let md = metadata.take();
                            let d = if *write {
                                Vec::new()
                            } else {
                                data
                            };
                            let mut ds: Vec<Delivery<M>> = Vec::new();
                            ds.push(Delivery { user_index: *user_index, data: d, metadata: md });
                            StepOutcome::Complete(Ok(ds))
                        } else {
                            StepOutcome::Complete(
                                Err(TransferFailure { filename: filename.clone(), byte_range: *byte_range }),
                            )
                        }
                    },
                    SubTransferResult::Failed { .. } => {
                        StepOutcome::Complete(
                            Err(TransferFailure { filename: filename.clone(), byte_range: *byte_range }),
                        )
                    },
                }
            },
            OptimisedOp::Split {
                filename,
                write,
                split_byte_ranges,
                next_to_submit,
                n_completed,
                failed,
                user_byte_range,
                user_buffer,
                user_metadata,
                user_index,
            } => {
                let i = match &completion {
                    SubTransferResult::Completed { index, .. } => *index,
                    SubTransferResult::Failed { index } => *index,
                };
                let piece = split_byte_ranges[i];
                let ok = match &completion {
                    SubTransferResult::Completed { data, .. } => *write || data.len() as u64
                        == piece.end - piece.start,
                    SubTransferResult::Failed { .. } => false,
                };
                if failed.is_none() && ok {
                    if !*write {
                        let data = match completion {
                            SubTransferResult::Completed { data, .. } => data,
                            SubTransferResult::Failed { .. } => Vec::new(),
                        };
                        let mut buf = match user_buffer.take() {
                            Some(b) => b,
                            None => zeroed((user_byte_range.end - user_byte_range.start) as usize),
                        };
                        write_at(&mut buf, (piece.start - user_byte_range.start) as usize, &data);
                        *user_buffer = Some(buf);
                    }
                    *n_completed = *n_completed + 1;
                    if *next_to_submit < split_byte_ranges.len() {
                        let nx = *next_to_submit;
                        let mut v: Vec<(usize, ByteRange)> = Vec::new();
                        v.push((nx, split_byte_ranges[nx]));
                        *next_to_submit = nx + 1;
                        StepOutcome::NeedsMoreSubmissions(v)
                    } else if *n_completed == split_byte_ranges.len() {
                        let d = if *write {
                            Vec::new()
                        } else {
                            match user_buffer.take() {
                                Some(b) => b,
                                None => Vec::new(),
                            }
                        };
                        let md = user_metadata.take();
                        let mut ds: Vec<Delivery<M>> = Vec::new();
                        ds.push(Delivery { user_index: *user_index, data: d, metadata: md });
                        StepOutcome::Complete(Ok(ds))
                    } else {
                        StepOutcome::AwaitingMore
                    }
                } else {
                    let f = match *failed {
                        Some(f) => f,
                        None => i,
                    };
                    *failed = Some(f);
                    *n_completed = *n_completed + 1;
                    if *n_completed == *next_to_submit {
                        StepOutcome::Complete(
                            Err(
                                TransferFailure {
                                    filename: filename.clone(),
                                    byte_range: split_byte_ranges[f],
                                },
                            ),
                        )
                    } else {
                        StepOutcome::AwaitingMore
                    }
                }
            },
            OptimisedOp::Merged {
                filename,
                write,
                merged_byte_range,
                user_byte_ranges,
                user_metadata,
                user_indices,
                ..
            } => {
                let m = *merged_byte_range;
                let data = match completion {
                    SubTransferResult::Completed { data, .. } => {
                        if *write || data.len() as u64 == m.end - m.start {
                            Some(data)
                        } else {
                            None
                        }
                    },
                    SubTransferResult::Failed { .. } => None,
                };
                match data {
                    None => StepOutcome::Complete(
                        Err(TransferFailure { filename: filename.clone(), byte_range: m }),
                    ),
                    Some(data) => {
                        let ghost md = opt_view(*user_metadata);
                        let mut slots = match user_metadata.take() {
                            Some(v) => Some(into_slots(v)),
                            None => None,
                        };
                        let n = user_byte_ranges.len();
                        let mut ds: Vec<Delivery<M>> = Vec::new();
                        let mut i: usize = 0;
                        while i < n
                            invariant
                                i <= n,
                                n == user_byte_ranges.len(),
                                n == user_indices.len(),
                                *write || data@.len() == m.end - m.start,
                                md is Some ==> md.unwrap().len() == n,
                                forall|k: int|
                                    0 <= k < n ==> m.start <= #[trigger] user_byte_ranges@[k].start
                                        <= user_byte_ranges@[k].end <= m.end,
                                md is None ==> slots is None,
                                md is Some ==> slots is Some && slots.unwrap().len() == n,
                                md is Some ==> forall|k: int|
                                    i <= k < n ==> #[trigger] slots.unwrap()@[k] == Some(
                                        md.unwrap()[k],
                                    ),
                                ds@.len() == i,
                                forall|k: int|
                                    0 <= k < i ==> merged_delivery(
                                        #[trigger] ds@[k],
                                        *write,
                                        m,
                                        data@,
                                        user_byte_ranges@[k],
                                        user_indices@[k],
                                        md,
                                        k,
                                    ),
                            decreases n - i,
                        {
                            let r = user_byte_ranges[i];
                            proof {
                                assert(m.start <= r.start <= r.end <= m.end);
                            }
                            let d = if *write {
                                Vec::new()
                            } else {
                                let dl = data.len();
                                proof {
                                    assert(r.end - m.start <= dl);
                                }
                                let from = (r.start - m.start) as usize;
                                let to = (r.end - m.start) as usize;
                                proof {
                                    assert(from as int == r.start - m.start);
                                    assert(to as int == r.end - m.start);
                                }
                                copy_range(&data, from, to)
                            };
                            let ghost before = slots;
                            let meta = match &mut slots {
                                Some(s) => take_slot(s, i),
                                None => None,
                            };
                            proof {
                                if md is Some {
                                    assert(meta == before.unwrap()@[i as int]);
                                    assert forall|k: int| i + 1 <= k < n implies #[trigger] slots.unwrap()@[k] == Some(md.unwrap()[k]) by {
                                        assert(before.unwrap()@[k] == Some(md.unwrap()[k]));
                                    }
                                }
                            }
                            let ghost prev = ds@;
                            ds.push(Delivery { user_index: user_indices[i], data: d, metadata: meta });
                            proof {
                                assert forall|k: int| 0 <= k < i + 1 implies merged_delivery(
                                    #[trigger] ds@[k],
                                    *write,
                                    m,
                                    data@,
                                    user_byte_ranges@[k],
                                    user_indices@[k],
                                    md,
                                    k,
                                ) by {
                                    if k < i {
                                        assert(ds@[k] == prev[k]);
                                    }
                                }
                            }
                            i = i + 1;
                        }
                        StepOutcome::Complete(Ok(ds))
                    },
                }
            },
        }
    }
}

/// The user buffer of a split read after the pieces in `arrivals` (piece index
/// and bytes, in arrival order) have landed; `None` before the first.
pub open spec fn assembled(user: ByteRange, sr: Seq<ByteRange>, arrivals: Seq<(usize, Seq<u8>)>) -> Option<
    Seq<u8>,
>
    decreases arrivals.len(),
{
    if arrivals.len() == 0 {
        None
    } else {
        let prev = assembled(user, sr, arrivals.drop_last());
        let a = arrivals.last();
        Some(landed(prev, user, sr[a.0 as int], a.1))
    }
}

proof fn lemma_written_at(buf: Seq<u8>, off: int, data: Seq<u8>)
    requires
        0 <= off,
        off + data.len() <= buf.len(),
    ensures
        written_at(buf, off, data).len() == buf.len(),
        forall|p: int|
            0 <= p < buf.len() ==> #[trigger] written_at(buf, off, data)[p] == if off <= p < off
                + data.len() {
                data[p - off]
            } else {
                buf[p]
            },
{
}

/// Split reads assemble in order: whatever order the pieces of a range arrive
/// in, each lands at its own place, so once all have arrived the buffer holds
/// their bytes one after the other in piece order.
pub proof fn lemma_split_assembly(user: ByteRange, max: int, arrivals: Seq<(usize, Seq<u8>)>)
    requires
        user.start < user.end,
        max > 0,
        arrivals.len() >= 1,
        forall|a: int, b: int| 0 <= a < b < arrivals.len() ==> arrivals[a].0 != arrivals[b].0,
        forall|a: int|
            0 <= a < arrivals.len() ==> {
                let i = (#[trigger] arrivals[a]).0 as int;
                &&& i < pieces(user.start as int, user.end as int, max).len()
                &&& arrivals[a].1.len() == pieces(user.start as int, user.end as int, max)[i].len_spec()
            },
    ensures
        ({
            let sr = pieces(user.start as int, user.end as int, max);
            let buf = assembled(user, sr, arrivals).unwrap();
            &&& assembled(user, sr, arrivals) is Some
            &&& buf.len() == user.end - user.start
            &&& forall|a: int, k: int|
                0 <= a < arrivals.len() && 0 <= k < arrivals[a].1.len() ==> buf[sr[arrivals[a].0 as int].start
                    - user.start + k] == #[trigger] arrivals[a].1[k]
        }),
    decreases arrivals.len(),
{
    let sr = pieces(user.start as int, user.end as int, max);
    crate::coverage::lemma_pieces(user.start as int, user.end as int, max);
    let m = arrivals.len() as int;
    let last = arrivals.last();
    let piece = sr[last.0 as int];
    let off = piece.start - user.start;
    let prev = assembled(user, sr, arrivals.drop_last());
    let base = match prev {
        Some(b) => b,
        None => Seq::new((user.end - user.start) as nat, |k: int| 0u8),
    };
    if m > 1 {
        let rest = arrivals.drop_last();
        assert forall|a: int, b: int| 0 <= a < b < rest.len() implies rest[a].0 != rest[b].0 by {
            assert(rest[a] == arrivals[a]);
            assert(rest[b] == arrivals[b]);
        }
        assert forall|a: int| 0 <= a < rest.len() implies {
            let i = (#[trigger] rest[a]).0 as int;
            &&& i < sr.len()
            &&& rest[a].1.len() == sr[i].len_spec()
        } by {
            assert(rest[a] == arrivals[a]);
        }
        lemma_split_assembly(user, max, rest);
    }
    assert(base.len() == user.end - user.start);
    lemma_written_at(base, off, last.1);
    let buf = assembled(user, sr, arrivals).unwrap();
    assert(buf == written_at(base, off, last.1));
    assert forall|a: int, k: int|
        0 <= a < arrivals.len() && 0 <= k < arrivals[a].1.len() implies buf[sr[arrivals[a].0 as int].start
            - user.start + k] == #[trigger] arrivals[a].1[k] by {
        let q = sr[arrivals[a].0 as int];
        let p = q.start - user.start + k;
        if a < m - 1 {
            let rest = arrivals.drop_last();
            assert(rest[a] == arrivals[a]);
            assert(arrivals[a].0 != last.0);
            if (arrivals[a].0 as int) < (last.0 as int) {
                crate::coverage::lemma_pieces_ordered(user.start as int, user.end as int, max, arrivals[a].0 as int, last.0 as int);
            } else {
                crate::coverage::lemma_pieces_ordered(user.start as int, user.end as int, max, last.0 as int, arrivals[a].0 as int);
            }
            assert(!(off <= p < off + last.1.len()));
            assert(base[p] == arrivals[a].1[k]);
        } else {
            assert(a == m - 1);
        }
    }
}

} // verus!
