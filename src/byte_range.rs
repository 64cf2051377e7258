//! Byte ranges as users write them (bounds may count back from the end of the
//! file) and as transfers use them (resolved, half-open, inside the file).
use std::ops::Range;
use vstd::prelude::*;

verus! {

/// A resolved half-open interval `[start, end)` of a file's bytes.
#[derive(Clone, Copy, Debug, PartialEq, Eq, Structural)]
pub struct ByteRange {
    pub start: u64,
    pub end: u64,
}

impl ByteRange {
    pub open spec fn len_spec(self) -> int {
        self.end - self.start
    }

    /// Whether byte offset `x` lies inside the range.
    pub open spec fn holds(self, x: int) -> bool {
        self.start <= x < self.end
    }

    /// Number of bytes in the range.
    pub fn len(&self) -> (r: u64)
        requires
            self.start <= self.end,
        ensures
            r == self.len_spec(),
    {
        self.end - self.start
    }
}

/// Where a user bound lands in a file of `file_size` bytes. A negative start
/// counts back from the end (`-100` is `file_size - 100`); a negative end
/// counts back from one past the end, so that `-1` is the end of the file.
pub open spec fn resolve_start(b: int, file_size: int) -> int {
    if b >= 0 {
        b
    } else {
        file_size + b
    }
}

pub open spec fn resolve_end(b: int, file_size: int) -> int {
    if b >= 0 {
        b
    } else {
        file_size + b + 1
    }
}

/// A user range is usable when it resolves to a non-empty range inside the file.
pub open spec fn resolvable(r: Range<isize>, file_size: u64) -> bool {
    let s = resolve_start(r.start as int, file_size as int);
    let e = resolve_end(r.end as int, file_size as int);
    0 <= s < e <= file_size
}

pub open spec fn resolved(r: Range<isize>, file_size: u64) -> ByteRange {
    ByteRange {
        start: resolve_start(r.start as int, file_size as int) as u64,
        end: resolve_end(r.end as int, file_size as int) as u64,
    }
}

/// Resolves a user range against the size of its file; `None` when it does not
/// name a non-empty range inside the file.
pub fn resolve(r: &Range<isize>, file_size: u64) -> (res: Option<ByteRange>)
    ensures
        res == (if resolvable(*r, file_size) {
            Some(resolved(*r, file_size))
        } else {
            None
        }),
{
    let fs = file_size as i128;
    let s: i128 = if r.start >= 0 {
        r.start as i128
    } else {
        fs + r.start as i128
    };
    let e: i128 = if r.end >= 0 {
        r.end as i128
    } else {
        fs + r.end as i128 + 1
    };
    if 0 <= s && s < e && e <= fs {
        Some(ByteRange { start: s as u64, end: e as u64 })
    } else {
        None
    }
}

/// Sort key order: by start offset, ties broken by position in the request.
pub open spec fn key_lt(rs: Seq<ByteRange>, i: usize, j: usize) -> bool {
    rs[i as int].start < rs[j as int].start || (rs[i as int].start == rs[j as int].start && i < j)
}

/// `order` lists every index of `rs` once, in increasing key order.
pub open spec fn is_sorted_order(rs: Seq<ByteRange>, order: Seq<usize>) -> bool {
    &&& order.len() == rs.len()
    &&& forall|k: int| 0 <= k < order.len() ==> (order[k] as int) < rs.len()
    &&& forall|i: usize| (i as int) < rs.len() ==> #[trigger] order.contains(i)
    &&& forall|a: int, b: int| 0 <= a < b < order.len() ==> key_lt(rs, order[a], order[b])
}

/// Indices of `rs` by increasing start offset; equal starts keep request order.
pub fn sort_by_start(rs: &Vec<ByteRange>) -> (order: Vec<usize>)
    ensures
        is_sorted_order(rs@, order@),
{
    let n = rs.len();
    let mut order: Vec<usize> = Vec::new();
    let mut i: usize = 0;
    while i < n
        invariant
            i <= n,
            n == rs.len(),
            order.len() == i,
            forall|k: int| 0 <= k < order.len() ==> (order[k] as int) < i,
            forall|x: usize| x < i ==> #[trigger] order@.contains(x),
            forall|a: int, b: int| 0 <= a < b < order.len() ==> key_lt(rs@, order[a], order[b]),
        decreases n - i,
    {
        let mut p: usize = 0;
        while p < order.len() && rs[order[p]].start <= rs[i].start
            invariant
                p <= order.len(),
                i < n,
                n == rs.len(),
                order.len() == i,
                forall|k: int| 0 <= k < order.len() ==> (order[k] as int) < i,
                forall|k: int| 0 <= k < p ==> rs@[order[k] as int].start <= rs@[i as int].start,
            decreases order.len() - p,
        {
            p = p + 1;
        }
        proof {
            // Everything from `p` on starts after range `i`.
            assert forall|k: int| p <= k < order.len() implies rs@[order[k] as int].start
                > rs@[i as int].start by {
                if k > p {
                    assert(key_lt(rs@, order[p as int], order[k]));
                }
            }
        }
        let ghost prev = order@;
        order.insert(p, i);
        proof {
            prev.insert_ensures(p as int, i);
            assert forall|x: usize| x <= i implies #[trigger] order@.contains(x) by {
                if x == i {
                    assert(order@[p as int] == i);
                } else {
                    assert(prev.contains(x));
                    let k = choose|k: int| 0 <= k < prev.len() && prev[k] == x;
                    if k < p {
                        assert(order@[k] == x);
                    } else {
                        assert(order@[k + 1] == x);
                    }
                }
            }
            assert forall|a: int, b: int| 0 <= a < b < order.len() implies key_lt(
                rs@,
                order[a],
                order[b],
            ) by {
                if b < p {
                } else if b == p {
                    if a < p {
                        assert(order@[a] == prev[a]);
                    }
                } else if a < p {
                    assert(order@[b] == prev[b - 1]);
                } else if a == p {
                    assert(order@[b] == prev[b - 1]);
                } else {
                    assert(order@[a] == prev[a - 1]);
                    assert(order@[b] == prev[b - 1]);
                }
            }
        }
        i = i + 1;
    }
    order
}

} // verus!
