//! Cutting matrix products into slices of rows, so that no dispatch holds the
//! device for long.

use vstd::prelude::*;

verus! {

pub const MIN_ROWS: usize = 32;

pub const MAX_ROWS: usize = 4096;

/// The first of `p` and its doubles that is at least `rows` or the largest
/// slice.
pub open spec fn doubled_up_to(p: int, rows: int) -> int
    decreases
            (if p < MAX_ROWS {
                MAX_ROWS - p
            } else {
                0
            }),
{
    if p <= 0 || p >= rows || p >= MAX_ROWS {
        p
    } else {
        doubled_up_to(2 * p, rows)
    }
}

/// How many rows a slice has where `rows` fit into its time: the next power of
/// two between the smallest and the largest slice.
pub open spec fn slice_rows(rows: int) -> int {
    doubled_up_to(MIN_ROWS as int, rows)
}

/// A slice has a power of two of rows, between the smallest and the largest
/// slice; unless it is the largest it has at least `rows` rows, and unless it is
/// the smallest half of it would be too few.
pub proof fn slice_rows_is_the_next_power(rows: int)
    ensures
        [32int, 64, 128, 256, 512, 1024, 2048, 4096]@.contains(slice_rows(rows)),
        MIN_ROWS <= slice_rows(rows) <= MAX_ROWS,
        slice_rows(rows) < MAX_ROWS ==> slice_rows(rows) >= rows,
        slice_rows(rows) > MIN_ROWS ==> slice_rows(rows) / 2 < rows,
{
    reveal_with_fuel(doubled_up_to, 9);
    let all = [32int, 64, 128, 256, 512, 1024, 2048, 4096]@;
    assert(all[0] == 32 && all[1] == 64 && all[2] == 128 && all[3] == 256 && all[4] == 512
        && all[5] == 1024 && all[6] == 2048 && all[7] == 4096);
}

/// Cuts dispatches into slices.
#[derive(Debug, Clone, Copy, PartialEq, Eq, Structural)]
pub struct WavefrontScheduler {
    /// The most rows of a slice.
    pub rows_per_slice: usize,
    pub slices_dispatched: u64,
    pub total_dispatch_ns: u64,
    /// Whether others get a turn between two slices.
    pub cooperative_yield: bool,
}

impl Default for WavefrontScheduler {
    /// A scheduler for a device of 6.175 teraflops and rows of 2048 numbers.
    fn default() -> (s: WavefrontScheduler)
        ensures
            s.rows_per_slice == MAX_ROWS,
            s.slices_dispatched == 0,
            s.total_dispatch_ns == 0,
            s.cooperative_yield,
    {
        proof {
            slice_rows_is_the_next_power(1_507_568);
        }
        WavefrontScheduler::new(1_507_568)
    }
}

/// Where the slice that begins at `row` ends.
pub open spec fn slice_end(row: int, total: int, size: int) -> int {
    if total - row < size {
        total
    } else {
        row + size
    }
}

/// Slice `i` begins where the one before it ends, and has as many rows as fit.
pub open spec fn is_slice(
    r: Seq<(usize, usize)>,
    i: int,
    from: int,
    total: int,
    size: int,
) -> bool {
    &&& r[i].0 == if i == 0 {
        from
    } else {
        r[i - 1].1 as int
    }
    &&& r[i].0 < total
    &&& r[i].1 == slice_end(r[i].0 as int, total, size)
}

/// The slices are those of the rows from `from` on: each begins where the one
/// before it ends, and has as many rows as fit.
pub open spec fn are_slices(r: Seq<(usize, usize)>, from: int, total: int, size: int) -> bool {
    &&& forall|i: int| 0 <= i < r.len() ==> #[trigger] is_slice(r, i, from, total, size)
    &&& if r.len() == 0 {
        from >= total
    } else {
        r.last().1 == total
    }
}

impl WavefrontScheduler {
    /// A scheduler for a device on which `rows` rows fit into the time of a
    /// slice.
    pub fn new(rows: usize) -> (s: WavefrontScheduler)
        ensures
            s.rows_per_slice == slice_rows(rows as int),
            s.slices_dispatched == 0,
            s.total_dispatch_ns == 0,
            s.cooperative_yield,
            MIN_ROWS <= s.rows_per_slice <= MAX_ROWS,
    {
        let mut p: usize = MIN_ROWS;
        while p < rows && p < MAX_ROWS
            invariant
                0 < p <= MAX_ROWS,
                MIN_ROWS <= p,
                p < MAX_ROWS ==> p <= 2048,
                p == 32 || p == 64 || p == 128 || p == 256 || p == 512 || p == 1024 || p == 2048
                    || p == 4096,
                slice_rows(rows as int) == doubled_up_to(p as int, rows as int),
            decreases MAX_ROWS - p,
        {
            p = 2 * p;
        }
        WavefrontScheduler {
            rows_per_slice: p,
            slices_dispatched: 0,
            total_dispatch_ns: 0,
            cooperative_yield: true,
        }
    }

    /// The slices of a dispatch, in order.
    pub fn dispatch_sliced(&self, total_rows: usize) -> (r: Vec<(usize, usize)>)
        requires
            self.rows_per_slice > 0,
        ensures
            are_slices(r@, 0, total_rows as int, self.rows_per_slice as int),
    {
        let mut r: Vec<(usize, usize)> = Vec::new();
        let mut row: usize = 0;
        while row < total_rows
            invariant
                self.rows_per_slice > 0,
                row <= total_rows,
                r@.len() == 0 ==> row == 0,
                r@.len() > 0 ==> r@.last().1 == row,
                forall|i: int|
                    0 <= i < r@.len() ==> #[trigger] is_slice(
                        r@,
                        i,
                        0,
                        total_rows as int,
                        self.rows_per_slice as int,
                    ),
            decreases total_rows - row,
        {
            let end: usize = if total_rows - row < self.rows_per_slice {
                total_rows
            } else {
                row + self.rows_per_slice
            };
            let ghost before = r@;
            r.push((row, end));
            row = end;
            assert forall|i: int| 0 <= i < r@.len() implies #[trigger] is_slice(
                r@,
                i,
                0,
                total_rows as int,
                self.rows_per_slice as int,
            ) by {
                if i < before.len() {
                    assert(is_slice(
                        before,
                        i,
                        0,
                        total_rows as int,
                        self.rows_per_slice as int,
                    ));
                }
            }
        }
        r
    }

    /// Counts a slice that took `elapsed_ns`, and says whether others get a turn
    /// now. The counters wrap around.
    pub fn record_slice(&mut self, end: usize, total_rows: usize, elapsed_ns: u64) -> (turn: bool)
        ensures
            final(self).slices_dispatched == (old(self).slices_dispatched + 1) % 0x1_0000_0000_0000_0000,
            final(self).total_dispatch_ns == (old(self).total_dispatch_ns + elapsed_ns)
                % 0x1_0000_0000_0000_0000,
            final(self).rows_per_slice == old(self).rows_per_slice,
            final(self).cooperative_yield == old(self).cooperative_yield,
            turn == (old(self).cooperative_yield && end < total_rows),
    {
        self.slices_dispatched = self.slices_dispatched.wrapping_add(1);
        self.total_dispatch_ns = self.total_dispatch_ns.wrapping_add(elapsed_ns);
        self.cooperative_yield && end < total_rows
    }
}

/// Every row is in one slice, and no slice has more rows than allowed.
pub proof fn slices_cover_all_rows(r: Seq<(usize, usize)>, total: int, size: int, row: int)
    requires
        are_slices(r, 0, total, size),
        size > 0,
        0 <= row < total,
    ensures
        exists|i: int| 0 <= i < r.len() && (#[trigger] r[i]).0 <= row < r[i].1,
        forall|i: int, j: int|
            0 <= i < j < r.len() ==> (#[trigger] r[i]).1 <= (#[trigger] r[j]).0,
        forall|i: int| 0 <= i < r.len() ==> (#[trigger] r[i]).1 - r[i].0 <= size,
{
    assert forall|i: int| 0 <= i < r.len() implies (#[trigger] r[i]).1 - r[i].0 <= size by {
        assert(is_slice(r, i, 0, total, size));
    }
    assert(r.len() > 0);
    assert forall|i: int, j: int| 0 <= i < j < r.len() implies (#[trigger] r[i]).1 <= (
    #[trigger] r[j]).0 by {
        slices_follow(r, total, size, i, j);
    }
    row_is_found(r, total, size, row, r.len() - 1);
}

proof fn slices_follow(r: Seq<(usize, usize)>, total: int, size: int, i: int, j: int)
    requires
        are_slices(r, 0, total, size),
        size > 0,
        0 <= i < j < r.len(),
    ensures
        r[i].1 <= r[j].0,
    decreases j - i,
{
    assert(is_slice(r, j, 0, total, size));
    assert(is_slice(r, j - 1, 0, total, size));
    if i + 1 < j {
        slices_follow(r, total, size, i, j - 1);
    }
}

proof fn row_is_found(r: Seq<(usize, usize)>, total: int, size: int, row: int, k: int)
    requires
        are_slices(r, 0, total, size),
        size > 0,
        0 <= row < total,
        0 <= k < r.len(),
        row < r[k].1,
    ensures
        exists|i: int| 0 <= i < r.len() && (#[trigger] r[i]).0 <= row < r[i].1,
    decreases k,
{
    assert(is_slice(r, k, 0, total, size));
    if row >= r[k].0 {
        assert(r[k].0 <= row < r[k].1);
    } else if k > 0 {
        row_is_found(r, total, size, row, k - 1);
    }
}

} // verus!
