//! Row intervals of the pages of a columnar file, computed from page
//! locations in a page index, and the selection of intervals for the pages a
//! reader wants.

use vstd::prelude::*;

verus! {

/// What a page index records of one page: its byte position and size, and
/// the index of its first row.
#[derive(Clone, Copy, Debug, PartialEq, Eq, Structural)]
pub struct PageLocation {
    /// Byte offset of the page in the file.
    pub offset: i64,
    /// Compressed size of the page in bytes.
    pub compressed_page_size: i32,
    /// Index of the first row of the page.
    pub first_row_index: i64,
}

/// An interval
#[derive(Clone, Copy, Debug, PartialEq, Eq, Structural)]
pub struct Interval {
    /// Its start
    pub start: usize,
    /// Its length
    pub length: usize,
}

impl Interval {
    /// Create a new interval
    pub fn new(start: usize, length: usize) -> (r: Self)
        ensures
            r.start == start,
            r.length == length,
    {
        Self { start, length }
    }
}

/// How computing intervals can fail: a start behind the previous page or
/// past the row count, or a value that does not fit the machine's sizes.
#[derive(Clone, Copy, Debug, PartialEq, Eq, Structural)]
pub enum IntervalError {
    OutOfSpec,
    OutOfRange,
}

/// The first row index of page `k`, as a mathematical integer.
pub open spec fn first_row(locs: Seq<PageLocation>, k: int) -> int {
    locs[k].first_row_index as int
}

/// Page `k`'s start converts to a size.
pub open spec fn start_ok(locs: Seq<PageLocation>, k: int) -> bool {
    0 <= first_row(locs, k) <= usize::MAX
}

/// The length of page `k` (from the next page's start) is computable and
/// converts to a size.
pub open spec fn window_ok(locs: Seq<PageLocation>, k: int) -> bool {
    let d = first_row(locs, k + 1) - first_row(locs, k);
    &&& -0x8000_0000_0000_0000 <= d <= 0x7fff_ffff_ffff_ffff
    &&& 0 <= d <= usize::MAX
}

/// All page locations produce intervals: starts convert, lengths are
/// non-negative and convert, and the last page starts within the row count.
pub open spec fn intervals_ok(locs: Seq<PageLocation>, num_rows: int) -> bool {
    locs.len() == 0 || {
        &&& (forall|k: int| 0 <= k < locs.len() - 1 ==> #[trigger] start_ok(locs, k))
        &&& (forall|k: int| 0 <= k < locs.len() - 1 ==> #[trigger] window_ok(locs, k))
        &&& start_ok(locs, locs.len() - 1)
        &&& first_row(locs, locs.len() - 1) <= num_rows
    }
}

/// The interval of each page: from its first row to the next page's first
/// row, and for the last page to the end of the rows.
pub open spec fn page_intervals_spec(locs: Seq<PageLocation>, num_rows: int) -> Seq<Interval> {
    Seq::new(locs.len(), |k: int| Interval {
        start: first_row(locs, k) as usize,
        length: (if k + 1 < locs.len() {
            first_row(locs, k + 1) - first_row(locs, k)
        } else {
            num_rows - first_row(locs, k)
        }) as usize,
    })
}

/// Returns the set of (row) intervals of the pages.
/// # Errors
/// This function errors if the locations are not castable to `usize` or such
/// that their ranges of row are larger than `num_rows`.
pub fn compute_page_row_intervals(
    locations: &Vec<PageLocation>,
    num_rows: usize,
) -> (r: Result<Vec<Interval>, IntervalError>)
    ensures
        r is Ok <==> intervals_ok(locations@, num_rows as int),
        r is Ok ==> r->Ok_0@ == page_intervals_spec(locations@, num_rows as int),
{
    let n = locations.len();
    if n == 0 {
        proof {
            assert(Seq::<Interval>::empty() =~= page_intervals_spec(locations@, num_rows as int));
        }
        return Result::Ok(Vec::new());
    }
    let mut r: Vec<Interval> = Vec::new();
    let mut k: usize = 0;
    while k < n - 1
        invariant
            n == locations@.len(),
            n >= 1,
            k <= n - 1,
            r@.len() == k,
            forall|m: int| 0 <= m < k ==> #[trigger] start_ok(locations@, m),
            forall|m: int| 0 <= m < k ==> #[trigger] window_ok(locations@, m),
            forall|m: int| 0 <= m < k
                ==> #[trigger] r@[m] == page_intervals_spec(locations@, num_rows as int)[m],
        decreases n - k,
    {
        let a = locations[k].first_row_index;
        let b = locations[k + 1].first_row_index;
        if a < 0 || (a as u64) > (usize::MAX as u64) {
            proof {
                assert(!start_ok(locations@, k as int));
            }
            return Result::Err(IntervalError::OutOfRange);
        }
        let d = (b as i128) - (a as i128);
        if d < (i64::MIN as i128) || d > (i64::MAX as i128) {
            proof {
                assert(start_ok(locations@, k as int));
                assert(!window_ok(locations@, k as int));
            }
            return Result::Err(IntervalError::OutOfSpec);
        }
        if d < 0 || d > (usize::MAX as i128) {
            proof {
                assert(start_ok(locations@, k as int));
                assert(!window_ok(locations@, k as int));
            }
            return Result::Err(IntervalError::OutOfRange);
        }
        proof {
            assert(start_ok(locations@, k as int));
            assert(window_ok(locations@, k as int));
        }
        r.push(Interval { start: a as usize, length: d as usize });
        k += 1;
    }
    let last = locations[n - 1].first_row_index;
    if last < 0 || (last as u64) > (usize::MAX as u64) {
        proof {
            assert(!start_ok(locations@, n as int - 1));
        }
        return Result::Err(IntervalError::OutOfRange);
    }
    let start = last as usize;
    if start > num_rows {
        return Result::Err(IntervalError::OutOfSpec);
    }
    r.push(Interval { start, length: num_rows - start });
    proof {
        assert(r@ =~= page_intervals_spec(locations@, num_rows as int));
    }
    Result::Ok(r)
}

/// The intervals of the pages marked as selected, in page order; pages
/// beyond the shorter of the two lists are ignored.
pub open spec fn selected_intervals(sel: Seq<bool>, pages: Seq<Interval>, n: int) -> Seq<Interval>
    decreases n,
{
    if n <= 0 {
        Seq::empty()
    } else {
        selected_intervals(sel, pages, n - 1)
            + if sel[n - 1] { seq![pages[n - 1]] } else { Seq::empty() }
    }
}

/// Returns the set of intervals `(start, len)` containing all the
/// selected rows (for a given column)
pub fn compute_rows(
    selected: &Vec<bool>,
    locations: &Vec<PageLocation>,
    num_rows: usize,
) -> (r: Result<Vec<Interval>, IntervalError>)
    ensures
        r is Ok <==> intervals_ok(locations@, num_rows as int),
        r is Ok ==> r->Ok_0@ == selected_intervals(
            selected@,
            page_intervals_spec(locations@, num_rows as int),
            if selected@.len() <= locations@.len() { selected@.len() as int } else { locations@.len() as int },
        ),
{
    let page_intervals = match compute_page_row_intervals(locations, num_rows) {
        Result::Ok(v) => v,
        Result::Err(e) => {
            return Result::Err(e);
        },
    };
    let n = if selected.len() <= page_intervals.len() { selected.len() } else { page_intervals.len() };
    let mut r: Vec<Interval> = Vec::new();
    let mut k: usize = 0;
    while k < n
        invariant
            n <= selected@.len(),
            n <= page_intervals@.len(),
            k <= n,
            r@ == selected_intervals(selected@, page_intervals@, k as int),
        decreases n - k,
    {
        if selected[k] {
            r.push(page_intervals[k]);
        }
        proof {
            assert(r@ =~= selected_intervals(selected@, page_intervals@, k as int + 1));
        }
        k += 1;
    }
    Result::Ok(r)
}

} // verus!
