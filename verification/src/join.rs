//! The IE-Join driver: validate the selected columns, concatenate the two
//! axes, sort them, run the kernel, and slice the resulting row-index pairs.

use vstd::prelude::*;

use crate::bitarray::FilteredBitArray;
use crate::l1::{build_l1_array, l1_descending, l1_of, l2_descending, lemma_l1_facts, pairs_of};
use crate::l2::{
    all_pairs_bounded, kernel_pairs, lemma_ns_pairs_bounds, lemma_strict_pairs_bounds,
    pair_in_bounds, pair_seq_prefix, traverse_l2_array_non_strict, traverse_l2_strict,
};
use crate::ops::{IEJoinOptions, InequalityOperator};
use crate::sortperm::{
    arg_sort, gather_values, keep_some, lex_sorted, non_null_order, perm_bounds, sort_perm_spec,
};

verus! {

/// How an inequality join can be refused: a side selected a number of
/// expressions other than two.
#[derive(Clone, Copy, Debug, PartialEq, Eq, Structural)]
pub enum IEJoinError {
    InvalidArityLeft,
    InvalidArityRight,
}

impl IEJoinError {
    /// The compute-error message reported for this failure.
    pub fn message(&self) -> (r: &'static str)
        ensures
            *self == IEJoinError::InvalidArityLeft
                ==> r@ == "IEJoin requires exactly two expressions from the left DataFrame"@,
            *self == IEJoinError::InvalidArityRight
                ==> r@ == "IEJoin requires exactly two expressions from the right DataFrame"@,
    {
        match self {
            IEJoinError::InvalidArityLeft => "IEJoin requires exactly two expressions from the left DataFrame",
            IEJoinError::InvalidArityRight => "IEJoin requires exactly two expressions from the right DataFrame",
        }
    }
}

/// The L1 order of `x`: the stable sort permutation for the direction chosen
/// from the first operator, nulls dropped.
pub open spec fn l1_order_spec(x: Seq<Option<i64>>, op1: InequalityOperator) -> Seq<usize> {
    keep_some(x, sort_perm_spec(x, l1_descending(op1)))
}

/// The concatenated y-values read in L1 order.
pub open spec fn y_ordered_spec(y: Seq<Option<i64>>, l1o: Seq<usize>) -> Seq<Option<i64>> {
    l1o.map_values(|u: usize| y[u as int])
}

/// The L2 order: positions into L1, stably sorted by the y-values read in L1
/// order, direction chosen from the second operator, nulls dropped.
pub open spec fn l2_order_spec(y_ord: Seq<Option<i64>>, op2: InequalityOperator) -> Seq<usize> {
    keep_some(y_ord, sort_perm_spec(y_ord, l2_descending(op2)))
}

/// The full, unsliced emission of the join on the four selected columns:
/// the deterministic sequence of (left row, right row) matches.
pub open spec fn iejoin_pairs_full(
    xl: Seq<Option<i64>>,
    yl: Seq<Option<i64>>,
    xr: Seq<Option<i64>>,
    yr: Seq<Option<i64>>,
    op1: InequalityOperator,
    op2: InequalityOperator,
) -> Seq<(int, int)> {
    let x = xl + xr;
    let y = yl + yr;
    let l1o = l1_order_spec(x, op1);
    let l1 = l1_of(x, l1o, xl.len() as int);
    let y_ord = y_ordered_spec(y, l1o);
    let l2o = l2_order_spec(y_ord, op2);
    kernel_pairs(l1, y_ord, l2o, op1, op2)
}

/// The window a slice request selects from `total` rows: a non-negative
/// offset counts from the front, a negative one from the back, and both the
/// start and the length are clamped to what is there.
pub open spec fn slice_window(total: int, offset: int, len: int) -> (int, int) {
    let start = if offset >= 0 {
        if offset <= total {
            offset
        } else {
            total
        }
    } else {
        if total + offset >= 0 {
            total + offset
        } else {
            0
        }
    };
    let length = if len <= total - start {
        len
    } else {
        total - start
    };
    (start, length)
}

/// The emission after an optional slice request.
pub open spec fn sliced_pairs(full: Seq<(int, int)>, slice: Option<(i64, usize)>) -> Seq<(int, int)> {
    match slice {
        Option::None => full,
        Option::Some((offset, len)) => {
            let w = slice_window(full.len() as int, offset as int, len as int);
            full.subrange(w.0, w.0 + w.1)
        },
    }
}

/// Concatenate two columns.
pub fn concat_columns(a: &Vec<Option<i64>>, b: &Vec<Option<i64>>) -> (r: Vec<Option<i64>>)
    requires
        a@.len() + b@.len() <= usize::MAX,
    ensures
        r@ == a@ + b@,
{
    let mut r: Vec<Option<i64>> = Vec::new();
    let mut k: usize = 0;
    while k < a.len()
        invariant
            k <= a@.len(),
            r@ == a@.subrange(0, k as int),
        decreases a@.len() - k,
    {
        r.push(a[k]);
        proof {
            assert(r@ =~= a@.subrange(0, k as int + 1));
        }
        k += 1;
    }
    let mut m: usize = 0;
    while m < b.len()
        invariant
            m <= b@.len(),
            r@ == a@.subrange(0, a@.len() as int) + b@.subrange(0, m as int),
        decreases b@.len() - m,
    {
        r.push(b[m]);
        proof {
            assert(r@ =~= a@.subrange(0, a@.len() as int) + b@.subrange(0, m as int + 1));
        }
        m += 1;
    }
    proof {
        assert(r@ =~= a@ + b@);
    }
    r
}

/// Copy the window `[start, start + length)` of an index vector.
fn slice_ids(v: &Vec<usize>, start: usize, length: usize) -> (r: Vec<usize>)
    requires
        start + length <= v@.len(),
    ensures
        r@ == v@.subrange(start as int, start as int + length as int),
{
    let n = v.len();
    let mut r: Vec<usize> = Vec::new();
    let mut k: usize = 0;
    while k < length
        invariant
            start + length <= v@.len(),
            n == v@.len(),
            k <= length,
            r@ == v@.subrange(start as int, start as int + k as int),
        decreases length - k,
    {
        r.push(v[start + k]);
        proof {
            assert(r@ =~= v@.subrange(start as int, start as int + k as int + 1));
        }
        k += 1;
    }
    r
}

/// Resolve a slice request against `total` rows.
fn compute_window(total: usize, offset: i64, length: usize) -> (w: (usize, usize))
    ensures
        w.0 as int == slice_window(total as int, offset as int, length as int).0,
        w.1 as int == slice_window(total as int, offset as int, length as int).1,
        w.0 + w.1 <= total,
{
    let start: usize = if offset >= 0 {
        if (offset as u64) <= (total as u64) {
            offset as usize
        } else {
            total
        }
    } else {
        let t = (total as i128) + (offset as i128);
        if t <= 0 {
            0
        } else {
            t as usize
        }
    };
    let window_len: usize = if length <= total - start {
        length
    } else {
        total - start
    };
    (start, window_len)
}

/// Run the kernel on prepared orders: build L1, then walk L2 with the
/// traversal matching the second operator, honouring the early-exit bound a
/// front slice allows.
pub fn ie_join_impl(
    slice: Option<(i64, usize)>,
    l1_order: &Vec<usize>,
    l2_order: &Vec<usize>,
    op1: InequalityOperator,
    op2: InequalityOperator,
    x: &Vec<Option<i64>>,
    y_ordered: &Vec<Option<i64>>,
    left_height: usize,
) -> (out: (Vec<usize>, Vec<usize>))
    requires
        x@.len() < 0x4000_0000_0000_0000,
        x@.len() <= usize::MAX / 2,
        left_height <= x@.len(),
        l1_order@.len() <= x@.len(),
        perm_bounds(l1_order@, x@.len() as int),
        forall|k: int| 0 <= k < l1_order@.len() ==> x@[#[trigger] l1_order@[k] as int] is Some,
        lex_sorted(x@, l1_order@, l1_descending(op1)),
        y_ordered@.len() == l1_order@.len(),
        perm_bounds(l2_order@, l1_order@.len() as int),
        forall|k: int| 0 <= k < l2_order@.len()
            ==> y_ordered@[#[trigger] l2_order@[k] as int] is Some,
    ensures
        out.0@.len() == out.1@.len(),
        ({
            let full = kernel_pairs(
                l1_of(x@, l1_order@, left_height as int), y_ordered@, l2_order@, op1, op2,
            );
            let ps = pairs_of(out.0@, out.1@);
            &&& pair_seq_prefix(ps, full)
            &&& match slice {
                Option::None => ps == full,
                Option::Some((offset, len)) =>
                    if offset >= 0 && offset as int + len as int <= u64::MAX as int {
                        ps == full || ps.len() >= offset as int + len as int
                    } else {
                        ps == full
                    },
            }
        }),
{
    let total = x.len();
    proof {
        assert(l1_order@.len() <= total as int);
    }
    let mut bit_array = FilteredBitArray::from_len_zeroed(l1_order.len());
    let mut left_row_idx: Vec<usize> = Vec::new();
    let mut right_row_idx: Vec<usize> = Vec::new();

    let mut slice_end: Option<u64> = None;
    if let Option::Some((offset, len)) = slice {
        if offset >= 0 {
            let off_u = offset as u64;
            let len_u = len as u64;
            if len_u <= u64::MAX - off_u {
                slice_end = Option::Some(off_u + len_u);
            }
        }
    }

    let l1 = build_l1_array(x, l1_order, left_height);
    let ghost n_left: int = left_height as int;
    let ghost n_right: int = x@.len() - left_height as int;
    proof {
        lemma_l1_facts(l1@, x@, l1_order@, n_left, n_right, l1_descending(op1));
        assert(l1@ == l1_of(x@, l1_order@, n_left));
    }

    if op2.is_strict() {
        traverse_l2_strict(
            &l1, l2_order, op1, slice_end, &mut bit_array, &mut left_row_idx, &mut right_row_idx,
            Ghost(n_left), Ghost(n_right),
        );
    } else {
        traverse_l2_array_non_strict(
            y_ordered, l2_order, &l1, op1, slice_end, &mut bit_array, &mut left_row_idx,
            &mut right_row_idx, Ghost(n_left), Ghost(n_right),
        );
    }
    (left_row_idx, right_row_idx)
}

/// Apply the optional slice request to the kernel output, which is a front
/// prefix of the full emission covering at least the requested window.
fn apply_slice(
    left_row_idx: Vec<usize>,
    right_row_idx: Vec<usize>,
    slice: Option<(i64, usize)>,
    Ghost(full): Ghost<Seq<(int, int)>>,
    Ghost(n_left): Ghost<int>,
    Ghost(n_right): Ghost<int>,
) -> (r: (Vec<usize>, Vec<usize>))
    requires
        left_row_idx@.len() == right_row_idx@.len(),
        pair_seq_prefix(pairs_of(left_row_idx@, right_row_idx@), full),
        all_pairs_bounded(full, n_left, n_right),
        match slice {
            Option::None => pairs_of(left_row_idx@, right_row_idx@) == full,
            Option::Some((offset, len)) =>
                if offset >= 0 && offset as int + len as int <= u64::MAX as int {
                    pairs_of(left_row_idx@, right_row_idx@) == full
                        || pairs_of(left_row_idx@, right_row_idx@).len() >= offset as int + len as int
                } else {
                    pairs_of(left_row_idx@, right_row_idx@) == full
                },
        },
    ensures
        r.0@.len() == r.1@.len(),
        pairs_of(r.0@, r.1@) == sliced_pairs(full, slice),
        forall|k: int| 0 <= k < r.0@.len() ==> ((#[trigger] r.0@[k]) as int) < n_left,
        forall|k: int| 0 <= k < r.1@.len() ==> ((#[trigger] r.1@[k]) as int) < n_right,
{
    let ghost ps = pairs_of(left_row_idx@, right_row_idx@);
    match slice {
        Option::None => {
            let count = left_row_idx.len();
            let lids = slice_ids(&left_row_idx, 0, count);
            let rids = slice_ids(&right_row_idx, 0, count);
            proof {
                assert(ps == full);
                assert(lids@ =~= left_row_idx@);
                assert(rids@ =~= right_row_idx@);
                assert(pairs_of(lids@, rids@) == sliced_pairs(full, slice));
                assert forall|k: int| 0 <= k < lids@.len()
                    implies ((#[trigger] lids@[k]) as int) < n_left by {
                    assert(ps[k] == (lids@[k] as int, rids@[k] as int));
                    assert(pair_in_bounds(full[k], n_left, n_right));
                }
                assert forall|k: int| 0 <= k < rids@.len()
                    implies ((#[trigger] rids@[k]) as int) < n_right by {
                    assert(ps[k] == (lids@[k] as int, rids@[k] as int));
                    assert(pair_in_bounds(full[k], n_left, n_right));
                }
            }
            (lids, rids)
        },
        Option::Some((offset, len)) => {
            let w = compute_window(left_row_idx.len(), offset, len);
            let lids = slice_ids(&left_row_idx, w.0, w.1);
            let rids = slice_ids(&right_row_idx, w.0, w.1);
            proof {
                let o = offset as int;
                let l = len as int;
                let t1 = ps.len() as int;
                let t2 = full.len() as int;
                let w1 = slice_window(t1, o, l);
                let w2 = slice_window(t2, o, l);
                if ps == full {
                    assert(w1 == w2);
                } else {
                    // the kernel stopped early, but only past the requested end
                    assert(o >= 0 && o + l <= u64::MAX as int && ps.len() >= o + l);
                    assert(w1 == (o, l) && w2 == (o, l));
                }
                assert(pairs_of(lids@, rids@) =~= ps.subrange(w1.0, w1.0 + w1.1));
                assert(ps.subrange(w1.0, w1.0 + w1.1) =~= full.subrange(w2.0, w2.0 + w2.1));
                assert(pairs_of(lids@, rids@) == sliced_pairs(full, slice));
                assert forall|k: int| 0 <= k < lids@.len()
                    implies ((#[trigger] lids@[k]) as int) < n_left by {
                    let fk = w2.0 + k;
                    assert(pairs_of(lids@, rids@)[k] == full[fk]);
                    assert(pair_in_bounds(full[fk], n_left, n_right));
                }
                assert forall|k: int| 0 <= k < rids@.len()
                    implies ((#[trigger] rids@[k]) as int) < n_right by {
                    let fk = w2.0 + k;
                    assert(pairs_of(lids@, rids@)[k] == full[fk]);
                    assert(pair_in_bounds(full[fk], n_left, n_right));
                }
            }
            (lids, rids)
        },
    }
}

/// Inequality join. Matches rows between two tables using two inequality
/// operators (each one of `<`, `<=`, `>`, `>=`): row pair `(i, j)` matches
/// when `xl[i] op1 xr[j]` and `yl[i] op2 yr[j]`, both values being non-null.
/// Each side selects exactly two columns, `[x, y]`; anything else is refused.
/// Returns the matching row indices of the two tables as two parallel
/// vectors, after the optional slice request.
pub fn iejoin(
    selected_left: &Vec<Vec<Option<i64>>>,
    selected_right: &Vec<Vec<Option<i64>>>,
    options: &IEJoinOptions,
    slice: Option<(i64, usize)>,
) -> (r: Result<(Vec<usize>, Vec<usize>), IEJoinError>)
    requires
        selected_left@.len() == 2 ==> selected_left@[0]@.len() == selected_left@[1]@.len(),
        selected_right@.len() == 2 ==> selected_right@[0]@.len() == selected_right@[1]@.len(),
        selected_left@.len() == 2 && selected_right@.len() == 2 ==> {
            &&& selected_left@[0]@.len() + selected_right@[0]@.len() < 0x4000_0000_0000_0000
            &&& selected_left@[0]@.len() + selected_right@[0]@.len() <= usize::MAX / 2
        },
    ensures
        r is Err <==> (selected_left@.len() != 2 || selected_right@.len() != 2),
        selected_left@.len() != 2
            ==> r == Result::<(Vec<usize>, Vec<usize>), IEJoinError>::Err(IEJoinError::InvalidArityLeft),
        selected_left@.len() == 2 && selected_right@.len() != 2
            ==> r == Result::<(Vec<usize>, Vec<usize>), IEJoinError>::Err(IEJoinError::InvalidArityRight),
        r is Ok ==> ({
            let xl = selected_left@[0]@;
            let yl = selected_left@[1]@;
            let xr = selected_right@[0]@;
            let yr = selected_right@[1]@;
            let full = iejoin_pairs_full(xl, yl, xr, yr, options.operator1, options.operator2);
            let lids = r->Ok_0.0;
            let rids = r->Ok_0.1;
            &&& lids@.len() == rids@.len()
            &&& pairs_of(lids@, rids@) == sliced_pairs(full, slice)
            &&& forall|k: int| 0 <= k < lids@.len() ==> ((#[trigger] lids@[k]) as int) < xl.len()
            &&& forall|k: int| 0 <= k < rids@.len() ==> ((#[trigger] rids@[k]) as int) < xr.len()
        }),
{
    if selected_left.len() != 2 {
        return Result::Err(IEJoinError::InvalidArityLeft);
    }
    if selected_right.len() != 2 {
        return Result::Err(IEJoinError::InvalidArityRight);
    }
    let op1 = options.operator1;
    let op2 = options.operator2;

    // sort L1 so that `x[i] op1 x[j]` holds for j past the search start, and
    // L2 so that `y[i] op2 y[j]` holds for entries visited earlier
    let l1_desc = matches!(op1, InequalityOperator::Gt | InequalityOperator::GtEq);
    let l2_desc = matches!(op2, InequalityOperator::Lt | InequalityOperator::LtEq);
    proof {
        assert(l1_desc == l1_descending(op1));
        assert(l2_desc == l2_descending(op2));
    }

    let xl = &selected_left[0];
    let yl = &selected_left[1];
    let xr = &selected_right[0];
    let yr = &selected_right[1];
    let left_height = xl.len();

    let x = concat_columns(xl, xr);
    let y = concat_columns(yl, yr);

    let l1_sorted = arg_sort(&x, l1_desc);
    let l1_order = non_null_order(&x, &l1_sorted, l1_desc);
    let y_ordered = gather_values(&y, &l1_order);
    let l2_sorted = arg_sort(&y_ordered, l2_desc);
    let l2_order = non_null_order(&y_ordered, &l2_sorted, l2_desc);

    let ghost n_left: int = selected_left@[0]@.len() as int;
    let ghost n_right: int = selected_right@[0]@.len() as int;
    let ghost full = iejoin_pairs_full(xl@, yl@, xr@, yr@, op1, op2);
    let ghost l1 = l1_of(x@, l1_order@, n_left);
    proof {
        assert(n_left == left_height as int);
        assert(l1_order@ == l1_order_spec(x@, op1));
        assert(y_ordered@ =~= y_ordered_spec(y@, l1_order@));
        assert(l2_order@ == l2_order_spec(y_ordered@, op2));
        assert(full == kernel_pairs(l1, y_ordered@, l2_order@, op1, op2));
        lemma_l1_facts(l1, x@, l1_order@, n_left, n_right, l1_descending(op1));
        if crate::ops::is_strict_op(op2) {
            lemma_strict_pairs_bounds(l1, l2_order@, op1, l2_order@.len() as int, n_left, n_right);
        } else {
            lemma_ns_pairs_bounds(
                l1, y_ordered@, l2_order@, op1, l2_order@.len() as int, n_left, n_right,
            );
        }
        assert(all_pairs_bounded(full, n_left, n_right));
    }

    let out = ie_join_impl(slice, &l1_order, &l2_order, op1, op2, &x, &y_ordered, left_height);
    let sliced = apply_slice(out.0, out.1, slice, Ghost(full), Ghost(n_left), Ghost(n_right));
    Result::Ok(sliced)
}

} // verus!
