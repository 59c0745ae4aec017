//! The L2 walk: visiting L1 positions in y-sorted order, marking right-side
//! positions as visited and emitting matches for left-side positions.
//!
//! Two traversals exist: a strict one, which handles each L2 entry as it is
//! reached, and a run-aware one for non-strict second operators, which marks
//! a whole run of equal y-values as visited before emitting any of the run's
//! matches.

use vstd::prelude::*;

use crate::bitarray::FilteredBitArray;
use crate::l1::{
    eligible_bit, entry_pairs, entry_pairs_upto, find_matches_in_l1, l1_descending,
    l1_ids_valid, l1_left_before_right, l1_value_sorted, pairs_of, L1Item,
};
use crate::ops::{is_strict_op, op_holds, InequalityOperator};
use crate::sortperm::perm_bounds;

verus! {

/// Every set bit marks a right-side entry.
pub open spec fn bits_all_right(l1: Seq<L1Item>, bits: Seq<bool>) -> bool {
    forall|b: int| 0 <= b < bits.len() && bits[b] ==> (#[trigger] l1[b]).row_index < 0
}

/// The visited bits after the first `t` L2 entries have been reached:
/// right-side positions among them are set.
pub open spec fn bits_after(l1: Seq<L1Item>, l2: Seq<usize>, t: int) -> Seq<bool>
    decreases t,
{
    if t <= 0 {
        Seq::new(l1.len(), |i: int| false)
    } else {
        let prev = bits_after(l1, l2, t - 1);
        let p = l2[t - 1] as int;
        if l1[p].row_index < 0 {
            prev.update(p, true)
        } else {
            prev
        }
    }
}

/// The matches emitted by the strict traversal after `t` L2 entries: each
/// left-side entry emits against the bits its predecessors left behind.
pub open spec fn strict_pairs(l1: Seq<L1Item>, l2: Seq<usize>, op1: InequalityOperator, t: int) -> Seq<(int, int)>
    decreases t,
{
    if t <= 0 {
        Seq::empty()
    } else {
        strict_pairs(l1, l2, op1, t - 1)
            + if l1[l2[t - 1] as int].row_index > 0 {
                entry_pairs(l1, bits_after(l1, l2, t - 1), l2[t - 1] as int, op1)
            } else {
                Seq::empty()
            }
    }
}

/// The L2 position just past the run of equal y-values containing position
/// `j`: where that run's matches are flushed.
pub open spec fn flush_point(y: Seq<Option<i64>>, l2: Seq<usize>, j: int) -> int
    decreases l2.len() - j,
{
    if j < 0 || j + 1 >= l2.len() {
        j + 1
    } else if y[l2[j + 1] as int] == y[l2[j] as int] {
        flush_point(y, l2, j + 1)
    } else {
        j + 1
    }
}

/// The matches emitted by the non-strict traversal for the first `t` L2
/// entries: each left-side entry emits against the bits present when its
/// whole run has been marked.
pub open spec fn ns_pairs(l1: Seq<L1Item>, y: Seq<Option<i64>>, l2: Seq<usize>, op1: InequalityOperator, t: int) -> Seq<(int, int)>
    decreases t,
{
    if t <= 0 {
        Seq::empty()
    } else {
        ns_pairs(l1, y, l2, op1, t - 1)
            + if l1[l2[t - 1] as int].row_index > 0 {
                entry_pairs(l1, bits_after(l1, l2, flush_point(y, l2, t - 1)), l2[t - 1] as int, op1)
            } else {
                Seq::empty()
            }
    }
}

/// `a` is a prefix of `b`.
pub open spec fn pair_seq_prefix(a: Seq<(int, int)>, b: Seq<(int, int)>) -> bool {
    a.len() <= b.len() && forall|k: int| 0 <= k < a.len() ==> a[k] == b[k]
}

/// The full emission of the kernel, strict or run-aware by the second
/// operator.
pub open spec fn kernel_pairs(l1: Seq<L1Item>, y_ord: Seq<Option<i64>>, l2: Seq<usize>, op1: InequalityOperator, op2: InequalityOperator) -> Seq<(int, int)> {
    if is_strict_op(op2) {
        strict_pairs(l1, l2, op1, l2.len() as int)
    } else {
        ns_pairs(l1, y_ord, l2, op1, l2.len() as int)
    }
}

/// One emitted pair addresses a left row below `n_left` and a right row
/// below `n_right`.
pub open spec fn pair_in_bounds(p: (int, int), n_left: int, n_right: int) -> bool {
    0 <= p.0 < n_left && 0 <= p.1 < n_right
}

/// Every pair of the sequence is in bounds.
pub open spec fn all_pairs_bounded(ps: Seq<(int, int)>, n_left: int, n_right: int) -> bool {
    forall|k: int| 0 <= k < ps.len() ==> pair_in_bounds(#[trigger] ps[k], n_left, n_right)
}

/// The bits left by any walk prefix mark right-side entries only.
pub proof fn lemma_bits_after_right(l1: Seq<L1Item>, l2: Seq<usize>, t: int)
    requires
        perm_bounds(l2, l1.len() as int),
        t <= l2.len(),
    ensures
        bits_after(l1, l2, t).len() == l1.len(),
        bits_all_right(l1, bits_after(l1, l2, t)),
    decreases t,
{
    if t > 0 {
        lemma_bits_after_right(l1, l2, t - 1);
    }
}

/// Matches emitted for one left entry decode to rows of the two tables.
proof fn lemma_entry_pairs_bounds(l1: Seq<L1Item>, bits: Seq<bool>, i: int, op1: InequalityOperator, n_left: int, n_right: int, n: int)
    requires
        l1_ids_valid(l1, n_left, n_right),
        bits.len() == l1.len(),
        bits_all_right(l1, bits),
        0 <= i < l1.len(),
        l1[i].row_index > 0,
        n <= l1.len(),
    ensures
        all_pairs_bounded(entry_pairs_upto(l1, bits, i, op1, n), n_left, n_right),
    decreases n,
{
    if n > 0 {
        lemma_entry_pairs_bounds(l1, bits, i, op1, n_left, n_right, n - 1);
    }
}

/// Matches emitted by the strict walk decode to rows of the two tables.
pub proof fn lemma_strict_pairs_bounds(l1: Seq<L1Item>, l2: Seq<usize>, op1: InequalityOperator, t: int, n_left: int, n_right: int)
    requires
        l1_ids_valid(l1, n_left, n_right),
        perm_bounds(l2, l1.len() as int),
        t <= l2.len(),
    ensures
        all_pairs_bounded(strict_pairs(l1, l2, op1, t), n_left, n_right),
    decreases t,
{
    if t > 0 {
        lemma_strict_pairs_bounds(l1, l2, op1, t - 1, n_left, n_right);
        let p = l2[t - 1] as int;
        if l1[p].row_index > 0 {
            lemma_bits_after_right(l1, l2, t - 1);
            lemma_entry_pairs_bounds(
                l1, bits_after(l1, l2, t - 1), p, op1, n_left, n_right, l1.len() as int,
            );
        }
    }
}

/// A flush point lies between its position and the end of L2.
pub proof fn lemma_flush_point_range(y: Seq<Option<i64>>, l2: Seq<usize>, j: int)
    requires
        0 <= j < l2.len(),
    ensures
        j < flush_point(y, l2, j) <= l2.len(),
    decreases l2.len() - j,
{
    if j + 1 < l2.len() && y[l2[j + 1] as int] == y[l2[j] as int] {
        lemma_flush_point_range(y, l2, j + 1);
    }
}

/// Matches emitted by the run-aware walk decode to rows of the two tables.
pub proof fn lemma_ns_pairs_bounds(l1: Seq<L1Item>, y: Seq<Option<i64>>, l2: Seq<usize>, op1: InequalityOperator, t: int, n_left: int, n_right: int)
    requires
        l1_ids_valid(l1, n_left, n_right),
        perm_bounds(l2, l1.len() as int),
        t <= l2.len(),
    ensures
        all_pairs_bounded(ns_pairs(l1, y, l2, op1, t), n_left, n_right),
    decreases t,
{
    if t > 0 {
        lemma_ns_pairs_bounds(l1, y, l2, op1, t - 1, n_left, n_right);
        let p = l2[t - 1] as int;
        if l1[p].row_index > 0 {
            lemma_flush_point_range(y, l2, t - 1);
            lemma_bits_after_right(l1, l2, flush_point(y, l2, t - 1));
            lemma_entry_pairs_bounds(
                l1, bits_after(l1, l2, flush_point(y, l2, t - 1)), p, op1, n_left, n_right,
                l1.len() as int,
            );
        }
    }
}

/// The strict emission only grows as the walk advances.
pub proof fn lemma_strict_pairs_prefix(l1: Seq<L1Item>, l2: Seq<usize>, op1: InequalityOperator, t1: int, t2: int)
    requires
        t1 <= t2,
    ensures
        pair_seq_prefix(strict_pairs(l1, l2, op1, t1), strict_pairs(l1, l2, op1, t2)),
    decreases t2 - t1,
{
    if t1 < t2 {
        lemma_strict_pairs_prefix(l1, l2, op1, t1, t2 - 1);
    }
}

/// The run-aware emission only grows as the walk advances.
pub proof fn lemma_ns_pairs_prefix(l1: Seq<L1Item>, y: Seq<Option<i64>>, l2: Seq<usize>, op1: InequalityOperator, t1: int, t2: int)
    requires
        t1 <= t2,
    ensures
        pair_seq_prefix(ns_pairs(l1, y, l2, op1, t1), ns_pairs(l1, y, l2, op1, t2)),
    decreases t2 - t1,
{
    if t1 < t2 {
        lemma_ns_pairs_prefix(l1, y, l2, op1, t1, t2 - 1);
    }
}

/// A run of equal y-values that ends just before `e` flushes at `e`.
pub proof fn lemma_flush_point_run(y: Seq<Option<i64>>, l2: Seq<usize>, j: int, e: int)
    requires
        0 <= j < e <= l2.len(),
        forall|m: int| j <= m < e ==> y[#[trigger] l2[m] as int] == y[l2[j] as int],
        e == l2.len() || y[l2[e] as int] != y[l2[e - 1] as int],
    ensures
        flush_point(y, l2, j) == e,
    decreases e - j,
{
    if j + 1 < e {
        assert(y[l2[j + 1] as int] == y[l2[j] as int]);
        lemma_flush_point_run(y, l2, j + 1, e);
    }
}

/// A left entry never finds an eligible visited position before itself:
/// visited positions are right-side, and sorting places any right entry with
/// a satisfying value at or after the left entry.
pub proof fn lemma_no_eligible_before(l1: Seq<L1Item>, bits: Seq<bool>, i: int, op1: InequalityOperator)
    requires
        l1_value_sorted(l1, l1_descending(op1)),
        l1_left_before_right(l1),
        0 <= i < l1.len(),
        l1[i].row_index > 0,
        bits.len() == l1.len(),
        bits_all_right(l1, bits),
    ensures
        forall|b: int| 0 <= b < i ==> !eligible_bit(l1, bits, i, op1, b),
{
    assert forall|b: int| 0 <= b < i implies !eligible_bit(l1, bits, i, op1, b) by {
        if bits[b] && op_holds(op1, l1[i].value as int, l1[b].value as int) {
            assert(l1[b].row_index < 0);
            // sortedness pins the order of the two values
            assert(if l1_descending(op1) { l1[b].value >= l1[i].value } else { l1[b].value <= l1[i].value });
            // so the operator can hold only on equal values, where stability
            // puts the left entry first
            assert(l1[b].value == l1[i].value);
            assert(l1[i].row_index < 0);
        }
    }
}

/// Handle the L2 entry at L1 position `l1_index`: a left entry emits its
/// matches against the currently visited positions, a right entry becomes
/// visited.
pub fn process_entry(
    l1: &Vec<L1Item>,
    l1_index: usize,
    bit_array: &mut FilteredBitArray,
    op1: InequalityOperator,
    left_row_ids: &mut Vec<usize>,
    right_row_ids: &mut Vec<usize>,
    Ghost(n_left): Ghost<int>,
    Ghost(n_right): Ghost<int>,
)
    requires
        l1_value_sorted(l1@, l1_descending(op1)),
        l1_left_before_right(l1@),
        l1_ids_valid(l1@, n_left, n_right),
        0 <= n_left <= 0x4000_0000_0000_0000,
        0 <= n_right <= 0x4000_0000_0000_0000,
        n_left <= usize::MAX,
        n_right <= usize::MAX,
        l1_index < l1@.len(),
        old(bit_array).wf(),
        old(bit_array)@.len() == l1@.len(),
        bits_all_right(l1@, old(bit_array)@),
        old(left_row_ids)@.len() == old(right_row_ids)@.len(),
    ensures
        final(bit_array).wf(),
        final(bit_array)@.len() == l1@.len(),
        bits_all_right(l1@, final(bit_array)@),
        final(left_row_ids)@.len() == final(right_row_ids)@.len(),
        l1@[l1_index as int].row_index > 0 ==> {
            &&& final(bit_array)@ == old(bit_array)@
            &&& pairs_of(final(left_row_ids)@, final(right_row_ids)@)
                == pairs_of(old(left_row_ids)@, old(right_row_ids)@)
                   + entry_pairs(l1@, old(bit_array)@, l1_index as int, op1)
        },
        l1@[l1_index as int].row_index < 0 ==> {
            &&& final(bit_array)@ == old(bit_array)@.update(l1_index as int, true)
            &&& final(left_row_ids)@ == old(left_row_ids)@
            &&& final(right_row_ids)@ == old(right_row_ids)@
        },
{
    let row_index = l1[l1_index].row_index;
    if row_index > 0 {
        proof {
            lemma_no_eligible_before(l1@, bit_array@, l1_index as int, op1);
        }
        find_matches_in_l1(
            l1, l1_index, row_index, bit_array, op1, left_row_ids, right_row_ids,
            Ghost(n_left), Ghost(n_right),
        );
    } else {
        bit_array.set_bit(l1_index);
    }
}

/// Emit the matches of a left entry; a right entry is left untouched (its
/// bit was set when its run was marked).
pub fn process_lhs_entry(
    l1: &Vec<L1Item>,
    l1_index: usize,
    bit_array: &FilteredBitArray,
    op1: InequalityOperator,
    left_row_ids: &mut Vec<usize>,
    right_row_ids: &mut Vec<usize>,
    Ghost(n_left): Ghost<int>,
    Ghost(n_right): Ghost<int>,
)
    requires
        l1_value_sorted(l1@, l1_descending(op1)),
        l1_left_before_right(l1@),
        l1_ids_valid(l1@, n_left, n_right),
        0 <= n_left <= 0x4000_0000_0000_0000,
        0 <= n_right <= 0x4000_0000_0000_0000,
        n_left <= usize::MAX,
        n_right <= usize::MAX,
        l1_index < l1@.len(),
        bit_array.wf(),
        bit_array@.len() == l1@.len(),
        bits_all_right(l1@, bit_array@),
        old(left_row_ids)@.len() == old(right_row_ids)@.len(),
    ensures
        final(left_row_ids)@.len() == final(right_row_ids)@.len(),
        pairs_of(final(left_row_ids)@, final(right_row_ids)@)
            == pairs_of(old(left_row_ids)@, old(right_row_ids)@)
               + if l1@[l1_index as int].row_index > 0 {
                   entry_pairs(l1@, bit_array@, l1_index as int, op1)
               } else {
                   Seq::<(int, int)>::empty()
               },
{
    let row_index = l1[l1_index].row_index;
    if row_index > 0 {
        proof {
            lemma_no_eligible_before(l1@, bit_array@, l1_index as int, op1);
        }
        find_matches_in_l1(
            l1, l1_index, row_index, bit_array, op1, left_row_ids, right_row_ids,
            Ghost(n_left), Ghost(n_right),
        );
    } else {
        proof {
            assert(pairs_of(left_row_ids@, right_row_ids@)
                =~= pairs_of(left_row_ids@, right_row_ids@) + Seq::<(int, int)>::empty());
        }
    }
}

/// Mark a right entry as visited; left entries never set a bit.
pub fn mark_visited(l1: &Vec<L1Item>, index: usize, bit_array: &mut FilteredBitArray)
    requires
        index < l1@.len(),
        l1@[index as int].row_index != 0,
        old(bit_array).wf(),
        old(bit_array)@.len() == l1@.len(),
    ensures
        final(bit_array).wf(),
        final(bit_array)@.len() == l1@.len(),
        final(bit_array)@ == if l1@[index as int].row_index < 0 {
            old(bit_array)@.update(index as int, true)
        } else {
            old(bit_array)@
        },
{
    let from_lhs = l1[index].row_index > 0;
    if !from_lhs {
        bit_array.set_bit(index);
    }
}

/// Walk L2 in order for a strict second operator: each entry is handled as
/// it is reached. Stops early once the requested match count is reached.
pub fn traverse_l2_strict(
    l1: &Vec<L1Item>,
    l2_order: &Vec<usize>,
    op1: InequalityOperator,
    slice_end: Option<u64>,
    bit_array: &mut FilteredBitArray,
    left_row_idx: &mut Vec<usize>,
    right_row_idx: &mut Vec<usize>,
    Ghost(n_left): Ghost<int>,
    Ghost(n_right): Ghost<int>,
)
    requires
        l1_value_sorted(l1@, l1_descending(op1)),
        l1_left_before_right(l1@),
        l1_ids_valid(l1@, n_left, n_right),
        0 <= n_left <= 0x4000_0000_0000_0000,
        0 <= n_right <= 0x4000_0000_0000_0000,
        n_left <= usize::MAX,
        n_right <= usize::MAX,
        perm_bounds(l2_order@, l1@.len() as int),
        old(bit_array).wf(),
        old(bit_array)@.len() == l1@.len(),
        forall|b: int| 0 <= b < old(bit_array)@.len() ==> !old(bit_array)@[b],
        old(left_row_idx)@.len() == 0,
        old(right_row_idx)@.len() == 0,
    ensures
        final(left_row_idx)@.len() == final(right_row_idx)@.len(),
        pair_seq_prefix(
            pairs_of(final(left_row_idx)@, final(right_row_idx)@),
            strict_pairs(l1@, l2_order@, op1, l2_order@.len() as int),
        ),
        match slice_end {
            Option::None => pairs_of(final(left_row_idx)@, final(right_row_idx)@)
                == strict_pairs(l1@, l2_order@, op1, l2_order@.len() as int),
            Option::Some(e) => pairs_of(final(left_row_idx)@, final(right_row_idx)@)
                    == strict_pairs(l1@, l2_order@, op1, l2_order@.len() as int)
                || final(left_row_idx)@.len() >= e,
        },
{
    let n2 = l2_order.len();
    proof {
        assert(bit_array@ =~= bits_after(l1@, l2_order@, 0));
    }
    let mut t: usize = 0;
    while t < n2
        invariant_except_break
            l1_value_sorted(l1@, l1_descending(op1)),
            l1_left_before_right(l1@),
            l1_ids_valid(l1@, n_left, n_right),
            0 <= n_left <= 0x4000_0000_0000_0000,
            0 <= n_right <= 0x4000_0000_0000_0000,
            n_left <= usize::MAX,
            n_right <= usize::MAX,
            perm_bounds(l2_order@, l1@.len() as int),
            n2 == l2_order@.len(),
            t <= n2,
            bit_array.wf(),
            bit_array@.len() == l1@.len(),
            bits_all_right(l1@, bit_array@),
            bit_array@ == bits_after(l1@, l2_order@, t as int),
            left_row_idx@.len() == right_row_idx@.len(),
            pairs_of(left_row_idx@, right_row_idx@)
                == strict_pairs(l1@, l2_order@, op1, t as int),
        ensures
            left_row_idx@.len() == right_row_idx@.len(),
            pair_seq_prefix(
                pairs_of(left_row_idx@, right_row_idx@),
                strict_pairs(l1@, l2_order@, op1, n2 as int),
            ),
            match slice_end {
                Option::None => pairs_of(left_row_idx@, right_row_idx@)
                    == strict_pairs(l1@, l2_order@, op1, n2 as int),
                Option::Some(e) => pairs_of(left_row_idx@, right_row_idx@)
                        == strict_pairs(l1@, l2_order@, op1, n2 as int)
                    || left_row_idx@.len() >= e,
            },
        decreases n2 - t,
    {
        let p = l2_order[t];
        let ghost prev_bits = bit_array@;
        let ghost prev_pairs = pairs_of(left_row_idx@, right_row_idx@);
        process_entry(
            l1, p, bit_array, op1, left_row_idx, right_row_idx,
            Ghost(n_left), Ghost(n_right),
        );
        proof {
            if l1@[p as int].row_index > 0 {
                assert(bit_array@ =~= bits_after(l1@, l2_order@, t as int + 1));
            } else {
                assert(bit_array@ =~= bits_after(l1@, l2_order@, t as int + 1));
                assert(pairs_of(left_row_idx@, right_row_idx@)
                    =~= strict_pairs(l1@, l2_order@, op1, t as int + 1));
            }
            assert(pairs_of(left_row_idx@, right_row_idx@)
                =~= strict_pairs(l1@, l2_order@, op1, t as int + 1));
        }
        t += 1;
        if let Option::Some(e) = slice_end {
            if left_row_idx.len() as u64 >= e {
                proof {
                    lemma_strict_pairs_prefix(l1@, l2_order@, op1, t as int, n2 as int);
                }
                break;
            }
        }
    }
}

/// Emit the matches of every left entry of the run `[run_start, end)` of L2,
/// in order, against the bits present once the whole run is marked.
fn flush_run(
    y_ordered: &Vec<Option<i64>>,
    l2_order: &Vec<usize>,
    l1: &Vec<L1Item>,
    op1: InequalityOperator,
    run_start: usize,
    end: usize,
    bit_array: &FilteredBitArray,
    left_row_idx: &mut Vec<usize>,
    right_row_idx: &mut Vec<usize>,
    Ghost(n_left): Ghost<int>,
    Ghost(n_right): Ghost<int>,
)
    requires
        l1_value_sorted(l1@, l1_descending(op1)),
        l1_left_before_right(l1@),
        l1_ids_valid(l1@, n_left, n_right),
        0 <= n_left <= 0x4000_0000_0000_0000,
        0 <= n_right <= 0x4000_0000_0000_0000,
        n_left <= usize::MAX,
        n_right <= usize::MAX,
        perm_bounds(l2_order@, l1@.len() as int),
        run_start <= end <= l2_order@.len(),
        forall|j: int| run_start as int <= j < end as int
            ==> flush_point(y_ordered@, l2_order@, j) == end as int,
        bit_array.wf(),
        bit_array@.len() == l1@.len(),
        bits_all_right(l1@, bit_array@),
        bit_array@ == bits_after(l1@, l2_order@, end as int),
        old(left_row_idx)@.len() == old(right_row_idx)@.len(),
        pairs_of(old(left_row_idx)@, old(right_row_idx)@)
            == ns_pairs(l1@, y_ordered@, l2_order@, op1, run_start as int),
    ensures
        final(left_row_idx)@.len() == final(right_row_idx)@.len(),
        pairs_of(final(left_row_idx)@, final(right_row_idx)@)
            == ns_pairs(l1@, y_ordered@, l2_order@, op1, end as int),
{
    let mut j = run_start;
    while j < end
        invariant
            l1_value_sorted(l1@, l1_descending(op1)),
            l1_left_before_right(l1@),
            l1_ids_valid(l1@, n_left, n_right),
            0 <= n_left <= 0x4000_0000_0000_0000,
            0 <= n_right <= 0x4000_0000_0000_0000,
            n_left <= usize::MAX,
            n_right <= usize::MAX,
            perm_bounds(l2_order@, l1@.len() as int),
            run_start <= j <= end,
            end <= l2_order@.len(),
            forall|j2: int| run_start as int <= j2 < end as int
                ==> flush_point(y_ordered@, l2_order@, j2) == end as int,
            bit_array.wf(),
            bit_array@.len() == l1@.len(),
            bits_all_right(l1@, bit_array@),
            bit_array@ == bits_after(l1@, l2_order@, end as int),
            left_row_idx@.len() == right_row_idx@.len(),
            pairs_of(left_row_idx@, right_row_idx@)
                == ns_pairs(l1@, y_ordered@, l2_order@, op1, j as int),
        decreases end - j,
    {
        let p = l2_order[j];
        process_lhs_entry(
            l1, p, bit_array, op1, left_row_idx, right_row_idx,
            Ghost(n_left), Ghost(n_right),
        );
        proof {
            assert(flush_point(y_ordered@, l2_order@, j as int) == end as int);
            assert(pairs_of(left_row_idx@, right_row_idx@)
                =~= ns_pairs(l1@, y_ordered@, l2_order@, op1, j as int + 1));
        }
        j += 1;
    }
}

/// Walk L2 in order for a non-strict second operator: matches of a run of
/// equal y-values are emitted only once the whole run has been marked as
/// visited. Stops early once the requested match count is reached.
pub fn traverse_l2_array_non_strict(
    y_ordered: &Vec<Option<i64>>,
    l2_order: &Vec<usize>,
    l1: &Vec<L1Item>,
    op1: InequalityOperator,
    slice_end: Option<u64>,
    bit_array: &mut FilteredBitArray,
    left_row_idx: &mut Vec<usize>,
    right_row_idx: &mut Vec<usize>,
    Ghost(n_left): Ghost<int>,
    Ghost(n_right): Ghost<int>,
)
    requires
        l1_value_sorted(l1@, l1_descending(op1)),
        l1_left_before_right(l1@),
        l1_ids_valid(l1@, n_left, n_right),
        0 <= n_left <= 0x4000_0000_0000_0000,
        0 <= n_right <= 0x4000_0000_0000_0000,
        n_left <= usize::MAX,
        n_right <= usize::MAX,
        perm_bounds(l2_order@, l1@.len() as int),
        y_ordered@.len() == l1@.len(),
        forall|k: int| 0 <= k < l2_order@.len()
            ==> y_ordered@[#[trigger] l2_order@[k] as int] is Some,
        old(bit_array).wf(),
        old(bit_array)@.len() == l1@.len(),
        forall|b: int| 0 <= b < old(bit_array)@.len() ==> !old(bit_array)@[b],
        old(left_row_idx)@.len() == 0,
        old(right_row_idx)@.len() == 0,
    ensures
        final(left_row_idx)@.len() == final(right_row_idx)@.len(),
        pair_seq_prefix(
            pairs_of(final(left_row_idx)@, final(right_row_idx)@),
            ns_pairs(l1@, y_ordered@, l2_order@, op1, l2_order@.len() as int),
        ),
        match slice_end {
            Option::None => pairs_of(final(left_row_idx)@, final(right_row_idx)@)
                == ns_pairs(l1@, y_ordered@, l2_order@, op1, l2_order@.len() as int),
            Option::Some(e) => pairs_of(final(left_row_idx)@, final(right_row_idx)@)
                    == ns_pairs(l1@, y_ordered@, l2_order@, op1, l2_order@.len() as int)
                || final(left_row_idx)@.len() >= e,
        },
{
    let n2 = l2_order.len();
    proof {
        assert(bit_array@ =~= bits_after(l1@, l2_order@, 0));
    }
    let mut run_start: usize = 0;
    let mut prev_value: i64 = 0;
    let mut i: usize = 0;
    while i < n2
        invariant
            l1_value_sorted(l1@, l1_descending(op1)),
            l1_left_before_right(l1@),
            l1_ids_valid(l1@, n_left, n_right),
            0 <= n_left <= 0x4000_0000_0000_0000,
            0 <= n_right <= 0x4000_0000_0000_0000,
            n_left <= usize::MAX,
            n_right <= usize::MAX,
            perm_bounds(l2_order@, l1@.len() as int),
            y_ordered@.len() == l1@.len(),
            forall|k: int| 0 <= k < l2_order@.len()
                ==> y_ordered@[#[trigger] l2_order@[k] as int] is Some,
            n2 == l2_order@.len(),
            run_start <= i <= n2,
            run_start == i ==> i == 0,
            bit_array.wf(),
            bit_array@.len() == l1@.len(),
            bits_all_right(l1@, bit_array@),
            bit_array@ == bits_after(l1@, l2_order@, i as int),
            left_row_idx@.len() == right_row_idx@.len(),
            pairs_of(left_row_idx@, right_row_idx@)
                == ns_pairs(l1@, y_ordered@, l2_order@, op1, run_start as int),
            forall|j: int| run_start as int <= j < i as int
                ==> y_ordered@[#[trigger] l2_order@[j] as int]
                    == y_ordered@[l2_order@[run_start as int] as int],
            i > 0 ==> y_ordered@[l2_order@[i as int - 1] as int] == Option::Some(prev_value),
        decreases n2 - i,
    {
        let l1_index = l2_order[i];
        let value = match y_ordered[l1_index] {
            Option::Some(v) => v,
            Option::None => 0,  // unreachable: the order holds only value positions
        };
        if i > 0 && value != prev_value {
            proof {
                assert(y_ordered@[l2_order@[i as int] as int] == Option::Some(value));
                assert forall|j: int| run_start as int <= j < i as int
                    implies flush_point(y_ordered@, l2_order@, j) == i as int by {
                    lemma_flush_point_run(y_ordered@, l2_order@, j, i as int);
                }
            }
            flush_run(
                y_ordered, l2_order, l1, op1, run_start, i, bit_array,
                left_row_idx, right_row_idx, Ghost(n_left), Ghost(n_right),
            );
            if let Option::Some(e) = slice_end {
                if left_row_idx.len() as u64 >= e {
                    proof {
                        lemma_ns_pairs_prefix(
                            l1@, y_ordered@, l2_order@, op1, i as int, n2 as int,
                        );
                    }
                    return;
                }
            }
            run_start = i;
        }
        mark_visited(l1, l1_index, bit_array);
        proof {
            assert(bit_array@ =~= bits_after(l1@, l2_order@, i as int + 1));
        }
        prev_value = value;
        i += 1;
    }
    proof {
        assert forall|j: int| run_start as int <= j < n2 as int
            implies flush_point(y_ordered@, l2_order@, j) == n2 as int by {
            lemma_flush_point_run(y_ordered@, l2_order@, j, n2 as int);
        }
    }
    flush_run(
        y_ordered, l2_order, l1, op1, run_start, n2, bit_array,
        left_row_idx, right_row_idx, Ghost(n_left), Ghost(n_right),
    );
}

} // verus!
