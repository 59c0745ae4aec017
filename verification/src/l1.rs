//! The L1 table: the concatenated x-values in sorted order, each entry
//! carrying a sign-encoded row identifier, and the search and match-emission
//! primitives that walk it.

use vstd::prelude::*;

use crate::bitarray::FilteredBitArray;
use crate::ops::{op_holds, InequalityOperator};
use crate::sortperm::{key_eq, lex_sorted, null_key_lt, perm_bounds};

verus! {

/// One entry of the L1 table.
#[derive(Clone, Copy, Debug, PartialEq, Eq, Structural)]
pub struct L1Item {
    /// `g + 1` for a left-table position `g`, `-(g - n_left) - 1` for a
    /// right-table position `g`; never zero.
    pub row_index: i64,
    /// The x-value at that position.
    pub value: i64,
}

/// The sign-encoded identifier of concatenated position `idx` when the first
/// `n_left` positions belong to the left table.
pub open spec fn sign_row_index(idx: int, n_left: int) -> int {
    if idx < n_left {
        idx + 1
    } else {
        -(idx - n_left) - 1
    }
}

/// `l1` is the L1 table built from x-values `x` read in order `ord`, with the
/// first `n_left` concatenated positions belonging to the left table.
pub open spec fn l1_built_from(l1: Seq<L1Item>, x: Seq<Option<i64>>, ord: Seq<usize>, n_left: int) -> bool {
    &&& l1.len() == ord.len()
    &&& forall|k: int| 0 <= k < l1.len()
        ==> (#[trigger] l1[k]).row_index == sign_row_index(ord[k] as int, n_left)
            && x[ord[k] as int] == Option::Some(l1[k].value)
}

/// Values are sorted along L1 in the direction chosen from the first operator.
pub open spec fn l1_value_sorted(l1: Seq<L1Item>, descending: bool) -> bool {
    forall|k1: int, k2: int| 0 <= k1 <= k2 < l1.len() ==>
        (if descending {
            (#[trigger] l1[k1]).value >= (#[trigger] l1[k2]).value
        } else {
            l1[k1].value <= l1[k2].value
        })
}

/// Within a run of equal values, every left entry precedes every right entry
/// (the stability the builder inherits from the stable sort).
pub open spec fn l1_left_before_right(l1: Seq<L1Item>) -> bool {
    forall|k1: int, k2: int| 0 <= k1 < k2 < l1.len()
        && (#[trigger] l1[k1]).value == (#[trigger] l1[k2]).value
        && l1[k1].row_index < 0
        ==> l1[k2].row_index < 0
}

/// Row identifiers decode to rows of the two tables.
pub open spec fn l1_ids_valid(l1: Seq<L1Item>, n_left: int, n_right: int) -> bool {
    forall|k: int| 0 <= k < l1.len() ==> {
        let rid = (#[trigger] l1[k]).row_index as int;
        rid != 0 && (rid > 0 ==> rid - 1 < n_left) && (rid < 0 ==> -rid - 1 < n_right)
    }
}

/// The descending flag for the L1 sort, chosen so that positions after the
/// search start satisfy `value op1 other`.
pub open spec fn l1_descending(op1: InequalityOperator) -> bool {
    op1 == InequalityOperator::Gt || op1 == InequalityOperator::GtEq
}

/// The descending flag for the L2 sort, chosen so that already-visited
/// positions satisfy the second operator.
pub open spec fn l2_descending(op2: InequalityOperator) -> bool {
    op2 == InequalityOperator::Lt || op2 == InequalityOperator::LtEq
}

/// Build the L1 table from the concatenated x-values and their sorted,
/// null-free order.
pub fn build_l1_array(x: &Vec<Option<i64>>, order: &Vec<usize>, n_left: usize) -> (l1: Vec<L1Item>)
    requires
        x@.len() < 0x4000_0000_0000_0000,
        perm_bounds(order@, x@.len() as int),
        forall|k: int| 0 <= k < order@.len() ==> x@[#[trigger] order@[k] as int] is Some,
    ensures
        l1_built_from(l1@, x@, order@, n_left as int),
{
    let mut l1: Vec<L1Item> = Vec::new();
    let mut k: usize = 0;
    while k < order.len()
        invariant
            x@.len() < 0x4000_0000_0000_0000,
            perm_bounds(order@, x@.len() as int),
            forall|m: int| 0 <= m < order@.len() ==> x@[#[trigger] order@[m] as int] is Some,
            k <= order@.len(),
            l1@.len() == k,
            forall|m: int| 0 <= m < k
                ==> (#[trigger] l1@[m]).row_index == sign_row_index(order@[m] as int, n_left as int)
                    && x@[order@[m] as int] == Option::Some(l1@[m].value),
        decreases order@.len() - k,
    {
        let idx = order[k];
        let value = match x[idx] {
            Option::Some(v) => v,
            Option::None => 0,  // unreachable: the order holds only value positions
        };
        let row_index: i64 = if idx < n_left {
            (idx as i64) + 1
        } else {
            -((idx - n_left) as i64) - 1
        };
        l1.push(L1Item { row_index, value });
        k += 1;
    }
    l1
}

/// The L1 table as a function of the x-values and their sorted order.
pub open spec fn l1_of(x: Seq<Option<i64>>, ord: Seq<usize>, n_left: int) -> Seq<L1Item> {
    Seq::new(ord.len(), |k: int| L1Item {
        row_index: sign_row_index(ord[k] as int, n_left) as i64,
        value: x[ord[k] as int]->0,
    })
}

/// What the build inherits from the stable sort: the table it read is the
/// specification-level one, its values are sorted in the chosen direction,
/// left entries precede right entries among equal values, and every row
/// identifier decodes to a row of its table.
pub proof fn lemma_l1_facts(l1: Seq<L1Item>, x: Seq<Option<i64>>, ord: Seq<usize>, n_left: int, n_right: int, descending: bool)
    requires
        l1_built_from(l1, x, ord, n_left),
        x.len() < 0x4000_0000_0000_0000,
        0 <= n_left,
        0 <= n_right,
        n_left + n_right == x.len(),
        perm_bounds(ord, x.len() as int),
        forall|k: int| 0 <= k < ord.len() ==> x[#[trigger] ord[k] as int] is Some,
        lex_sorted(x, ord, descending),
    ensures
        l1 == l1_of(x, ord, n_left),
        l1_value_sorted(l1, descending),
        l1_left_before_right(l1),
        l1_ids_valid(l1, n_left, n_right),
{
    assert forall|k: int| 0 <= k < l1.len() implies l1[k] == l1_of(x, ord, n_left)[k] by {
        assert(x[ord[k] as int] == Option::Some(l1[k].value));
    }
    assert(l1 =~= l1_of(x, ord, n_left));
    assert forall|k1: int, k2: int| 0 <= k1 <= k2 < l1.len() implies
        (if descending {
            (#[trigger] l1[k1]).value >= (#[trigger] l1[k2]).value
        } else {
            l1[k1].value <= l1[k2].value
        }) by {
        if k1 < k2 {
            assert(null_key_lt(x[ord[k1] as int], x[ord[k2] as int], descending)
                || (key_eq(x[ord[k1] as int], x[ord[k2] as int]) && ord[k1] < ord[k2]));
            assert(x[ord[k1] as int] == Option::Some(l1[k1].value));
            assert(x[ord[k2] as int] == Option::Some(l1[k2].value));
        }
    }
    assert forall|k1: int, k2: int| 0 <= k1 < k2 < l1.len()
        && (#[trigger] l1[k1]).value == (#[trigger] l1[k2]).value
        && l1[k1].row_index < 0
        implies l1[k2].row_index < 0 by {
        assert(x[ord[k1] as int] == Option::Some(l1[k1].value));
        assert(x[ord[k2] as int] == Option::Some(l1[k2].value));
        assert(null_key_lt(x[ord[k1] as int], x[ord[k2] as int], descending)
            || (key_eq(x[ord[k1] as int], x[ord[k2] as int]) && ord[k1] < ord[k2]));
        // equal keys, so the original order is kept: the earlier entry being
        // right-side forces the later to be right-side too
        assert(ord[k1] < ord[k2]);
        assert(ord[k1] as int >= n_left);
    }
    assert forall|k: int| 0 <= k < l1.len() implies {
        let rid = (#[trigger] l1[k]).row_index as int;
        rid != 0 && (rid > 0 ==> rid - 1 < n_left) && (rid < 0 ==> -rid - 1 < n_right)
    } by {
        assert(l1[k].row_index == sign_row_index(ord[k] as int, n_left));
    }
}

/// Whether the search may still skip entry value `a` for start value `v`:
/// exactly the complement of `v op a`.
pub open spec fn search_skip(op: InequalityOperator, v: int, a: int) -> bool {
    !op_holds(op, v, a)
}

/// `v op a`, executably.
pub fn op_applies(op: InequalityOperator, a: i64, b: i64) -> (r: bool)
    ensures
        r == op_holds(op, a as int, b as int),
{
    match op {
        InequalityOperator::Lt => a < b,
        InequalityOperator::LtEq => a <= b,
        InequalityOperator::Gt => a > b,
        InequalityOperator::GtEq => a >= b,
    }
}

/// With values sorted in the direction chosen from `op`, the positions whose
/// value satisfies `value op1 it` form a suffix.
proof fn lemma_skip_monotone(l1: Seq<L1Item>, op: InequalityOperator, v: int, m1: int, m2: int)
    requires
        l1_value_sorted(l1, l1_descending(op)),
        0 <= m1 <= m2 < l1.len(),
        search_skip(op, v, l1[m2].value as int),
    ensures
        search_skip(op, v, l1[m1].value as int),
{
}

/// Find the first L1 position at or after `index` whose value satisfies
/// `L1[index].value op1 it`; all later positions satisfy it too, all earlier
/// ones do not. Exponential probing followed by binary refinement.
pub fn find_search_start_index(l1: &Vec<L1Item>, index: usize, op1: InequalityOperator) -> (s: usize)
    requires
        l1_value_sorted(l1@, l1_descending(op1)),
        index < l1@.len(),
    ensures
        index <= s <= l1@.len(),
        forall|m: int| index <= m < l1@.len()
            ==> (op_holds(op1, l1@[index as int].value as int, (#[trigger] l1@[m]).value as int)
                 <==> s <= m),
{
    let n = l1.len();
    let value = l1[index].value;
    let mut lo: usize = index;
    let mut hi: usize = n;
    let mut width: usize = 1;
    // exponential probing: double the step while the probe can still be skipped
    while width < hi - lo && !op_applies(op1, value, l1[lo + width].value)
        invariant
            l1_value_sorted(l1@, l1_descending(op1)),
            index < l1@.len(),
            value == l1@[index as int].value,
            index <= lo <= hi <= l1@.len(),
            hi == l1@.len(),
            width >= 1,
            forall|m: int| index <= m < lo
                ==> search_skip(op1, value as int, (#[trigger] l1@[m]).value as int),
        decreases hi - lo,
    {
        proof {
            assert forall|m: int| index <= m < lo + width + 1
                implies search_skip(op1, value as int, (#[trigger] l1@[m]).value as int) by {
                if m >= lo {
                    lemma_skip_monotone(l1@, op1, value as int, m, lo as int + width as int);
                }
            }
        }
        lo = lo + width + 1;
        width = if width <= usize::MAX / 2 { width * 2 } else { usize::MAX };
    }
    // binary refinement within the remaining window
    while lo < hi
        invariant
            l1_value_sorted(l1@, l1_descending(op1)),
            index < l1@.len(),
            value == l1@[index as int].value,
            index <= lo <= hi <= l1@.len(),
            forall|m: int| index <= m < lo
                ==> search_skip(op1, value as int, (#[trigger] l1@[m]).value as int),
            forall|m: int| hi <= m < l1@.len()
                ==> !search_skip(op1, value as int, (#[trigger] l1@[m]).value as int),
        decreases hi - lo,
    {
        let mid = lo + (hi - lo) / 2;
        if !op_applies(op1, value, l1[mid].value) {
            proof {
                assert forall|m: int| index <= m < mid + 1
                    implies search_skip(op1, value as int, (#[trigger] l1@[m]).value as int) by {
                    if m >= lo {
                        lemma_skip_monotone(l1@, op1, value as int, m, mid as int);
                    }
                }
            }
            lo = mid + 1;
        } else {
            proof {
                assert forall|m: int| mid <= m < l1@.len()
                    implies !search_skip(op1, value as int, (#[trigger] l1@[m]).value as int) by {
                    if search_skip(op1, value as int, l1@[m].value as int) {
                        lemma_skip_monotone(l1@, op1, value as int, mid as int, m);
                    }
                }
            }
            hi = mid;
        }
    }
    lo
}

/// A visited position whose value satisfies the first operator against the
/// value at position `i`: one match to emit.
pub open spec fn eligible_bit(l1: Seq<L1Item>, bits: Seq<bool>, i: int, op1: InequalityOperator, b: int) -> bool {
    0 <= b < l1.len() && bits[b]
        && op_holds(op1, l1[i].value as int, l1[b].value as int)
}

/// The matches emitted for the left entry at L1 position `i`, scanning
/// eligible visited positions below `n` in ascending order: pairs of
/// (left row, right row).
pub open spec fn entry_pairs_upto(l1: Seq<L1Item>, bits: Seq<bool>, i: int, op1: InequalityOperator, n: int) -> Seq<(int, int)>
    decreases n,
{
    if n <= 0 {
        Seq::empty()
    } else {
        entry_pairs_upto(l1, bits, i, op1, n - 1)
            + if eligible_bit(l1, bits, i, op1, n - 1) {
                seq![(l1[i].row_index as int - 1, -(l1[n - 1].row_index as int) - 1)]
            } else {
                Seq::empty()
            }
    }
}

/// All matches emitted for the left entry at L1 position `i`.
pub open spec fn entry_pairs(l1: Seq<L1Item>, bits: Seq<bool>, i: int, op1: InequalityOperator) -> Seq<(int, int)> {
    entry_pairs_upto(l1, bits, i, op1, l1.len() as int)
}

/// No eligible position in `[c1, c2)` means the scan gains nothing there.
proof fn lemma_entry_pairs_constant(l1: Seq<L1Item>, bits: Seq<bool>, i: int, op1: InequalityOperator, c1: int, c2: int)
    requires
        0 <= c1 <= c2,
        forall|b: int| c1 <= b < c2 ==> !eligible_bit(l1, bits, i, op1, b),
    ensures
        entry_pairs_upto(l1, bits, i, op1, c2) == entry_pairs_upto(l1, bits, i, op1, c1),
    decreases c2 - c1,
{
    if c2 > c1 {
        lemma_entry_pairs_constant(l1, bits, i, op1, c1, c2 - 1);
        assert(entry_pairs_upto(l1, bits, i, op1, c2) =~= entry_pairs_upto(l1, bits, i, op1, c2 - 1));
    }
}

/// The two output vectors read as a sequence of (left row, right row) pairs.
pub open spec fn pairs_of(left_ids: Seq<usize>, right_ids: Seq<usize>) -> Seq<(int, int)> {
    Seq::new(left_ids.len(), |k: int| (left_ids[k] as int, right_ids[k] as int))
}

/// For the left entry at L1 position `l1_index`, append one match per
/// visited position that satisfies the first operator, in ascending
/// position order.
pub fn find_matches_in_l1(
    l1: &Vec<L1Item>,
    l1_index: usize,
    row_index: i64,
    bits: &FilteredBitArray,
    op1: InequalityOperator,
    left_row_ids: &mut Vec<usize>,
    right_row_ids: &mut Vec<usize>,
    Ghost(n_left): Ghost<int>,
    Ghost(n_right): Ghost<int>,
)
    requires
        l1_value_sorted(l1@, l1_descending(op1)),
        l1_ids_valid(l1@, n_left, n_right),
        0 <= n_left <= 0x4000_0000_0000_0000,
        0 <= n_right <= 0x4000_0000_0000_0000,
        n_left <= usize::MAX,
        n_right <= usize::MAX,
        l1_index < l1@.len(),
        row_index == l1@[l1_index as int].row_index,
        row_index > 0,
        bits.wf(),
        bits@.len() == l1@.len(),
        forall|b: int| 0 <= b < l1@.len() && bits@[b] ==> l1@[b].row_index < 0,
        forall|b: int| 0 <= b < l1_index as int
            ==> !eligible_bit(l1@, bits@, l1_index as int, op1, b),
        old(left_row_ids)@.len() == old(right_row_ids)@.len(),
    ensures
        final(left_row_ids)@.len() == final(right_row_ids)@.len(),
        pairs_of(final(left_row_ids)@, final(right_row_ids)@)
            == pairs_of(old(left_row_ids)@, old(right_row_ids)@)
               + entry_pairs(l1@, bits@, l1_index as int, op1),
{
    let ghost pairs0 = pairs_of(left_row_ids@, right_row_ids@);
    let start = find_search_start_index(l1, l1_index, op1);
    proof {
        assert forall|b: int| 0 <= b < start as int
            implies !eligible_bit(l1@, bits@, l1_index as int, op1, b) by {}
        lemma_entry_pairs_constant(l1@, bits@, l1_index as int, op1, 0, start as int);
    }
    let mut cur: usize = start;
    loop
        invariant_except_break
            l1_value_sorted(l1@, l1_descending(op1)),
            l1_ids_valid(l1@, n_left, n_right),
            0 <= n_left <= 0x4000_0000_0000_0000,
            0 <= n_right <= 0x4000_0000_0000_0000,
            n_left <= usize::MAX,
            n_right <= usize::MAX,
            l1_index < l1@.len(),
            l1@.len() == l1.len(),
            l1_index <= start,
            row_index == l1@[l1_index as int].row_index,
            row_index > 0,
            bits.wf(),
            bits@.len() == l1@.len(),
            forall|b: int| 0 <= b < l1@.len() && bits@[b] ==> l1@[b].row_index < 0,
            start <= cur <= l1@.len(),
            forall|m: int| l1_index as int <= m < l1@.len()
                ==> (op_holds(op1, l1@[l1_index as int].value as int, (#[trigger] l1@[m]).value as int)
                     <==> start as int <= m),
            left_row_ids@.len() == right_row_ids@.len(),
            pairs_of(left_row_ids@, right_row_ids@)
                == pairs0 + entry_pairs_upto(l1@, bits@, l1_index as int, op1, cur as int),
        ensures
            left_row_ids@.len() == right_row_ids@.len(),
            pairs_of(left_row_ids@, right_row_ids@)
                == pairs0 + entry_pairs_upto(l1@, bits@, l1_index as int, op1, l1@.len() as int),
        decreases l1@.len() - cur,
    {
        match bits.next_set_bit(cur) {
            Option::Some(b) => {
                proof {
                    assert forall|m: int| cur as int <= m < b as int
                        implies !eligible_bit(l1@, bits@, l1_index as int, op1, m) by {}
                    lemma_entry_pairs_constant(l1@, bits@, l1_index as int, op1, cur as int, b as int);
                    assert(op_holds(op1, l1@[l1_index as int].value as int, l1@[b as int].value as int));
                    assert(eligible_bit(l1@, bits@, l1_index as int, op1, b as int));
                    assert(l1@[b as int].row_index < 0);
                }
                let right_row_index = l1[b].row_index;
                let ghost prev_pairs = pairs_of(left_row_ids@, right_row_ids@);
                left_row_ids.push((row_index - 1) as usize);
                right_row_ids.push(((-right_row_index) - 1) as usize);
                proof {
                    let i = l1_index as int;
                    assert(prev_pairs == pairs0 + entry_pairs_upto(l1@, bits@, i, op1, b as int));
                    let pr = ((row_index - 1) as usize as int, (((-right_row_index) - 1) as usize) as int);
                    assert(pr == (row_index as int - 1, -(right_row_index as int) - 1));
                    assert(entry_pairs_upto(l1@, bits@, i, op1, b as int + 1)
                        =~= entry_pairs_upto(l1@, bits@, i, op1, b as int) + seq![pr]);
                    assert(pairs_of(left_row_ids@, right_row_ids@) =~= prev_pairs + seq![pr]);
                    assert(pairs_of(left_row_ids@, right_row_ids@)
                        =~= pairs0 + entry_pairs_upto(l1@, bits@, i, op1, b as int + 1));
                }
                cur = b + 1;
            },
            Option::None => {
                proof {
                    assert forall|m: int| cur as int <= m < l1@.len()
                        implies !eligible_bit(l1@, bits@, l1_index as int, op1, m) by {}
                    lemma_entry_pairs_constant(l1@, bits@, l1_index as int, op1, cur as int, l1@.len() as int);
                }
                break;
            },
        }
    }
}

} // verus!
