//! The laws of the join: what the emitted pairs are, stated against a
//! nested-loop oracle over the four selected columns, and the symmetry the
//! operators admit.

use vstd::prelude::*;

use crate::l1::{
    eligible_bit, entry_pairs_upto, l1_built_from, l1_descending, l1_ids_valid,
    l1_left_before_right, l1_of, l1_value_sorted, l2_descending, lemma_l1_facts, sign_row_index,
};
use crate::join::{iejoin_pairs_full, l1_order_spec, l2_order_spec, y_ordered_spec};
use crate::l2::{
    bits_after, flush_point, lemma_bits_after_right, lemma_flush_point_range,
    lemma_no_eligible_before,
};
use crate::ops::{is_strict_op, mirror_op, op_holds, InequalityOperator};
use crate::sortperm::{
    contains_pos, keep_some, key_eq, lemma_sort_perm_spec_props, lex_sorted, null_key_lt,
    perm_bounds, sort_perm_spec,
};

verus! {

/// The nested-loop oracle: rows `i` of the left table and `j` of the right
/// match when both selected values exist on both sides and both operators
/// hold.
pub open spec fn oracle_match(
    xl: Seq<Option<i64>>,
    yl: Seq<Option<i64>>,
    xr: Seq<Option<i64>>,
    yr: Seq<Option<i64>>,
    op1: InequalityOperator,
    op2: InequalityOperator,
    i: int,
    j: int,
) -> bool {
    &&& 0 <= i < xl.len()
    &&& 0 <= j < xr.len()
    &&& xl[i] is Some
    &&& yl[i] is Some
    &&& xr[j] is Some
    &&& yr[j] is Some
    &&& op_holds(op1, xl[i]->0 as int, xr[j]->0 as int)
    &&& op_holds(op2, yl[i]->0 as int, yr[j]->0 as int)
}

/// The pair `pr` occurs in the emission `ps`.
pub open spec fn emits(ps: Seq<(int, int)>, pr: (int, int)) -> bool {
    exists|k: int| 0 <= k < ps.len() && (#[trigger] ps[k]) == pr
}

/// The pair a left entry at L1 position `i` and a visited position `b`
/// decode to.
pub open spec fn decoded_pair(l1: Seq<crate::l1::L1Item>, i: int, b: int) -> (int, int) {
    (l1[i].row_index as int - 1, -(l1[b].row_index as int) - 1)
}

/// Mirroring both operators and swapping the tables transposes the oracle:
/// the match set of the swapped join is exactly the transposed match set.
pub proof fn lemma_oracle_transpose(
    xl: Seq<Option<i64>>,
    yl: Seq<Option<i64>>,
    xr: Seq<Option<i64>>,
    yr: Seq<Option<i64>>,
    op1: InequalityOperator,
    op2: InequalityOperator,
    i: int,
    j: int,
)
    ensures
        oracle_match(xl, yl, xr, yr, op1, op2, i, j)
            == oracle_match(xr, yr, xl, yl, mirror_op(op1), mirror_op(op2), j, i),
{
}

/// Dropping null positions keeps the order sorted, keeps exactly the
/// positions holding values, and invents no position.
pub proof fn lemma_keep_some_props(vals: Seq<Option<i64>>, ord: Seq<usize>, descending: bool)
    requires
        perm_bounds(ord, vals.len() as int),
        lex_sorted(vals, ord, descending),
    ensures
        keep_some(vals, ord).len() <= ord.len(),
        perm_bounds(keep_some(vals, ord), vals.len() as int),
        forall|k: int| 0 <= k < keep_some(vals, ord).len()
            ==> vals[#[trigger] keep_some(vals, ord)[k] as int] is Some,
        lex_sorted(vals, keep_some(vals, ord), descending),
        forall|k: int| 0 <= k < keep_some(vals, ord).len()
            ==> #[trigger] contains_pos(ord, keep_some(vals, ord)[k] as int),
        forall|k2: int| 0 <= k2 < ord.len() && vals[#[trigger] ord[k2] as int] is Some
            ==> contains_pos(keep_some(vals, ord), ord[k2] as int),
    decreases ord.len(),
{
    let r = keep_some(vals, ord);
    if ord.len() == 0 {
    } else {
        let pre = ord.drop_last();
        assert forall|k1: int, k2: int| 0 <= k1 < k2 < pre.len() implies
            null_key_lt(vals[#[trigger] pre[k1] as int], vals[#[trigger] pre[k2] as int], descending)
            || (key_eq(vals[pre[k1] as int], vals[pre[k2] as int]) && pre[k1] < pre[k2]) by {
            assert(pre[k1] == ord[k1] && pre[k2] == ord[k2]);
        }
        lemma_keep_some_props(vals, pre, descending);
        let rp = keep_some(vals, pre);
        let last = ord.last();
        // sortedness of the extended order
        assert forall|k1: int, k2: int| 0 <= k1 < k2 < r.len() implies
            null_key_lt(vals[#[trigger] r[k1] as int], vals[#[trigger] r[k2] as int], descending)
            || (key_eq(vals[r[k1] as int], vals[r[k2] as int]) && r[k1] < r[k2]) by {
            if k2 < rp.len() {
                assert(r[k1] == rp[k1] && r[k2] == rp[k2]);
            } else {
                // k2 names the appended last position
                assert(vals[last as int] is Some);
                assert(r[k2] == last);
                assert(r[k1] == rp[k1]);
                assert(contains_pos(pre, rp[k1] as int));
                let m = choose|m: int| 0 <= m < pre.len() && #[trigger] pre[m] as int == rp[k1] as int;
                assert(ord[m] == rp[k1]);
                assert(null_key_lt(vals[ord[m] as int], vals[ord[ord.len() - 1] as int], descending)
                    || (key_eq(vals[ord[m] as int], vals[ord[ord.len() - 1] as int])
                        && ord[m] < ord[ord.len() - 1]));
            }
        }
        // membership: every kept position was in the order
        assert forall|k: int| 0 <= k < r.len() implies
            #[trigger] contains_pos(ord, r[k] as int) by {
            if k < rp.len() {
                assert(contains_pos(pre, rp[k] as int));
                let m = choose|m: int| 0 <= m < pre.len() && #[trigger] pre[m] as int == rp[k] as int;
                assert(ord[m] as int == r[k] as int);
            } else {
                assert(r[k] == last);
                assert(ord[ord.len() - 1] as int == r[k] as int);
            }
        }
        // completeness: every value position of the order is kept
        assert forall|k2: int| 0 <= k2 < ord.len() && vals[#[trigger] ord[k2] as int] is Some
            implies contains_pos(r, ord[k2] as int) by {
            if k2 < ord.len() - 1 {
                assert(pre[k2] == ord[k2]);
                assert(contains_pos(rp, pre[k2] as int));
                let m = choose|m: int| 0 <= m < rp.len() && #[trigger] rp[m] as int == ord[k2] as int;
                assert(r[m] as int == ord[k2] as int);
            } else {
                assert(vals[last as int] is Some);
                assert(r[r.len() - 1] as int == ord[k2] as int);
            }
        }
    }
}

/// The specification-level L1 table is built from its inputs.
pub proof fn lemma_l1_of_built(x: Seq<Option<i64>>, ord: Seq<usize>, n_left: int)
    requires
        x.len() < 0x4000_0000_0000_0000,
        0 <= n_left,
        perm_bounds(ord, x.len() as int),
        forall|k: int| 0 <= k < ord.len() ==> x[#[trigger] ord[k] as int] is Some,
    ensures
        l1_built_from(l1_of(x, ord, n_left), x, ord, n_left),
{
    let l1 = l1_of(x, ord, n_left);
    assert forall|k: int| 0 <= k < l1.len() implies
        (#[trigger] l1[k]).row_index == sign_row_index(ord[k] as int, n_left)
            && x[ord[k] as int] == Option::Some(l1[k].value) by {
        assert(x[ord[k] as int] is Some);
    }
}

/// A stably sorted order holds no position twice.
pub proof fn lemma_lex_sorted_injective(vals: Seq<Option<i64>>, ord: Seq<usize>, descending: bool, k1: int, k2: int)
    requires
        lex_sorted(vals, ord, descending),
        0 <= k1 < k2 < ord.len(),
    ensures
        ord[k1] != ord[k2],
{
    assert(null_key_lt(vals[ord[k1] as int], vals[ord[k2] as int], descending)
        || (key_eq(vals[ord[k1] as int], vals[ord[k2] as int]) && ord[k1] < ord[k2]));
}

/// Which bits a walk prefix leaves set: exactly the right-side positions
/// reached so far.
pub proof fn lemma_bits_after_iff(l1: Seq<crate::l1::L1Item>, l2: Seq<usize>, t: int, b: int)
    requires
        perm_bounds(l2, l1.len() as int),
        0 <= t <= l2.len(),
        0 <= b < l1.len(),
    ensures
        bits_after(l1, l2, t)[b] <==> (l1[b].row_index < 0
            && exists|s: int| 0 <= s < t && #[trigger] l2[s] as int == b),
    decreases t,
{
    if t > 0 {
        lemma_bits_after_right(l1, l2, t);
        lemma_bits_after_right(l1, l2, t - 1);
        lemma_bits_after_iff(l1, l2, t - 1, b);
        let p = l2[t - 1] as int;
        if l1[p].row_index < 0 && p == b {
            assert(l2[t - 1] as int == b);
            assert(bits_after(l1, l2, t)[b]);
        } else {
            assert(bits_after(l1, l2, t)[b] == bits_after(l1, l2, t - 1)[b]);
            if l1[b].row_index < 0 && exists|s: int| 0 <= s < t && #[trigger] l2[s] as int == b {
                let s = choose|s: int| 0 <= s < t && #[trigger] l2[s] as int == b;
                assert(s < t - 1 || p == b);
            }
        }
    }
}

/// Every position of a run, up to its flush point, carries the run's
/// y-value.
pub proof fn lemma_flush_point_eq(y: Seq<Option<i64>>, l2: Seq<usize>, j: int, m: int)
    requires
        0 <= j < l2.len(),
        j <= m < flush_point(y, l2, j),
    ensures
        y[l2[m] as int] == y[l2[j] as int],
    decreases m - j,
{
    lemma_flush_point_range(y, l2, j);
    if m > j {
        assert(j + 1 < l2.len() && y[l2[j + 1] as int] == y[l2[j] as int]);
        lemma_flush_point_eq(y, l2, j + 1, m);
    }
}

/// Past the run containing `j`, the y-value changes.
pub proof fn lemma_flush_point_boundary(y: Seq<Option<i64>>, l2: Seq<usize>, j: int)
    requires
        0 <= j < l2.len(),
        flush_point(y, l2, j) < l2.len(),
    ensures
        y[l2[flush_point(y, l2, j)] as int] != y[l2[flush_point(y, l2, j) - 1] as int],
    decreases l2.len() - j,
{
    if j + 1 < l2.len() && y[l2[j + 1] as int] == y[l2[j] as int] {
        lemma_flush_point_boundary(y, l2, j + 1);
    }
}

/// What one left entry emits: one pair per eligible visited position.
pub proof fn lemma_entry_pairs_emits(
    l1: Seq<crate::l1::L1Item>,
    bits: Seq<bool>,
    i: int,
    op1: InequalityOperator,
    n: int,
    pr: (int, int),
)
    requires
        0 <= n,
    ensures
        emits(entry_pairs_upto(l1, bits, i, op1, n), pr)
            <==> exists|b: int| 0 <= b < n
                && #[trigger] eligible_bit(l1, bits, i, op1, b)
                && pr == decoded_pair(l1, i, b),
    decreases n,
{
    let ep = entry_pairs_upto(l1, bits, i, op1, n);
    if n == 0 {
        assert(!emits(ep, pr));
    } else {
        lemma_entry_pairs_emits(l1, bits, i, op1, n - 1, pr);
        let epp = entry_pairs_upto(l1, bits, i, op1, n - 1);
        if emits(ep, pr) {
            let k = choose|k: int| 0 <= k < ep.len() && (#[trigger] ep[k]) == pr;
            if k < epp.len() {
                assert(epp[k] == pr);
                assert(emits(epp, pr));
            } else {
                assert(eligible_bit(l1, bits, i, op1, n - 1));
                assert(pr == decoded_pair(l1, i, n - 1));
            }
        }
        if exists|b: int| 0 <= b < n && #[trigger] eligible_bit(l1, bits, i, op1, b)
            && pr == decoded_pair(l1, i, b) {
            let b = choose|b: int| 0 <= b < n && #[trigger] eligible_bit(l1, bits, i, op1, b)
                && pr == decoded_pair(l1, i, b);
            if b < n - 1 {
                assert(emits(epp, pr));
                let k = choose|k: int| 0 <= k < epp.len() && (#[trigger] epp[k]) == pr;
                assert(ep[k] == pr);
                assert(emits(ep, pr));
            } else {
                assert(ep[ep.len() - 1] == pr);
                assert(emits(ep, pr));
            }
        }
    }
}

/// What the strict walk emits: one pair per left entry and position visited
/// before it that the first operator accepts.
pub proof fn lemma_strict_pairs_emits(
    l1: Seq<crate::l1::L1Item>,
    l2: Seq<usize>,
    op1: InequalityOperator,
    t: int,
    pr: (int, int),
)
    requires
        perm_bounds(l2, l1.len() as int),
        0 <= t <= l2.len(),
    ensures
        emits(crate::l2::strict_pairs(l1, l2, op1, t), pr)
            <==> exists|s: int, b: int| {
                &&& 0 <= s < t
                &&& l1[l2[s] as int].row_index > 0
                &&& #[trigger] eligible_bit(l1, bits_after(l1, l2, s), l2[s] as int, op1, b)
                &&& pr == decoded_pair(l1, l2[s] as int, b)
            },
    decreases t,
{
    let sp = crate::l2::strict_pairs(l1, l2, op1, t);
    if t == 0 {
        assert(!emits(sp, pr));
    } else {
        lemma_strict_pairs_emits(l1, l2, op1, t - 1, pr);
        let spp = crate::l2::strict_pairs(l1, l2, op1, t - 1);
        let p = l2[t - 1] as int;
        lemma_entry_pairs_emits(l1, bits_after(l1, l2, t - 1), p, op1, l1.len() as int, pr);
        if emits(sp, pr) {
            let k = choose|k: int| 0 <= k < sp.len() && (#[trigger] sp[k]) == pr;
            if k < spp.len() {
                assert(spp[k] == pr);
                assert(emits(spp, pr));
            } else {
                assert(l1[p].row_index > 0);
                let ep = crate::l1::entry_pairs(l1, bits_after(l1, l2, t - 1), p, op1);
                assert(ep[k - spp.len()] == pr);
                assert(emits(ep, pr));
            }
        }
        if exists|s: int, b: int| {
            &&& 0 <= s < t
            &&& l1[l2[s] as int].row_index > 0
            &&& #[trigger] eligible_bit(l1, bits_after(l1, l2, s), l2[s] as int, op1, b)
            &&& pr == decoded_pair(l1, l2[s] as int, b)
        } {
            let (s, b) = choose|s: int, b: int| {
                &&& 0 <= s < t
                &&& l1[l2[s] as int].row_index > 0
                &&& #[trigger] eligible_bit(l1, bits_after(l1, l2, s), l2[s] as int, op1, b)
                &&& pr == decoded_pair(l1, l2[s] as int, b)
            };
            if s < t - 1 {
                assert(emits(spp, pr));
                let k = choose|k: int| 0 <= k < spp.len() && (#[trigger] spp[k]) == pr;
                assert(sp[k] == pr);
                assert(emits(sp, pr));
            } else {
                let ep = crate::l1::entry_pairs(l1, bits_after(l1, l2, t - 1), p, op1);
                assert(emits(ep, pr));
                let k = choose|k: int| 0 <= k < ep.len() && (#[trigger] ep[k]) == pr;
                assert(sp[spp.len() + k] == pr);
                assert(emits(sp, pr));
            }
        }
    }
}

/// What the run-aware walk emits: as the strict walk, but each left entry
/// sees the bits present at the end of its run.
pub proof fn lemma_ns_pairs_emits(
    l1: Seq<crate::l1::L1Item>,
    y: Seq<Option<i64>>,
    l2: Seq<usize>,
    op1: InequalityOperator,
    t: int,
    pr: (int, int),
)
    requires
        perm_bounds(l2, l1.len() as int),
        0 <= t <= l2.len(),
    ensures
        emits(crate::l2::ns_pairs(l1, y, l2, op1, t), pr)
            <==> exists|s: int, b: int| {
                &&& 0 <= s < t
                &&& l1[l2[s] as int].row_index > 0
                &&& #[trigger] eligible_bit(l1, bits_after(l1, l2, flush_point(y, l2, s)), l2[s] as int, op1, b)
                &&& pr == decoded_pair(l1, l2[s] as int, b)
            },
    decreases t,
{
    let sp = crate::l2::ns_pairs(l1, y, l2, op1, t);
    if t == 0 {
        assert(!emits(sp, pr));
    } else {
        lemma_ns_pairs_emits(l1, y, l2, op1, t - 1, pr);
        let spp = crate::l2::ns_pairs(l1, y, l2, op1, t - 1);
        let p = l2[t - 1] as int;
        lemma_entry_pairs_emits(
            l1, bits_after(l1, l2, flush_point(y, l2, t - 1)), p, op1, l1.len() as int, pr,
        );
        if emits(sp, pr) {
            let k = choose|k: int| 0 <= k < sp.len() && (#[trigger] sp[k]) == pr;
            if k < spp.len() {
                assert(spp[k] == pr);
                assert(emits(spp, pr));
            } else {
                assert(l1[p].row_index > 0);
                let ep = crate::l1::entry_pairs(
                    l1, bits_after(l1, l2, flush_point(y, l2, t - 1)), p, op1,
                );
                assert(ep[k - spp.len()] == pr);
                assert(emits(ep, pr));
            }
        }
        if exists|s: int, b: int| {
            &&& 0 <= s < t
            &&& l1[l2[s] as int].row_index > 0
            &&& #[trigger] eligible_bit(l1, bits_after(l1, l2, flush_point(y, l2, s)), l2[s] as int, op1, b)
            &&& pr == decoded_pair(l1, l2[s] as int, b)
        } {
            let (s, b) = choose|s: int, b: int| {
                &&& 0 <= s < t
                &&& l1[l2[s] as int].row_index > 0
                &&& #[trigger] eligible_bit(l1, bits_after(l1, l2, flush_point(y, l2, s)), l2[s] as int, op1, b)
                &&& pr == decoded_pair(l1, l2[s] as int, b)
            };
            if s < t - 1 {
                assert(emits(spp, pr));
                let k = choose|k: int| 0 <= k < spp.len() && (#[trigger] spp[k]) == pr;
                assert(sp[k] == pr);
                assert(emits(sp, pr));
            } else {
                let ep = crate::l1::entry_pairs(
                    l1, bits_after(l1, l2, flush_point(y, l2, t - 1)), p, op1,
                );
                assert(emits(ep, pr));
                let k = choose|k: int| 0 <= k < ep.len() && (#[trigger] ep[k]) == pr;
                assert(sp[spp.len() + k] == pr);
                assert(emits(sp, pr));
            }
        }
    }
}

/// The lengths under which a join is meaningful: parallel columns on each
/// side, and a total height the machine can hold.
pub open spec fn join_inputs_ok(
    xl: Seq<Option<i64>>,
    yl: Seq<Option<i64>>,
    xr: Seq<Option<i64>>,
    yr: Seq<Option<i64>>,
) -> bool {
    &&& xl.len() == yl.len()
    &&& xr.len() == yr.len()
    &&& xl.len() + xr.len() < 0x4000_0000_0000_0000
    &&& xl.len() + xr.len() <= usize::MAX
}

/// Everything the sorted orders and the L1 table give the walk: bounds,
/// sortedness, stability, completeness for non-null positions, and
/// injectivity.
proof fn lemma_setup_facts(
    xl: Seq<Option<i64>>,
    yl: Seq<Option<i64>>,
    xr: Seq<Option<i64>>,
    yr: Seq<Option<i64>>,
    op1: InequalityOperator,
    op2: InequalityOperator,
)
    requires
        join_inputs_ok(xl, yl, xr, yr),
    ensures
        ({
            let x = xl + xr;
            let y = yl + yr;
            let nl = xl.len() as int;
            let nr = xr.len() as int;
            let l1o = l1_order_spec(x, op1);
            let l1 = l1_of(x, l1o, nl);
            let y_ord = y_ordered_spec(y, l1o);
            let l2o = l2_order_spec(y_ord, op2);
            &&& perm_bounds(l1o, x.len() as int)
            &&& (forall|k: int| 0 <= k < l1o.len() ==> x[#[trigger] l1o[k] as int] is Some)
            &&& lex_sorted(x, l1o, l1_descending(op1))
            &&& (forall|g: int| 0 <= g < x.len() && x[g] is Some ==> #[trigger] contains_pos(l1o, g))
            &&& (forall|k1: int, k2: int| 0 <= k1 < k2 < l1o.len() ==> l1o[k1] != l1o[k2])
            &&& l1.len() == l1o.len()
            &&& l1_built_from(l1, x, l1o, nl)
            &&& l1_value_sorted(l1, l1_descending(op1))
            &&& l1_left_before_right(l1)
            &&& l1_ids_valid(l1, nl, nr)
            &&& y_ord.len() == l1o.len()
            &&& (forall|k: int| 0 <= k < y_ord.len() ==> #[trigger] y_ord[k] == y[l1o[k] as int])
            &&& perm_bounds(l2o, l1o.len() as int)
            &&& (forall|k: int| 0 <= k < l2o.len() ==> y_ord[#[trigger] l2o[k] as int] is Some)
            &&& lex_sorted(y_ord, l2o, l2_descending(op2))
            &&& (forall|p: int| 0 <= p < y_ord.len() && y_ord[p] is Some
                    ==> #[trigger] contains_pos(l2o, p))
            &&& (forall|k1: int, k2: int| 0 <= k1 < k2 < l2o.len() ==> l2o[k1] != l2o[k2])
        }),
{
    let x = xl + xr;
    let y = yl + yr;
    let nl = xl.len() as int;
    let nr = xr.len() as int;
    let d1 = l1_descending(op1);
    let d2 = l2_descending(op2);
    let sp1 = sort_perm_spec(x, d1);
    let l1o = l1_order_spec(x, op1);
    let l1 = l1_of(x, l1o, nl);
    let y_ord = y_ordered_spec(y, l1o);
    let sp2 = sort_perm_spec(y_ord, d2);
    let l2o = l2_order_spec(y_ord, op2);

    lemma_sort_perm_spec_props(x, d1);
    lemma_keep_some_props(x, sp1, d1);
    assert forall|g: int| 0 <= g < x.len() && x[g] is Some
        implies #[trigger] contains_pos(l1o, g) by {
        assert(contains_pos(sp1, g));
        let k2 = choose|k2: int| 0 <= k2 < sp1.len() && #[trigger] sp1[k2] as int == g;
        assert(x[sp1[k2] as int] is Some);
        assert(contains_pos(l1o, sp1[k2] as int));
    }
    assert forall|k1: int, k2: int| 0 <= k1 < k2 < l1o.len() implies l1o[k1] != l1o[k2] by {
        lemma_lex_sorted_injective(x, l1o, d1, k1, k2);
    }
    lemma_l1_of_built(x, l1o, nl);
    lemma_l1_facts(l1, x, l1o, nl, nr, d1);
    assert forall|k: int| 0 <= k < y_ord.len() implies #[trigger] y_ord[k] == y[l1o[k] as int] by {}
    lemma_sort_perm_spec_props(y_ord, d2);
    lemma_keep_some_props(y_ord, sp2, d2);
    assert forall|p: int| 0 <= p < y_ord.len() && y_ord[p] is Some
        implies #[trigger] contains_pos(l2o, p) by {
        assert(contains_pos(sp2, p));
        let k2 = choose|k2: int| 0 <= k2 < sp2.len() && #[trigger] sp2[k2] as int == p;
        assert(y_ord[sp2[k2] as int] is Some);
        assert(contains_pos(l2o, sp2[k2] as int));
    }
    assert forall|k1: int, k2: int| 0 <= k1 < k2 < l2o.len() implies l2o[k1] != l2o[k2] by {
        lemma_lex_sorted_injective(y_ord, l2o, d2, k1, k2);
    }
}

/// Every pair the join emits satisfies the oracle: the first operator holds
/// of the x-values, the second of the y-values, and all four are non-null.
#[verifier::rlimit(100)]
pub proof fn lemma_kernel_sound(
    xl: Seq<Option<i64>>,
    yl: Seq<Option<i64>>,
    xr: Seq<Option<i64>>,
    yr: Seq<Option<i64>>,
    op1: InequalityOperator,
    op2: InequalityOperator,
    pr: (int, int),
)
    requires
        join_inputs_ok(xl, yl, xr, yr),
        emits(iejoin_pairs_full(xl, yl, xr, yr, op1, op2), pr),
    ensures
        oracle_match(xl, yl, xr, yr, op1, op2, pr.0, pr.1),
{
    lemma_setup_facts(xl, yl, xr, yr, op1, op2);
    let x = xl + xr;
    let y = yl + yr;
    let nl = xl.len() as int;
    let nr = xr.len() as int;
    let d2 = l2_descending(op2);
    let l1o = l1_order_spec(x, op1);
    let l1 = l1_of(x, l1o, nl);
    let y_ord = y_ordered_spec(y, l1o);
    let l2o = l2_order_spec(y_ord, op2);
    let n2 = l2o.len() as int;

    // the witnessing left entry `s` (at L1 position `p`), its visibility
    // time `v`, and the visited position `b` it matched
    let (s, b, v): (int, int, int) = if is_strict_op(op2) {
        lemma_strict_pairs_emits(l1, l2o, op1, n2, pr);
        let (s, b) = choose|s: int, b: int| {
            &&& 0 <= s < n2
            &&& l1[l2o[s] as int].row_index > 0
            &&& #[trigger] eligible_bit(l1, bits_after(l1, l2o, s), l2o[s] as int, op1, b)
            &&& pr == decoded_pair(l1, l2o[s] as int, b)
        };
        (s, b, s)
    } else {
        lemma_ns_pairs_emits(l1, y_ord, l2o, op1, n2, pr);
        let (s, b) = choose|s: int, b: int| {
            &&& 0 <= s < n2
            &&& l1[l2o[s] as int].row_index > 0
            &&& #[trigger] eligible_bit(l1, bits_after(l1, l2o, flush_point(y_ord, l2o, s)), l2o[s] as int, op1, b)
            &&& pr == decoded_pair(l1, l2o[s] as int, b)
        };
        lemma_flush_point_range(y_ord, l2o, s);
        (s, b, flush_point(y_ord, l2o, s))
    };
    let p = l2o[s] as int;
    assert(0 <= p < l1.len());
    assert(l1[p].row_index > 0);
    assert(eligible_bit(l1, bits_after(l1, l2o, v), p, op1, b));
    assert(s <= v <= n2);

    // decode the left side
    assert(l1[p].row_index == sign_row_index(l1o[p] as int, nl));
    let i = l1o[p] as int;
    assert(i < nl);
    assert(pr.0 == i);
    assert(x[i] == xl[i]);
    assert(xl[i] is Some && xl[i]->0 == l1[p].value);

    // decode the right side
    lemma_bits_after_iff(l1, l2o, v, b);
    assert(l1[b].row_index < 0);
    let u = choose|u: int| 0 <= u < v && #[trigger] l2o[u] as int == b;
    assert(l1[b].row_index == sign_row_index(l1o[b] as int, nl));
    let j = l1o[b] as int - nl;
    assert(0 <= j < nr);
    assert(pr.1 == j);
    assert(x[nl + j] == xr[j]);
    assert(xr[j] is Some && xr[j]->0 == l1[b].value);

    // the first operator holds by eligibility
    assert(op_holds(op1, xl[i]->0 as int, xr[j]->0 as int));

    // the y-values exist on both sides
    assert(y_ord[p] == y[i]);
    assert(y[i] == yl[i]);
    assert(y_ord[p] is Some);
    assert(y_ord[b] == y[nl + j]);
    assert(y[nl + j] == yr[j]);
    assert(y_ord[b] is Some);
    let vp = y_ord[p]->0 as int;
    let vb = y_ord[b]->0 as int;

    // the second operator holds by the position of `u` in the walk
    assert(p != b);
    assert(u != s);
    if u < s {
        assert(null_key_lt(y_ord[l2o[u] as int], y_ord[l2o[s] as int], d2)
            || (key_eq(y_ord[l2o[u] as int], y_ord[l2o[s] as int]) && l2o[u] < l2o[s]));
        if key_eq(y_ord[b], y_ord[p]) && b < p {
            // a visited position before the left entry cannot satisfy the
            // first operator: stability puts left entries first
            lemma_bits_after_right(l1, l2o, v);
            lemma_no_eligible_before(l1, bits_after(l1, l2o, v), p, op1);
            assert(false);
        }
        assert(op_holds(op2, vp, vb));
    } else {
        // within the same run of equal y-values: only the run-aware walk
        // marks positions ahead of the entry
        assert(!is_strict_op(op2));
        lemma_flush_point_eq(y_ord, l2o, s, u);
        assert(y_ord[b] == y_ord[p]);
        assert(op_holds(op2, vp, vb));
    }
    assert(op_holds(op2, yl[i]->0 as int, yr[j]->0 as int));
}

/// Every pair the oracle accepts is emitted by the join.
#[verifier::rlimit(100)]
pub proof fn lemma_kernel_complete(
    xl: Seq<Option<i64>>,
    yl: Seq<Option<i64>>,
    xr: Seq<Option<i64>>,
    yr: Seq<Option<i64>>,
    op1: InequalityOperator,
    op2: InequalityOperator,
    i: int,
    j: int,
)
    requires
        join_inputs_ok(xl, yl, xr, yr),
        oracle_match(xl, yl, xr, yr, op1, op2, i, j),
    ensures
        emits(iejoin_pairs_full(xl, yl, xr, yr, op1, op2), (i, j)),
{
    lemma_setup_facts(xl, yl, xr, yr, op1, op2);
    let x = xl + xr;
    let y = yl + yr;
    let nl = xl.len() as int;
    let nr = xr.len() as int;
    let d2 = l2_descending(op2);
    let l1o = l1_order_spec(x, op1);
    let l1 = l1_of(x, l1o, nl);
    let y_ord = y_ordered_spec(y, l1o);
    let l2o = l2_order_spec(y_ord, op2);
    let n2 = l2o.len() as int;

    // the two rows appear in L1
    assert(x[i] == xl[i]);
    assert(contains_pos(l1o, i));
    let p = choose|p: int| 0 <= p < l1o.len() && #[trigger] l1o[p] as int == i;
    assert(x[nl + j] == xr[j]);
    assert(contains_pos(l1o, nl + j));
    let b = choose|b: int| 0 <= b < l1o.len() && #[trigger] l1o[b] as int == nl + j;
    assert(l1[p].row_index == sign_row_index(i, nl));
    assert(l1[p].row_index > 0);
    assert(l1[b].row_index == sign_row_index(nl + j, nl));
    assert(l1[b].row_index < 0);
    assert(p != b);

    // both appear in the L2 walk
    assert(y_ord[p] == y[i] && y[i] == yl[i]);
    assert(contains_pos(l2o, p));
    let es = choose|es: int| 0 <= es < l2o.len() && #[trigger] l2o[es] as int == p;
    assert(y_ord[b] == y[nl + j] && y[nl + j] == yr[j]);
    assert(contains_pos(l2o, b));
    let u = choose|u: int| 0 <= u < l2o.len() && #[trigger] l2o[u] as int == b;
    assert(u != es);
    let vp = y_ord[p]->0 as int;
    let vb = y_ord[b]->0 as int;
    assert(vp == yl[i]->0 as int && vb == yr[j]->0 as int);

    // the visited position is marked before the left entry emits
    let v: int = if is_strict_op(op2) { es } else { flush_point(y_ord, l2o, es) };
    if !is_strict_op(op2) {
        lemma_flush_point_range(y_ord, l2o, es);
    }
    assert(es <= v <= n2);
    if u >= v {
        // impossible: the walk order would contradict the second operator
        if u > es {
            assert(null_key_lt(y_ord[l2o[es] as int], y_ord[l2o[u] as int], d2)
                || (key_eq(y_ord[l2o[es] as int], y_ord[l2o[u] as int]) && l2o[es] < l2o[u]));
        }
        if is_strict_op(op2) {
            // strict: the right row's y-value comes strictly earlier
            assert(u > es);
            assert(false);
        } else {
            let fp = flush_point(y_ord, l2o, es);
            if vp == vb {
                // equal y-values lie inside one run, before its flush point
                assert(fp <= u < n2);
                lemma_flush_point_boundary(y_ord, l2o, es);
                lemma_flush_point_eq(y_ord, l2o, es, fp - 1);
                assert(y_ord[l2o[fp] as int] != y_ord[l2o[es] as int]);
                if u == fp {
                    assert(false);
                } else {
                    assert(y_ord[l2o[fp] as int] is Some);
                    let vfp = y_ord[l2o[fp] as int]->0 as int;
                    assert(null_key_lt(y_ord[l2o[es] as int], y_ord[l2o[fp] as int], d2)
                        || (key_eq(y_ord[l2o[es] as int], y_ord[l2o[fp] as int]) && l2o[es] < l2o[fp]));
                    assert(null_key_lt(y_ord[l2o[fp] as int], y_ord[l2o[u] as int], d2)
                        || (key_eq(y_ord[l2o[fp] as int], y_ord[l2o[u] as int]) && l2o[fp] < l2o[u]));
                    assert(false);
                }
            } else {
                // unequal y-values: the sort places the right row earlier
                assert(u > es);
                assert(false);
            }
        }
    }
    assert(0 <= u < v);
    lemma_bits_after_iff(l1, l2o, v, b);
    assert(bits_after(l1, l2o, v)[b]);

    // the emitted pair decodes to the oracle rows
    assert(l1[p].value == x[i]->0 && x[i]->0 == xl[i]->0);
    assert(l1[b].value == x[nl + j]->0 && x[nl + j]->0 == xr[j]->0);
    assert(eligible_bit(l1, bits_after(l1, l2o, v), p, op1, b));
    assert((i, j) == decoded_pair(l1, p, b));
    if is_strict_op(op2) {
        lemma_strict_pairs_emits(l1, l2o, op1, n2, (i, j));
        assert(eligible_bit(l1, bits_after(l1, l2o, es), l2o[es] as int, op1, b));
    } else {
        lemma_ns_pairs_emits(l1, y_ord, l2o, op1, n2, (i, j));
        assert(eligible_bit(
            l1, bits_after(l1, l2o, flush_point(y_ord, l2o, es)), l2o[es] as int, op1, b,
        ));
    }
}

/// Distinct row identifiers in L1.
pub open spec fn rids_distinct(l1: Seq<crate::l1::L1Item>) -> bool {
    forall|k1: int, k2: int| 0 <= k1 < k2 < l1.len()
        ==> (#[trigger] l1[k1]).row_index != (#[trigger] l1[k2]).row_index
}

/// One left entry emits no pair twice.
proof fn lemma_entry_pairs_distinct(
    l1: Seq<crate::l1::L1Item>,
    bits: Seq<bool>,
    i: int,
    op1: InequalityOperator,
    n: int,
)
    requires
        rids_distinct(l1),
        0 <= n <= l1.len(),
    ensures
        forall|k1: int, k2: int| 0 <= k1 < k2 < entry_pairs_upto(l1, bits, i, op1, n).len()
            ==> #[trigger] entry_pairs_upto(l1, bits, i, op1, n)[k1]
                != #[trigger] entry_pairs_upto(l1, bits, i, op1, n)[k2],
    decreases n,
{
    if n > 0 {
        lemma_entry_pairs_distinct(l1, bits, i, op1, n - 1);
        let ep = entry_pairs_upto(l1, bits, i, op1, n);
        let epp = entry_pairs_upto(l1, bits, i, op1, n - 1);
        assert forall|k1: int, k2: int| 0 <= k1 < k2 < ep.len()
            implies #[trigger] ep[k1] != #[trigger] ep[k2] by {
            if k2 < epp.len() {
                assert(ep[k1] == epp[k1] && ep[k2] == epp[k2]);
            } else {
                // the new pair names a fresh visited position
                assert(eligible_bit(l1, bits, i, op1, n - 1));
                assert(ep[k2] == decoded_pair(l1, i, n - 1));
                assert(ep[k1] == epp[k1]);
                assert(emits(epp, ep[k1]));
                lemma_entry_pairs_emits(l1, bits, i, op1, n - 1, ep[k1]);
                let b = choose|b: int| 0 <= b < n - 1
                    && #[trigger] eligible_bit(l1, bits, i, op1, b)
                    && ep[k1] == decoded_pair(l1, i, b);
                assert(l1[b].row_index != l1[n - 1].row_index);
            }
        }
    }
}

/// The strict walk emits no pair twice.
proof fn lemma_strict_pairs_distinct(
    l1: Seq<crate::l1::L1Item>,
    l2: Seq<usize>,
    op1: InequalityOperator,
    t: int,
)
    requires
        perm_bounds(l2, l1.len() as int),
        rids_distinct(l1),
        forall|k1: int, k2: int| 0 <= k1 < k2 < l2.len() ==> l2[k1] != l2[k2],
        0 <= t <= l2.len(),
    ensures
        forall|k1: int, k2: int| 0 <= k1 < k2 < crate::l2::strict_pairs(l1, l2, op1, t).len()
            ==> #[trigger] crate::l2::strict_pairs(l1, l2, op1, t)[k1]
                != #[trigger] crate::l2::strict_pairs(l1, l2, op1, t)[k2],
    decreases t,
{
    if t > 0 {
        lemma_strict_pairs_distinct(l1, l2, op1, t - 1);
        let sp = crate::l2::strict_pairs(l1, l2, op1, t);
        let spp = crate::l2::strict_pairs(l1, l2, op1, t - 1);
        let p = l2[t - 1] as int;
        let bits = bits_after(l1, l2, t - 1);
        lemma_entry_pairs_distinct(l1, bits, p, op1, l1.len() as int);
        assert forall|k1: int, k2: int| 0 <= k1 < k2 < sp.len()
            implies #[trigger] sp[k1] != #[trigger] sp[k2] by {
            if k2 < spp.len() {
                assert(sp[k1] == spp[k1] && sp[k2] == spp[k2]);
            } else {
                assert(l1[p].row_index > 0);
                let ep = crate::l1::entry_pairs(l1, bits, p, op1);
                assert(sp[k2] == ep[k2 - spp.len()]);
                if k1 >= spp.len() {
                    assert(sp[k1] == ep[k1 - spp.len()]);
                } else {
                    // pairs of earlier entries carry other left rows
                    assert(sp[k1] == spp[k1]);
                    assert(emits(spp, sp[k1]));
                    lemma_strict_pairs_emits(l1, l2, op1, t - 1, sp[k1]);
                    let (s, b) = choose|s: int, b: int| {
                        &&& 0 <= s < t - 1
                        &&& l1[l2[s] as int].row_index > 0
                        &&& #[trigger] eligible_bit(l1, bits_after(l1, l2, s), l2[s] as int, op1, b)
                        &&& sp[k1] == decoded_pair(l1, l2[s] as int, b)
                    };
                    assert(l2[s] != l2[t - 1]);
                    assert(l1[l2[s] as int].row_index != l1[p].row_index);
                    assert(emits(ep, sp[k2]));
                    lemma_entry_pairs_emits(l1, bits, p, op1, l1.len() as int, sp[k2]);
                    let b2 = choose|b2: int| 0 <= b2 < l1.len()
                        && #[trigger] eligible_bit(l1, bits, p, op1, b2)
                        && sp[k2] == decoded_pair(l1, p, b2);
                    assert(sp[k1].0 != sp[k2].0);
                }
            }
        }
    }
}

/// The run-aware walk emits no pair twice.
proof fn lemma_ns_pairs_distinct(
    l1: Seq<crate::l1::L1Item>,
    y: Seq<Option<i64>>,
    l2: Seq<usize>,
    op1: InequalityOperator,
    t: int,
)
    requires
        perm_bounds(l2, l1.len() as int),
        rids_distinct(l1),
        forall|k1: int, k2: int| 0 <= k1 < k2 < l2.len() ==> l2[k1] != l2[k2],
        0 <= t <= l2.len(),
    ensures
        forall|k1: int, k2: int| 0 <= k1 < k2 < crate::l2::ns_pairs(l1, y, l2, op1, t).len()
            ==> #[trigger] crate::l2::ns_pairs(l1, y, l2, op1, t)[k1]
                != #[trigger] crate::l2::ns_pairs(l1, y, l2, op1, t)[k2],
    decreases t,
{
    if t > 0 {
        lemma_ns_pairs_distinct(l1, y, l2, op1, t - 1);
        let sp = crate::l2::ns_pairs(l1, y, l2, op1, t);
        let spp = crate::l2::ns_pairs(l1, y, l2, op1, t - 1);
        let p = l2[t - 1] as int;
        let bits = bits_after(l1, l2, flush_point(y, l2, t - 1));
        lemma_entry_pairs_distinct(l1, bits, p, op1, l1.len() as int);
        assert forall|k1: int, k2: int| 0 <= k1 < k2 < sp.len()
            implies #[trigger] sp[k1] != #[trigger] sp[k2] by {
            if k2 < spp.len() {
                assert(sp[k1] == spp[k1] && sp[k2] == spp[k2]);
            } else {
                assert(l1[p].row_index > 0);
                let ep = crate::l1::entry_pairs(l1, bits, p, op1);
                assert(sp[k2] == ep[k2 - spp.len()]);
                if k1 >= spp.len() {
                    assert(sp[k1] == ep[k1 - spp.len()]);
                } else {
                    assert(sp[k1] == spp[k1]);
                    assert(emits(spp, sp[k1]));
                    lemma_ns_pairs_emits(l1, y, l2, op1, t - 1, sp[k1]);
                    let (s, b) = choose|s: int, b: int| {
                        &&& 0 <= s < t - 1
                        &&& l1[l2[s] as int].row_index > 0
                        &&& #[trigger] eligible_bit(l1, bits_after(l1, l2, flush_point(y, l2, s)), l2[s] as int, op1, b)
                        &&& sp[k1] == decoded_pair(l1, l2[s] as int, b)
                    };
                    assert(l2[s] != l2[t - 1]);
                    assert(l1[l2[s] as int].row_index != l1[p].row_index);
                    assert(emits(ep, sp[k2]));
                    lemma_entry_pairs_emits(l1, bits, p, op1, l1.len() as int, sp[k2]);
                    let b2 = choose|b2: int| 0 <= b2 < l1.len()
                        && #[trigger] eligible_bit(l1, bits, p, op1, b2)
                        && sp[k2] == decoded_pair(l1, p, b2);
                    assert(sp[k1].0 != sp[k2].0);
                }
            }
        }
    }
}

/// Correctness against the nested-loop oracle: the join emits exactly the
/// pairs `(i, j)` with `xl[i] op1 xr[j]` and `yl[i] op2 yr[j]` on non-null
/// values, each exactly once. As a sequence of distinct pairs, the emission
/// therefore equals the oracle's match set as a multiset.
pub proof fn lemma_iejoin_matches_oracle(
    xl: Seq<Option<i64>>,
    yl: Seq<Option<i64>>,
    xr: Seq<Option<i64>>,
    yr: Seq<Option<i64>>,
    op1: InequalityOperator,
    op2: InequalityOperator,
)
    requires
        join_inputs_ok(xl, yl, xr, yr),
    ensures
        forall|pr: (int, int)| #[trigger] emits(iejoin_pairs_full(xl, yl, xr, yr, op1, op2), pr)
            ==> oracle_match(xl, yl, xr, yr, op1, op2, pr.0, pr.1),
        forall|i: int, j: int| #[trigger] oracle_match(xl, yl, xr, yr, op1, op2, i, j)
            ==> emits(iejoin_pairs_full(xl, yl, xr, yr, op1, op2), (i, j)),
        forall|k1: int, k2: int| 0 <= k1 < k2 < iejoin_pairs_full(xl, yl, xr, yr, op1, op2).len()
            ==> #[trigger] iejoin_pairs_full(xl, yl, xr, yr, op1, op2)[k1]
                != #[trigger] iejoin_pairs_full(xl, yl, xr, yr, op1, op2)[k2],
{
    let full = iejoin_pairs_full(xl, yl, xr, yr, op1, op2);
    assert forall|pr: (int, int)| #[trigger] emits(full, pr)
        implies oracle_match(xl, yl, xr, yr, op1, op2, pr.0, pr.1) by {
        lemma_kernel_sound(xl, yl, xr, yr, op1, op2, pr);
    }
    assert forall|i: int, j: int| #[trigger] oracle_match(xl, yl, xr, yr, op1, op2, i, j)
        implies emits(full, (i, j)) by {
        lemma_kernel_complete(xl, yl, xr, yr, op1, op2, i, j);
    }
    // no pair twice
    lemma_setup_facts(xl, yl, xr, yr, op1, op2);
    let x = xl + xr;
    let y = yl + yr;
    let nl = xl.len() as int;
    let l1o = l1_order_spec(x, op1);
    let l1 = l1_of(x, l1o, nl);
    let y_ord = y_ordered_spec(y, l1o);
    let l2o = l2_order_spec(y_ord, op2);
    assert forall|k1: int, k2: int| 0 <= k1 < k2 < l1.len() implies
        (#[trigger] l1[k1]).row_index != (#[trigger] l1[k2]).row_index by {
        assert(l1[k1].row_index == sign_row_index(l1o[k1] as int, nl));
        assert(l1[k2].row_index == sign_row_index(l1o[k2] as int, nl));
        assert(l1o[k1] != l1o[k2]);
    }
    if is_strict_op(op2) {
        lemma_strict_pairs_distinct(l1, l2o, op1, l2o.len() as int);
    } else {
        lemma_ns_pairs_distinct(l1, y_ord, l2o, op1, l2o.len() as int);
    }
}

/// Rows with a null in either selected value never appear in the output.
pub proof fn lemma_null_rows_absent(
    xl: Seq<Option<i64>>,
    yl: Seq<Option<i64>>,
    xr: Seq<Option<i64>>,
    yr: Seq<Option<i64>>,
    op1: InequalityOperator,
    op2: InequalityOperator,
    i: int,
    j: int,
)
    requires
        join_inputs_ok(xl, yl, xr, yr),
        0 <= i < xl.len(),
        0 <= j < xr.len(),
        xl[i] is None || yl[i] is None || xr[j] is None || yr[j] is None,
    ensures
        !emits(iejoin_pairs_full(xl, yl, xr, yr, op1, op2), (i, j)),
{
    if emits(iejoin_pairs_full(xl, yl, xr, yr, op1, op2), (i, j)) {
        lemma_kernel_sound(xl, yl, xr, yr, op1, op2, (i, j));
    }
}

/// An empty table on either side gives an empty output.
pub proof fn lemma_empty_inputs(
    xl: Seq<Option<i64>>,
    yl: Seq<Option<i64>>,
    xr: Seq<Option<i64>>,
    yr: Seq<Option<i64>>,
    op1: InequalityOperator,
    op2: InequalityOperator,
)
    requires
        join_inputs_ok(xl, yl, xr, yr),
        xl.len() == 0 || xr.len() == 0,
    ensures
        iejoin_pairs_full(xl, yl, xr, yr, op1, op2).len() == 0,
{
    let full = iejoin_pairs_full(xl, yl, xr, yr, op1, op2);
    if full.len() > 0 {
        assert(emits(full, full[0]));
        lemma_kernel_sound(xl, yl, xr, yr, op1, op2, full[0]);
    }
}

/// Mirroring both operators and swapping the tables transposes the emitted
/// match set.
pub proof fn lemma_iejoin_transpose(
    xl: Seq<Option<i64>>,
    yl: Seq<Option<i64>>,
    xr: Seq<Option<i64>>,
    yr: Seq<Option<i64>>,
    op1: InequalityOperator,
    op2: InequalityOperator,
    i: int,
    j: int,
)
    requires
        join_inputs_ok(xl, yl, xr, yr),
    ensures
        emits(iejoin_pairs_full(xl, yl, xr, yr, op1, op2), (i, j))
            == emits(iejoin_pairs_full(xr, yr, xl, yl, mirror_op(op1), mirror_op(op2)), (j, i)),
{
    lemma_oracle_transpose(xl, yl, xr, yr, op1, op2, i, j);
    if emits(iejoin_pairs_full(xl, yl, xr, yr, op1, op2), (i, j)) {
        lemma_kernel_sound(xl, yl, xr, yr, op1, op2, (i, j));
        lemma_kernel_complete(xr, yr, xl, yl, mirror_op(op1), mirror_op(op2), j, i);
    }
    if emits(iejoin_pairs_full(xr, yr, xl, yl, mirror_op(op1), mirror_op(op2)), (j, i)) {
        lemma_kernel_sound(xr, yr, xl, yl, mirror_op(op1), mirror_op(op2), (j, i));
        lemma_kernel_complete(xl, yl, xr, yr, op1, op2, i, j);
    }
}

} // verus!
