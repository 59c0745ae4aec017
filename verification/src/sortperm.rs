//! Stable sort permutations over optional numeric values.
//!
//! The join core sorts each concatenated axis with a configurable direction,
//! nulls first, keeping the order of equal keys (a stable sort). The sorted
//! order is produced as a permutation of positions; the null prefix is then
//! dropped, leaving only positions holding values.

use vstd::prelude::*;

verus! {

/// Strict "key before key" order used by the sorts: a null precedes every
/// value, and values are compared ascending or descending.
pub open spec fn null_key_lt(a: Option<i64>, b: Option<i64>, descending: bool) -> bool {
    match (a, b) {
        (Option::None, Option::None) => false,
        (Option::None, Option::Some(_)) => true,
        (Option::Some(_), Option::None) => false,
        (Option::Some(x), Option::Some(y)) => if descending { x > y } else { x < y },
    }
}

/// Keys that compare as equal: two nulls, or the same value.
pub open spec fn key_eq(a: Option<i64>, b: Option<i64>) -> bool {
    match (a, b) {
        (Option::None, Option::None) => true,
        (Option::Some(x), Option::Some(y)) => x == y,
        _ => false,
    }
}

/// `ord` reads `vals` in stably sorted order: positions are ordered by key,
/// and equal keys keep their original relative order.
pub open spec fn lex_sorted(vals: Seq<Option<i64>>, ord: Seq<usize>, descending: bool) -> bool {
    forall|k1: int, k2: int| 0 <= k1 < k2 < ord.len() ==>
        null_key_lt(vals[#[trigger] ord[k1] as int], vals[#[trigger] ord[k2] as int], descending)
        || (key_eq(vals[ord[k1] as int], vals[ord[k2] as int]) && ord[k1] < ord[k2])
}

/// Every element of `ord` is a position below `n`.
pub open spec fn perm_bounds(ord: Seq<usize>, n: int) -> bool {
    forall|k: int| 0 <= k < ord.len() ==> (#[trigger] ord[k] as int) < n
}

/// `ord` has some entry equal to position `v`.
pub open spec fn contains_pos(ord: Seq<usize>, v: int) -> bool {
    exists|k: int| 0 <= k < ord.len() && #[trigger] ord[k] as int == v
}

/// Every position below `n` occurs in `ord`.
pub open spec fn perm_complete(ord: Seq<usize>, n: int) -> bool {
    forall|v: int| 0 <= v < n ==> #[trigger] contains_pos(ord, v)
}

/// Insert position `v` into the already-sorted order `r`: before the first
/// entry whose key is strictly greater, hence after every equal key.
pub open spec fn insert_ord(vals: Seq<Option<i64>>, descending: bool, r: Seq<usize>, v: usize) -> Seq<usize>
    decreases r.len(),
{
    if r.len() == 0 {
        seq![v]
    } else if null_key_lt(vals[v as int], vals[r[0] as int], descending) {
        seq![v] + r
    } else {
        seq![r[0]] + insert_ord(vals, descending, r.subrange(1, r.len() as int), v)
    }
}

/// The stable sort permutation of the first `n` positions of `vals`,
/// built by inserting positions in increasing order.
pub open spec fn sort_perm_rec(vals: Seq<Option<i64>>, descending: bool, n: int) -> Seq<usize>
    decreases n,
{
    if n <= 0 {
        Seq::empty()
    } else {
        insert_ord(vals, descending, sort_perm_rec(vals, descending, n - 1), (n - 1) as usize)
    }
}

/// The stable sort permutation of all positions of `vals`.
pub open spec fn sort_perm_spec(vals: Seq<Option<i64>>, descending: bool) -> Seq<usize> {
    sort_perm_rec(vals, descending, vals.len() as int)
}

/// Inserting a fresh largest position keeps the order sorted and adds
/// exactly that position.
proof fn lemma_insert_ord_props(vals: Seq<Option<i64>>, descending: bool, r: Seq<usize>, v: usize)
    requires
        vals.len() <= usize::MAX,
        (v as int) < vals.len(),
        perm_bounds(r, vals.len() as int),
        lex_sorted(vals, r, descending),
        forall|k: int| 0 <= k < r.len() ==> #[trigger] r[k] < v,
    ensures
        insert_ord(vals, descending, r, v).len() == r.len() + 1,
        perm_bounds(insert_ord(vals, descending, r, v), vals.len() as int),
        lex_sorted(vals, insert_ord(vals, descending, r, v), descending),
        forall|k: int| 0 <= k < insert_ord(vals, descending, r, v).len()
            ==> #[trigger] insert_ord(vals, descending, r, v)[k] <= v,
        forall|w: int| #[trigger] contains_pos(insert_ord(vals, descending, r, v), w)
            <==> (contains_pos(r, w) || w == v as int),
    decreases r.len(),
{
    let r2 = insert_ord(vals, descending, r, v);
    if r.len() == 0 {
        assert(r2 == seq![v]);
        assert(r2[0] == v);
        assert forall|w: int| #[trigger] contains_pos(r2, w)
            <==> (contains_pos(r, w) || w == v as int) by {
            if w == v as int {
                assert(r2[0] as int == w);
            }
        }
    } else if null_key_lt(vals[v as int], vals[r[0] as int], descending) {
        assert(r2 == seq![v] + r);
        assert forall|k1: int, k2: int| 0 <= k1 < k2 < r2.len() implies
            null_key_lt(vals[#[trigger] r2[k1] as int], vals[#[trigger] r2[k2] as int], descending)
            || (key_eq(vals[r2[k1] as int], vals[r2[k2] as int]) && r2[k1] < r2[k2]) by {
            if k1 == 0 {
                assert(r2[k1] == v);
                assert(r2[k2] == r[k2 - 1]);
                if k2 - 1 > 0 {
                    assert(null_key_lt(vals[r[0] as int], vals[r[k2 - 1] as int], descending)
                        || (key_eq(vals[r[0] as int], vals[r[k2 - 1] as int]) && r[0] < r[k2 - 1]));
                }
            } else {
                assert(r2[k1] == r[k1 - 1] && r2[k2] == r[k2 - 1]);
            }
        }
        assert forall|w: int| #[trigger] contains_pos(r2, w)
            <==> (contains_pos(r, w) || w == v as int) by {
            if contains_pos(r2, w) {
                let k = choose|k: int| 0 <= k < r2.len() && #[trigger] r2[k] as int == w;
                if k == 0 {
                    assert(w == v as int);
                } else {
                    assert(r2[k] == r[k - 1]);
                    assert(contains_pos(r, w));
                }
            }
            if contains_pos(r, w) {
                let k = choose|k: int| 0 <= k < r.len() && #[trigger] r[k] as int == w;
                assert(r2[k + 1] as int == w);
                assert(contains_pos(r2, w));
            }
            if w == v as int {
                assert(r2[0] as int == w);
                assert(contains_pos(r2, w));
            }
        }
    } else {
        let tail = r.subrange(1, r.len() as int);
        lemma_insert_ord_props(vals, descending, tail, v);
        let t2 = insert_ord(vals, descending, tail, v);
        assert(r2 == seq![r[0]] + t2);
        // the head's key is at most v's key
        assert(!null_key_lt(vals[v as int], vals[r[0] as int], descending));
        assert forall|k1: int, k2: int| 0 <= k1 < k2 < r2.len() implies
            null_key_lt(vals[#[trigger] r2[k1] as int], vals[#[trigger] r2[k2] as int], descending)
            || (key_eq(vals[r2[k1] as int], vals[r2[k2] as int]) && r2[k1] < r2[k2]) by {
            if k1 == 0 {
                assert(r2[0] == r[0]);
                assert(r2[k2] == t2[k2 - 1]);
                let w = t2[k2 - 1];
                // w is either an old element of tail, or v itself
                assert(t2[k2 - 1] as int == w as int);
                assert(contains_pos(t2, w as int));
                if w == v {
                    // r[0]'s key <= v's key, and r[0] < v
                    assert(r[0] < v);
                } else {
                    assert(contains_pos(tail, w as int));
                    let k = choose|k: int| 0 <= k < tail.len() && #[trigger] tail[k] as int == w as int;
                    assert(tail[k] == r[k + 1]);
                    assert(null_key_lt(vals[r[0] as int], vals[r[k + 1] as int], descending)
                        || (key_eq(vals[r[0] as int], vals[r[k + 1] as int]) && r[0] < r[k + 1]));
                }
            } else {
                assert(r2[k1] == t2[k1 - 1] && r2[k2] == t2[k2 - 1]);
            }
        }
        assert forall|w: int| #[trigger] contains_pos(r2, w)
            <==> (contains_pos(r, w) || w == v as int) by {
            if contains_pos(r2, w) {
                let k = choose|k: int| 0 <= k < r2.len() && #[trigger] r2[k] as int == w;
                if k == 0 {
                    assert(r[0] as int == w);
                    assert(contains_pos(r, w));
                } else {
                    assert(r2[k] == t2[k - 1]);
                    assert(contains_pos(t2, w));
                    if contains_pos(tail, w) {
                        let m = choose|m: int| 0 <= m < tail.len() && #[trigger] tail[m] as int == w;
                        assert(r[m + 1] as int == w);
                        assert(contains_pos(r, w));
                    }
                }
            }
            if contains_pos(r, w) {
                let k = choose|k: int| 0 <= k < r.len() && #[trigger] r[k] as int == w;
                if k == 0 {
                    assert(r2[0] as int == w);
                } else {
                    assert(tail[k - 1] as int == w);
                    assert(contains_pos(tail, w));
                    assert(contains_pos(t2, w));
                    let m = choose|m: int| 0 <= m < t2.len() && #[trigger] t2[m] as int == w;
                    assert(r2[m + 1] as int == w);
                }
                assert(contains_pos(r2, w));
            }
            if w == v as int {
                assert(contains_pos(t2, w));
                let m = choose|m: int| 0 <= m < t2.len() && #[trigger] t2[m] as int == w;
                assert(r2[m + 1] as int == w);
                assert(contains_pos(r2, w));
            }
        }
    }
}

/// The stable sort permutation of the first `n` positions is sorted and
/// contains exactly the positions below `n`.
pub proof fn lemma_sort_perm_rec_props(vals: Seq<Option<i64>>, descending: bool, n: int)
    requires
        0 <= n <= vals.len(),
        vals.len() <= usize::MAX,
    ensures
        sort_perm_rec(vals, descending, n).len() == n,
        perm_bounds(sort_perm_rec(vals, descending, n), n),
        perm_complete(sort_perm_rec(vals, descending, n), n),
        lex_sorted(vals, sort_perm_rec(vals, descending, n), descending),
    decreases n,
{
    if n > 0 {
        lemma_sort_perm_rec_props(vals, descending, n - 1);
        let r = sort_perm_rec(vals, descending, n - 1);
        assert(perm_bounds(r, vals.len() as int));
        lemma_insert_ord_props(vals, descending, r, (n - 1) as usize);
        let r2 = sort_perm_rec(vals, descending, n);
        assert forall|k: int| 0 <= k < r2.len() implies (#[trigger] r2[k] as int) < n by {
            assert(r2[k] <= (n - 1) as usize);
        }
        assert forall|v: int| 0 <= v < n implies #[trigger] contains_pos(r2, v) by {
            if v < n - 1 {
                assert(contains_pos(r, v));
            } else {
                assert(v == (n - 1) as usize as int);
            }
        }
    }
}

/// All properties of the full stable sort permutation.
pub proof fn lemma_sort_perm_spec_props(vals: Seq<Option<i64>>, descending: bool)
    requires
        vals.len() <= usize::MAX,
    ensures
        sort_perm_spec(vals, descending).len() == vals.len(),
        perm_bounds(sort_perm_spec(vals, descending), vals.len() as int),
        perm_complete(sort_perm_spec(vals, descending), vals.len() as int),
        lex_sorted(vals, sort_perm_spec(vals, descending), descending),
{
    lemma_sort_perm_rec_props(vals, descending, vals.len() as int);
}

/// Inserting at the scan position the executable sort found matches the
/// specification-level insertion.
proof fn lemma_insert_ord_at(vals: Seq<Option<i64>>, descending: bool, r: Seq<usize>, v: usize, pos: int)
    requires
        vals.len() <= usize::MAX,
        perm_bounds(r, vals.len() as int),
        (v as int) < vals.len(),
        0 <= pos <= r.len(),
        forall|k: int| 0 <= k < pos ==> !null_key_lt(vals[v as int], vals[#[trigger] r[k] as int], descending),
        pos == r.len() || null_key_lt(vals[v as int], vals[r[pos] as int], descending),
    ensures
        insert_ord(vals, descending, r, v) == r.insert(pos, v),
    decreases r.len(),
{
    if r.len() == 0 {
        assert(insert_ord(vals, descending, r, v) =~= r.insert(0, v));
    } else if pos == 0 {
        assert(null_key_lt(vals[v as int], vals[r[0] as int], descending));
        assert(insert_ord(vals, descending, r, v) =~= r.insert(0, v));
    } else {
        let tail = r.subrange(1, r.len() as int);
        assert(!null_key_lt(vals[v as int], vals[r[0] as int], descending));
        assert forall|k: int| 0 <= k < pos - 1 implies
            !null_key_lt(vals[v as int], vals[#[trigger] tail[k] as int], descending) by {
            assert(tail[k] == r[k + 1]);
        }
        lemma_insert_ord_at(vals, descending, tail, v, pos - 1);
        assert(insert_ord(vals, descending, r, v) =~= r.insert(pos, v));
    }
}

/// Whether `a`'s key sorts strictly before `b`'s.
pub fn key_lt(a: &Option<i64>, b: &Option<i64>, descending: bool) -> (r: bool)
    ensures
        r == null_key_lt(*a, *b, descending),
{
    match (a, b) {
        (Option::None, Option::None) => false,
        (Option::None, Option::Some(_)) => true,
        (Option::Some(_), Option::None) => false,
        (Option::Some(x), Option::Some(y)) => if descending { *x > *y } else { *x < *y },
    }
}

/// Stable sort permutation of `vals` with nulls first: insertion sort on
/// positions, matching the specification permutation exactly.
pub fn arg_sort(vals: &Vec<Option<i64>>, descending: bool) -> (r: Vec<usize>)
    ensures
        r@ == sort_perm_spec(vals@, descending),
        r@.len() == vals@.len(),
        perm_bounds(r@, vals@.len() as int),
        perm_complete(r@, vals@.len() as int),
        lex_sorted(vals@, r@, descending),
{
    let n = vals.len();
    let mut r: Vec<usize> = Vec::new();
    let mut i: usize = 0;
    while i < n
        invariant
            n == vals@.len(),
            i <= n,
            r@ == sort_perm_rec(vals@, descending, i as int),
            r@.len() == i,
            perm_bounds(r@, i as int),
            forall|k: int| 0 <= k < r@.len() ==> #[trigger] r@[k] < i,
        decreases n - i,
    {
        proof {
            lemma_sort_perm_rec_props(vals@, descending, i as int);
        }
        let mut pos: usize = 0;
        while pos < r.len() && !key_lt(&vals[i], &vals[r[pos]], descending)
            invariant
                n == vals@.len(),
                i < n,
                r@.len() <= n,
                perm_bounds(r@, n as int),
                pos <= r@.len(),
                forall|k: int| 0 <= k < pos ==> !null_key_lt(vals@[i as int], vals@[#[trigger] r@[k] as int], descending),
            decreases r@.len() - pos,
        {
            pos += 1;
        }
        proof {
            lemma_insert_ord_at(vals@, descending, r@, i, pos as int);
        }
        r.insert(pos, i);
        i += 1;
    }
    proof {
        lemma_sort_perm_spec_props(vals@, descending);
    }
    r
}

/// The positions of `ord` that hold a value, in order.
pub open spec fn keep_some(vals: Seq<Option<i64>>, ord: Seq<usize>) -> Seq<usize>
    decreases ord.len(),
{
    if ord.len() == 0 {
        Seq::empty()
    } else {
        keep_some(vals, ord.drop_last())
            + if vals[ord.last() as int] is Some { seq![ord.last()] } else { Seq::empty() }
    }
}

/// Keep only the positions of `ord` that hold a value, in order: the sorted
/// order with its null prefix dropped.
pub fn non_null_order(vals: &Vec<Option<i64>>, ord: &Vec<usize>, descending: bool) -> (r: Vec<usize>)
    requires
        perm_bounds(ord@, vals@.len() as int),
        lex_sorted(vals@, ord@, descending),
    ensures
        r@ == keep_some(vals@, ord@),
        perm_bounds(r@, vals@.len() as int),
        forall|k: int| 0 <= k < r@.len() ==> vals@[#[trigger] r@[k] as int] is Some,
        lex_sorted(vals@, r@, descending),
        forall|k: int| 0 <= k < r@.len() ==> ord@.contains(#[trigger] r@[k]),
        forall|k2: int| 0 <= k2 < ord@.len() && vals@[#[trigger] ord@[k2] as int] is Some
            ==> exists|k: int| 0 <= k < r@.len() && #[trigger] r@[k] == ord@[k2],
        r@.len() <= ord@.len(),
    {
    let mut r: Vec<usize> = Vec::new();
    let ghost mut srcs: Seq<int> = Seq::empty();
    let mut k2: usize = 0;
    while k2 < ord.len()
        invariant
            perm_bounds(ord@, vals@.len() as int),
            lex_sorted(vals@, ord@, descending),
            k2 <= ord@.len(),
            srcs.len() == r@.len(),
            r@.len() <= k2,
            forall|m: int| 0 <= m < srcs.len() ==> 0 <= #[trigger] srcs[m] < k2,
            forall|m1: int, m2: int| 0 <= m1 < m2 < srcs.len() ==> #[trigger] srcs[m1] < #[trigger] srcs[m2],
            forall|m: int| 0 <= m < r@.len() ==> #[trigger] r@[m] == ord@[srcs[m]],
            forall|m: int| 0 <= m < r@.len() ==> vals@[#[trigger] r@[m] as int] is Some,
            forall|j: int| 0 <= j < k2 && vals@[#[trigger] ord@[j] as int] is Some
                ==> exists|m: int| 0 <= m < r@.len() && #[trigger] r@[m] == ord@[j],
            r@ == keep_some(vals@, ord@.subrange(0, k2 as int)),
        decreases ord@.len() - k2,
    {
        proof {
            let pre = ord@.subrange(0, k2 as int);
            let cur = ord@.subrange(0, k2 as int + 1);
            assert(cur.drop_last() =~= pre);
            assert(cur.last() == ord@[k2 as int]);
        }
        let idx = ord[k2];
        if vals[idx].is_some() {
            let ghost prev_r = r@;
            r.push(idx);
            proof {
                srcs = srcs.push(k2 as int);
                assert forall|j: int| 0 <= j < k2 as int + 1 && vals@[#[trigger] ord@[j] as int] is Some
                    implies exists|m: int| 0 <= m < r@.len() && #[trigger] r@[m] == ord@[j] by {
                    if j < k2 as int {
                        let m = choose|m: int| 0 <= m < prev_r.len() && #[trigger] prev_r[m] == ord@[j];
                        assert(r@[m] == ord@[j]);
                    } else {
                        assert(r@[r@.len() - 1] == ord@[j]);
                    }
                }
            }
        }
        k2 += 1;
    }
    proof {
        assert(ord@.subrange(0, ord@.len() as int) =~= ord@);
        assert forall|k: int| 0 <= k < r@.len() implies ord@.contains(#[trigger] r@[k]) by {
            assert(ord@[srcs[k]] == r@[k]);
        }
        assert forall|m1: int, m2: int| 0 <= m1 < m2 < r@.len() implies
            null_key_lt(vals@[#[trigger] r@[m1] as int], vals@[#[trigger] r@[m2] as int], descending)
            || (key_eq(vals@[r@[m1] as int], vals@[r@[m2] as int]) && r@[m1] < r@[m2]) by {
            assert(r@[m1] == ord@[srcs[m1]] && r@[m2] == ord@[srcs[m2]]);
            assert(srcs[m1] < srcs[m2]);
        }
    }
    r
}

/// Read `vals` at each position of `ord`, in order.
pub fn gather_values(vals: &Vec<Option<i64>>, ord: &Vec<usize>) -> (r: Vec<Option<i64>>)
    requires
        perm_bounds(ord@, vals@.len() as int),
    ensures
        r@.len() == ord@.len(),
        forall|k: int| 0 <= k < ord@.len() ==> #[trigger] r@[k] == vals@[ord@[k] as int],
{
    let mut r: Vec<Option<i64>> = Vec::new();
    let mut k: usize = 0;
    while k < ord.len()
        invariant
            perm_bounds(ord@, vals@.len() as int),
            k <= ord@.len(),
            r@.len() == k,
            forall|m: int| 0 <= m < k ==> #[trigger] r@[m] == vals@[ord@[m] as int],
        decreases ord@.len() - k,
    {
        r.push(vals[ord[k]]);
        k += 1;
    }
    r
}

} // verus!
