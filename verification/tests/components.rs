use iejoin::bitarray::FilteredBitArray;
use iejoin::intervals::{compute_page_row_intervals, compute_rows, Interval, IntervalError, PageLocation};
use iejoin::join::{concat_columns, ie_join_impl};
use iejoin::l1::{build_l1_array, find_search_start_index, op_applies, L1Item};
use iejoin::ops::InequalityOperator;
use iejoin::sortperm::{arg_sort, gather_values, key_lt, non_null_order};

#[test]
fn bit_array_set_and_get() {
    let mut bits = FilteredBitArray::from_len_zeroed(200);
    for i in 0..200 {
        assert!(!bits.get_bit(i));
    }
    bits.set_bit(0);
    bits.set_bit(63);
    bits.set_bit(64);
    bits.set_bit(199);
    assert!(bits.get_bit(0));
    assert!(bits.get_bit(63));
    assert!(bits.get_bit(64));
    assert!(bits.get_bit(199));
    assert!(!bits.get_bit(1));
    assert!(!bits.get_bit(65));
}

#[test]
fn bit_array_next_set_bit_skips_zero_words() {
    let mut bits = FilteredBitArray::from_len_zeroed(300);
    bits.set_bit(5);
    bits.set_bit(250);
    assert_eq!(bits.next_set_bit(0), Some(5));
    assert_eq!(bits.next_set_bit(5), Some(5));
    assert_eq!(bits.next_set_bit(6), Some(250));
    assert_eq!(bits.next_set_bit(251), None);
    assert_eq!(bits.next_set_bit(300), None);
}

#[test]
fn arg_sort_is_stable_with_nulls_first() {
    let vals = vec![Some(3), None, Some(1), Some(3), None, Some(2)];
    let asc = arg_sort(&vals, false);
    assert_eq!(asc, vec![1, 4, 2, 5, 0, 3]);
    let desc = arg_sort(&vals, true);
    assert_eq!(desc, vec![1, 4, 0, 3, 5, 2]);
}

#[test]
fn non_null_order_drops_null_positions() {
    let vals = vec![Some(3), None, Some(1), Some(3), None, Some(2)];
    let asc = arg_sort(&vals, false);
    let order = non_null_order(&vals, &asc, false);
    assert_eq!(order, vec![2, 5, 0, 3]);
}

#[test]
fn gather_reads_in_order() {
    let vals = vec![Some(10), None, Some(30)];
    let order = vec![2usize, 0, 1];
    assert_eq!(gather_values(&vals, &order), vec![Some(30), Some(10), None]);
}

#[test]
fn key_lt_orders_nulls_first() {
    assert!(key_lt(&None, &Some(-100), false));
    assert!(key_lt(&None, &Some(-100), true));
    assert!(!key_lt(&Some(1), &None, false));
    assert!(key_lt(&Some(1), &Some(2), false));
    assert!(key_lt(&Some(2), &Some(1), true));
    assert!(!key_lt(&Some(1), &Some(1), false));
    assert!(!key_lt(&None, &None, true));
}

#[test]
fn build_l1_sign_encodes_sides() {
    // x = concat(left [5, 7], right [6]) sorted ascending: 5, 6, 7
    let x = vec![Some(5), Some(7), Some(6)];
    let order = vec![0usize, 2, 1];
    let l1 = build_l1_array(&x, &order, 2);
    assert_eq!(l1.len(), 3);
    assert_eq!((l1[0].row_index, l1[0].value), (1, 5));
    assert_eq!((l1[1].row_index, l1[1].value), (-1, 6));
    assert_eq!((l1[2].row_index, l1[2].value), (2, 7));
}

#[test]
fn search_start_per_operator() {
    // ascending values for Lt/LtEq
    let asc: Vec<L1Item> = [1, 2, 2, 3]
        .iter()
        .enumerate()
        .map(|(k, v)| L1Item { row_index: k as i64 + 1, value: *v })
        .collect();
    // first position whose value the operator accepts against value 2
    assert_eq!(find_search_start_index(&asc, 1, InequalityOperator::Lt), 3);
    assert_eq!(find_search_start_index(&asc, 1, InequalityOperator::LtEq), 1);
    // descending values for Gt/GtEq
    let desc: Vec<L1Item> = [3, 2, 2, 1]
        .iter()
        .enumerate()
        .map(|(k, v)| L1Item { row_index: k as i64 + 1, value: *v })
        .collect();
    assert_eq!(find_search_start_index(&desc, 1, InequalityOperator::Gt), 3);
    assert_eq!(find_search_start_index(&desc, 1, InequalityOperator::GtEq), 1);
}

#[test]
fn op_applies_matches_each_operator() {
    assert!(op_applies(InequalityOperator::Lt, 1, 2));
    assert!(!op_applies(InequalityOperator::Lt, 2, 2));
    assert!(op_applies(InequalityOperator::LtEq, 2, 2));
    assert!(op_applies(InequalityOperator::Gt, 3, 2));
    assert!(!op_applies(InequalityOperator::Gt, 2, 2));
    assert!(op_applies(InequalityOperator::GtEq, 2, 2));
    assert!(!op_applies(InequalityOperator::GtEq, 1, 2));
}

#[test]
fn concat_appends_columns() {
    let a = vec![Some(1), None];
    let b = vec![Some(2)];
    assert_eq!(concat_columns(&a, &b), vec![Some(1), None, Some(2)]);
}

#[test]
fn kernel_emits_in_l2_order() {
    // left rows (x, y): (1,10) (2,20); right rows: (2,15) (3,25)
    // Lt/Lt matches: (0,0) (0,1) (1,1)
    let x = vec![Some(1), Some(2), Some(2), Some(3)];
    let y = vec![Some(10), Some(20), Some(15), Some(25)];
    let l1_sorted = arg_sort(&x, false);
    let l1_order = non_null_order(&x, &l1_sorted, false);
    let y_ordered = gather_values(&y, &l1_order);
    let l2_sorted = arg_sort(&y_ordered, true);
    let l2_order = non_null_order(&y_ordered, &l2_sorted, true);
    let (lids, rids) = ie_join_impl(
        None,
        &l1_order,
        &l2_order,
        InequalityOperator::Lt,
        InequalityOperator::Lt,
        &x,
        &y_ordered,
        2,
    );
    let mut pairs: Vec<(usize, usize)> = lids.into_iter().zip(rids.into_iter()).collect();
    pairs.sort();
    assert_eq!(pairs, vec![(0, 0), (0, 1), (1, 1)]);
}

#[test]
fn interval_new_sets_fields() {
    let iv = Interval::new(3, 9);
    assert_eq!(iv.start, 3);
    assert_eq!(iv.length, 9);
}

fn loc(first_row_index: i64) -> PageLocation {
    PageLocation { offset: 0, compressed_page_size: 0, first_row_index }
}

#[test]
fn page_row_intervals_of_three_pages() {
    let locations = vec![loc(0), loc(10), loc(25)];
    let r = compute_page_row_intervals(&locations, 40).unwrap();
    assert_eq!(r, vec![Interval::new(0, 10), Interval::new(10, 15), Interval::new(25, 15)]);
}

#[test]
fn page_row_intervals_empty() {
    let r = compute_page_row_intervals(&Vec::new(), 40).unwrap();
    assert!(r.is_empty());
}

#[test]
fn page_row_intervals_negative_start_is_out_of_range() {
    let locations = vec![loc(-1), loc(10)];
    let r = compute_page_row_intervals(&locations, 40);
    assert_eq!(r.unwrap_err(), IntervalError::OutOfRange);
}

#[test]
fn page_row_intervals_decreasing_starts_are_out_of_range() {
    let locations = vec![loc(20), loc(10)];
    let r = compute_page_row_intervals(&locations, 40);
    assert_eq!(r.unwrap_err(), IntervalError::OutOfRange);
}

#[test]
fn page_row_intervals_start_past_rows_is_out_of_spec() {
    let locations = vec![loc(0), loc(50)];
    let r = compute_page_row_intervals(&locations, 40);
    assert_eq!(r.unwrap_err(), IntervalError::OutOfSpec);
}

#[test]
fn compute_rows_keeps_selected_pages() {
    let locations = vec![loc(0), loc(10), loc(25)];
    let selected = vec![true, false, true];
    let r = compute_rows(&selected, &locations, 40).unwrap();
    assert_eq!(r, vec![Interval::new(0, 10), Interval::new(25, 15)]);
}
