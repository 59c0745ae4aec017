use iejoin::join::{iejoin, IEJoinError};
use iejoin::ops::{IEJoinOptions, InequalityOperator};

fn col(vals: &[i64]) -> Vec<Option<i64>> {
    vals.iter().map(|v| Some(*v)).collect()
}

fn run(
    xl: &[i64],
    yl: &[i64],
    xr: &[i64],
    yr: &[i64],
    op1: InequalityOperator,
    op2: InequalityOperator,
    slice: Option<(i64, usize)>,
) -> Vec<(usize, usize)> {
    let left = vec![col(xl), col(yl)];
    let right = vec![col(xr), col(yr)];
    let options = IEJoinOptions { operator1: op1, operator2: op2 };
    let (lids, rids) = iejoin(&left, &right, &options, slice).unwrap();
    assert_eq!(lids.len(), rids.len());
    lids.into_iter().zip(rids.into_iter()).collect()
}

fn sorted(mut pairs: Vec<(usize, usize)>) -> Vec<(usize, usize)> {
    pairs.sort();
    pairs
}

#[test]
fn s1_lt_gt_no_matches() {
    let pairs = run(
        &[1, 2, 3],
        &[10, 20, 30],
        &[2, 3, 4],
        &[15, 25, 35],
        InequalityOperator::Lt,
        InequalityOperator::Gt,
        None,
    );
    assert!(pairs.is_empty());
}

#[test]
fn s2_lt_lt_six_matches() {
    let pairs = run(
        &[1, 2, 3],
        &[10, 20, 30],
        &[2, 3, 4],
        &[15, 25, 35],
        InequalityOperator::Lt,
        InequalityOperator::Lt,
        None,
    );
    assert_eq!(pairs.len(), 6);
    assert_eq!(
        sorted(pairs),
        vec![(0, 0), (0, 1), (0, 2), (1, 1), (1, 2), (2, 2)]
    );
}

#[test]
fn s3_lteq_lteq_duplicates() {
    let pairs = run(
        &[1, 1, 2],
        &[5, 5, 6],
        &[1, 2],
        &[5, 6],
        InequalityOperator::LtEq,
        InequalityOperator::LtEq,
        None,
    );
    assert_eq!(pairs.len(), 5);
    assert_eq!(sorted(pairs), vec![(0, 0), (0, 1), (1, 0), (1, 1), (2, 1)]);
}

#[test]
fn s4_strict_no_self_match() {
    let pairs = run(
        &[1, 2],
        &[1, 2],
        &[1, 2],
        &[1, 2],
        InequalityOperator::Lt,
        InequalityOperator::Lt,
        None,
    );
    assert_eq!(pairs, vec![(0, 1)]);
}

#[test]
fn s5_slice_of_s2() {
    let full = run(
        &[1, 2, 3],
        &[10, 20, 30],
        &[2, 3, 4],
        &[15, 25, 35],
        InequalityOperator::Lt,
        InequalityOperator::Lt,
        None,
    );
    let part = run(
        &[1, 2, 3],
        &[10, 20, 30],
        &[2, 3, 4],
        &[15, 25, 35],
        InequalityOperator::Lt,
        InequalityOperator::Lt,
        Some((1, 3)),
    );
    assert_eq!(part.len(), 3);
    assert_eq!(part, full[1..4].to_vec());
}

#[test]
fn s6_invalid_arity() {
    let left = vec![col(&[1, 2, 3])];
    let right = vec![col(&[2, 3, 4]), col(&[15, 25, 35])];
    let options = IEJoinOptions::default();
    let r = iejoin(&left, &right, &options, None);
    assert_eq!(r.unwrap_err(), IEJoinError::InvalidArityLeft);
}

#[test]
fn invalid_arity_right() {
    let left = vec![col(&[1, 2]), col(&[3, 4])];
    let right = vec![col(&[2, 3]), col(&[15, 25]), col(&[1, 1])];
    let options = IEJoinOptions::default();
    let r = iejoin(&left, &right, &options, None);
    assert_eq!(r.unwrap_err(), IEJoinError::InvalidArityRight);
}

#[test]
fn invalid_arity_messages() {
    assert_eq!(
        IEJoinError::InvalidArityLeft.message(),
        "IEJoin requires exactly two expressions from the left DataFrame"
    );
    assert_eq!(
        IEJoinError::InvalidArityRight.message(),
        "IEJoin requires exactly two expressions from the right DataFrame"
    );
}

#[test]
fn empty_left_gives_empty_output() {
    let pairs = run(
        &[],
        &[],
        &[1, 2],
        &[3, 4],
        InequalityOperator::LtEq,
        InequalityOperator::GtEq,
        None,
    );
    assert!(pairs.is_empty());
}

#[test]
fn empty_right_gives_empty_output() {
    let pairs = run(
        &[1, 2],
        &[3, 4],
        &[],
        &[],
        InequalityOperator::Gt,
        InequalityOperator::Lt,
        None,
    );
    assert!(pairs.is_empty());
}

#[test]
fn null_rows_never_match() {
    let left = vec![
        vec![Some(1), None, Some(3)],
        vec![Some(10), Some(20), None],
    ];
    let right = vec![
        vec![Some(2), Some(3), Some(4)],
        vec![Some(15), Some(25), Some(35)],
    ];
    let options = IEJoinOptions { operator1: InequalityOperator::Lt, operator2: InequalityOperator::Lt };
    let (lids, rids) = iejoin(&left, &right, &options, None).unwrap();
    // only left row 0 has both values; it matches every right row
    let pairs = sorted(lids.into_iter().zip(rids.into_iter()).collect());
    assert_eq!(pairs, vec![(0, 0), (0, 1), (0, 2)]);
}

#[test]
fn defaults_are_both_lt() {
    let options = IEJoinOptions::default();
    assert_eq!(options.operator1, InequalityOperator::Lt);
    assert_eq!(options.operator2, InequalityOperator::Lt);
    assert!(InequalityOperator::Lt.is_strict());
    assert!(InequalityOperator::Gt.is_strict());
    assert!(!InequalityOperator::LtEq.is_strict());
    assert!(!InequalityOperator::GtEq.is_strict());
}

#[test]
fn negative_slice_offset_counts_from_end() {
    let data: (&[i64], &[i64], &[i64], &[i64]) =
        (&[1, 2, 3], &[10, 20, 30], &[2, 3, 4], &[15, 25, 35]);
    let full = run(data.0, data.1, data.2, data.3, InequalityOperator::Lt, InequalityOperator::Lt, None);
    let tail = run(
        data.0, data.1, data.2, data.3,
        InequalityOperator::Lt,
        InequalityOperator::Lt,
        Some((-2, 2)),
    );
    assert_eq!(tail, full[full.len() - 2..].to_vec());
}

#[test]
fn slice_longer_than_output_is_clamped() {
    let full = run(
        &[1, 2, 3],
        &[10, 20, 30],
        &[2, 3, 4],
        &[15, 25, 35],
        InequalityOperator::Lt,
        InequalityOperator::Lt,
        None,
    );
    let clamped = run(
        &[1, 2, 3],
        &[10, 20, 30],
        &[2, 3, 4],
        &[15, 25, 35],
        InequalityOperator::Lt,
        InequalityOperator::Lt,
        Some((4, 100)),
    );
    assert_eq!(clamped, full[4..].to_vec());
}
