use iejoin::join::iejoin;
use iejoin::ops::{IEJoinOptions, InequalityOperator};

const OPS: [InequalityOperator; 4] = [
    InequalityOperator::Lt,
    InequalityOperator::LtEq,
    InequalityOperator::Gt,
    InequalityOperator::GtEq,
];

fn op_holds(op: InequalityOperator, a: i64, b: i64) -> bool {
    match op {
        InequalityOperator::Lt => a < b,
        InequalityOperator::LtEq => a <= b,
        InequalityOperator::Gt => a > b,
        InequalityOperator::GtEq => a >= b,
    }
}

fn mirror(op: InequalityOperator) -> InequalityOperator {
    match op {
        InequalityOperator::Lt => InequalityOperator::Gt,
        InequalityOperator::LtEq => InequalityOperator::GtEq,
        InequalityOperator::Gt => InequalityOperator::Lt,
        InequalityOperator::GtEq => InequalityOperator::LtEq,
    }
}

/// A small deterministic generator for test data.
struct Lcg(u64);

impl Lcg {
    fn next_value(&mut self, modulus: i64, null_one_in: u64) -> Option<i64> {
        self.0 = self.0.wrapping_mul(6364136223846793005).wrapping_add(1442695040888963407);
        let v = (self.0 >> 33) as i64;
        if null_one_in > 0 && (v as u64) % null_one_in == 0 {
            None
        } else {
            Some(v % modulus)
        }
    }
}

fn gen_col(seed: u64, n: usize, modulus: i64, null_one_in: u64) -> Vec<Option<i64>> {
    let mut g = Lcg(seed);
    (0..n).map(|_| g.next_value(modulus, null_one_in)).collect()
}

fn oracle(
    xl: &[Option<i64>],
    yl: &[Option<i64>],
    xr: &[Option<i64>],
    yr: &[Option<i64>],
    op1: InequalityOperator,
    op2: InequalityOperator,
) -> Vec<(usize, usize)> {
    let mut out = Vec::new();
    for i in 0..xl.len() {
        for j in 0..xr.len() {
            if let (Some(a), Some(c), Some(b), Some(d)) = (xl[i], yl[i], xr[j], yr[j]) {
                if op_holds(op1, a, b) && op_holds(op2, c, d) {
                    out.push((i, j));
                }
            }
        }
    }
    out.sort();
    out
}

fn run(
    xl: &[Option<i64>],
    yl: &[Option<i64>],
    xr: &[Option<i64>],
    yr: &[Option<i64>],
    op1: InequalityOperator,
    op2: InequalityOperator,
    slice: Option<(i64, usize)>,
) -> Vec<(usize, usize)> {
    let left = vec![xl.to_vec(), yl.to_vec()];
    let right = vec![xr.to_vec(), yr.to_vec()];
    let options = IEJoinOptions { operator1: op1, operator2: op2 };
    let (lids, rids) = iejoin(&left, &right, &options, slice).unwrap();
    assert_eq!(lids.len(), rids.len());
    for &l in &lids {
        assert!(l < xl.len());
    }
    for &r in &rids {
        assert!(r < xr.len());
    }
    lids.into_iter().zip(rids.into_iter()).collect()
}

fn check_all_ops(
    xl: &[Option<i64>],
    yl: &[Option<i64>],
    xr: &[Option<i64>],
    yr: &[Option<i64>],
) {
    for op1 in OPS {
        for op2 in OPS {
            let expected = oracle(xl, yl, xr, yr, op1, op2);
            let mut got = run(xl, yl, xr, yr, op1, op2, None);
            got.sort();
            assert_eq!(got, expected, "operators {:?} {:?}", op1, op2);
        }
    }
}

#[test]
fn matches_oracle_small() {
    let xl = gen_col(11, 23, 7, 0);
    let yl = gen_col(12, 23, 5, 0);
    let xr = gen_col(13, 31, 7, 0);
    let yr = gen_col(14, 31, 5, 0);
    check_all_ops(&xl, &yl, &xr, &yr);
}

#[test]
fn matches_oracle_with_nulls() {
    let xl = gen_col(21, 29, 6, 4);
    let yl = gen_col(22, 29, 4, 3);
    let xr = gen_col(23, 17, 6, 4);
    let yr = gen_col(24, 17, 4, 3);
    check_all_ops(&xl, &yl, &xr, &yr);
}

#[test]
fn matches_oracle_duplicate_blocks() {
    // large blocks of equal keys on both axes
    let xl = gen_col(31, 40, 2, 0);
    let yl = gen_col(32, 40, 2, 0);
    let xr = gen_col(33, 40, 2, 0);
    let yr = gen_col(34, 40, 2, 0);
    check_all_ops(&xl, &yl, &xr, &yr);
}

#[test]
fn matches_oracle_wider_range() {
    let xl = gen_col(41, 50, 1000, 10);
    let yl = gen_col(42, 50, 1000, 10);
    let xr = gen_col(43, 45, 1000, 10);
    let yr = gen_col(44, 45, 1000, 10);
    check_all_ops(&xl, &yl, &xr, &yr);
}

#[test]
fn slice_equals_sliced_full_run() {
    let xl = gen_col(51, 20, 5, 0);
    let yl = gen_col(52, 20, 5, 0);
    let xr = gen_col(53, 20, 5, 0);
    let yr = gen_col(54, 20, 5, 0);
    for op1 in OPS {
        for op2 in OPS {
            let full = run(&xl, &yl, &xr, &yr, op1, op2, None);
            for (offset, len) in [(0i64, 3usize), (2, 5), (5, 1000), (-3, 2), (-100, 4), (1000, 2)] {
                let part = run(&xl, &yl, &xr, &yr, op1, op2, Some((offset, len)));
                let total = full.len() as i64;
                let start = if offset >= 0 {
                    offset.min(total)
                } else {
                    (total + offset).max(0)
                } as usize;
                let wlen = len.min(full.len() - start);
                assert_eq!(part, full[start..start + wlen].to_vec());
            }
        }
    }
}

#[test]
fn transpose_symmetry() {
    let xl = gen_col(61, 18, 4, 5);
    let yl = gen_col(62, 18, 4, 5);
    let xr = gen_col(63, 22, 4, 5);
    let yr = gen_col(64, 22, 4, 5);
    for op1 in OPS {
        for op2 in OPS {
            let mut direct = run(&xl, &yl, &xr, &yr, op1, op2, None);
            direct.sort();
            let mut swapped: Vec<(usize, usize)> =
                run(&xr, &yr, &xl, &yl, mirror(op1), mirror(op2), None)
                    .into_iter()
                    .map(|(j, i)| (i, j))
                    .collect();
            swapped.sort();
            assert_eq!(direct, swapped, "operators {:?} {:?}", op1, op2);
        }
    }
}

#[test]
fn output_has_no_duplicate_pairs() {
    let xl = gen_col(71, 25, 3, 0);
    let yl = gen_col(72, 25, 3, 0);
    let xr = gen_col(73, 25, 3, 0);
    let yr = gen_col(74, 25, 3, 0);
    for op1 in OPS {
        for op2 in OPS {
            let mut got = run(&xl, &yl, &xr, &yr, op1, op2, None);
            let n = got.len();
            got.sort();
            got.dedup();
            assert_eq!(got.len(), n);
        }
    }
}

#[test]
fn extreme_values_match_oracle() {
    let xl = vec![Some(i64::MIN), Some(-1), Some(0), Some(i64::MAX), None];
    let yl = vec![Some(i64::MAX), Some(i64::MIN), Some(5), Some(-3), Some(0)];
    let xr = vec![Some(i64::MIN), Some(2), Some(i64::MAX), None];
    let yr = vec![Some(0), Some(i64::MIN), Some(i64::MAX), Some(1)];
    check_all_ops(&xl, &yl, &xr, &yr);
}
