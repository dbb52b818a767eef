use causality::fixed::{SCALE, LN2, fadd, fsub, fmul, fdiv, fln};
use causality::kl::kl_divergence;
use causality::linalg::Matrix;
use causality::partition::Partition;

#[test]
fn fixed_basic_ops() {
    assert_eq!(fadd(SCALE, SCALE), 2 * SCALE);
    assert_eq!(fsub(SCALE, 3 * SCALE), -2 * SCALE);
    assert_eq!(fmul(2 * SCALE, 3 * SCALE), 6 * SCALE);
    assert_eq!(fdiv(6 * SCALE, 3 * SCALE), 2 * SCALE);
    assert_eq!(fdiv(SCALE, 0), 0);
}

#[test]
fn fixed_log_of_two() {
    let l = fln(2 * SCALE);
    assert!((l - LN2).abs() <= 4);
    assert_eq!(fln(SCALE), 0);
}

#[test]
fn kl_of_equal_rates_is_zero() {
    assert_eq!(kl_divergence(SCALE / 2, SCALE / 2), 0);
    // a gap between the rates scores strictly positive
    let d = kl_divergence(4 * SCALE / 5, SCALE / 5);
    assert!(d > SCALE / 2);
}

#[test]
fn matrix_add_subtract() {
    let a = Matrix::new(&vec![vec![SCALE, 2 * SCALE], vec![3 * SCALE, 4 * SCALE]]);
    let b = Matrix::new(&vec![vec![SCALE, SCALE], vec![SCALE, SCALE]]);
    let s = a.add(&b);
    assert_eq!(s.get_data()[0], vec![2 * SCALE, 3 * SCALE]);
    let d = s.subtract(&b);
    assert_eq!(d.get_data(), a.get_data());
    assert_eq!(a.shape(), (2, 2));
    assert_eq!(a.get_nth_row(1), vec![3 * SCALE, 4 * SCALE]);
    assert_eq!(a.get_nth_column(0), vec![SCALE, 3 * SCALE]);
}

#[test]
fn matrix_divide_and_sum() {
    let a = Matrix::new(&vec![vec![4 * SCALE, 9 * SCALE]]);
    let b = Matrix::new(&vec![vec![2 * SCALE, 0]]);
    let q = a.divide(&b);
    assert_eq!(q.get_data()[0], vec![2 * SCALE, 0]);
    let h = a.divide_scalar(2 * SCALE);
    assert_eq!(h.get_data()[0], vec![2 * SCALE, 9 * SCALE / 2]);
    assert_eq!(a.sum(1), vec![13 * SCALE]);
    assert_eq!(a.sum(0), vec![4 * SCALE, 9 * SCALE]);
}

#[test]
fn partition_split_covers_parent() {
    let mut p = Partition::subsample(vec![5, 3, 8, 1]);
    p.split(0, 2);
    assert_eq!(p.start, vec![0, 0, 2]);
    assert_eq!(p.size, vec![4, 2, 2]);
    let left = p.get_indices(1);
    let right = p.get_indices(2);
    let mut both = left.clone();
    both.extend(right);
    assert_eq!(both, vec![5, 3, 8, 1]);
}

#[test]
fn partition_refresh_is_identity() {
    let p = Partition::refresh(5, 3);
    assert_eq!(p.data_ids, vec![0, 1, 2, 3, 4]);
    assert_eq!(p.start[0], 0);
    assert_eq!(p.size, vec![5, 0, 0]);
}

#[test]
fn partition_set_indices_keeps_rest() {
    let mut p = Partition::subsample(vec![4, 5, 6, 7]);
    p.split(0, 2);
    p.set_indices(1, &vec![5, 4]);
    assert_eq!(p.data_ids, vec![5, 4, 6, 7]);
}
