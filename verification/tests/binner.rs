use causality::bin::{ContinuousBin, DiscreteBin};

fn keys(vals: &[Option<i64>]) -> Vec<Option<i64>> {
    vals.to_vec()
}

#[test]
fn trivial_binner() {
    // values 1.0, 2.0, 3.0, 4.0 as order keys, two target bins
    let mut bin = ContinuousBin::new(2, None);
    let col = keys(&[Some(1), Some(2), Some(3), Some(4)]);
    bin.fit(&col);
    assert_eq!(bin.threshold, vec![2i64]);
    assert_eq!(bin.n_bin, 2);
    let codes = bin.map(&col);
    assert_eq!(codes, vec![Some(0u8), Some(0), Some(1), Some(1)]);
}

#[test]
fn missing_propagation() {
    let mut bin = ContinuousBin::new(2, None);
    bin.fit(&keys(&[Some(1), Some(2)]));
    let codes = bin.map(&keys(&[None, Some(1), Some(2)]));
    assert_eq!(codes, vec![None, Some(0u8), Some(1)]);
}

#[test]
fn categorical_frequency() {
    let mut bin = DiscreteBin::new(2);
    bin.fit(&keys(&[Some(5), Some(5), Some(5), Some(7), Some(7), Some(9)]));
    assert_eq!(bin.mapping, vec![5i64, 7]);
    assert_eq!(bin.n_bin, 3);
    let codes = bin.map(&keys(&[Some(5), Some(7), Some(9), None]));
    assert_eq!(codes, vec![Some(0u8), Some(1), Some(2), None]);
}

#[test]
fn continuous_codes_stay_below_bin_count() {
    let mut bin = ContinuousBin::new(5, None);
    let col: Vec<Option<i64>> = (0..50).map(|v| Some(v)).collect();
    bin.fit(&col);
    assert_eq!(bin.n_bin, bin.threshold.len() + 1);
    for c in bin.map(&col) {
        let c = c.unwrap() as usize;
        assert!(c < bin.n_bin);
    }
}

#[test]
fn continuous_map_is_monotone() {
    let mut bin = ContinuousBin::new(4, None);
    let col: Vec<Option<i64>> = vec![Some(10), Some(20), Some(20), Some(30), Some(40), Some(55)];
    bin.fit(&col);
    let probe: Vec<Option<i64>> = (0..60).map(|v| Some(v)).collect();
    let codes = bin.map(&probe);
    let mut last = 0u8;
    for c in codes {
        let c = c.unwrap();
        assert!(c >= last);
        last = c;
    }
}

#[test]
fn categorical_unseen_gets_catch_all() {
    let mut bin = DiscreteBin::new(10);
    bin.fit(&keys(&[Some(3), Some(3), Some(4)]));
    assert_eq!(bin.n_bin, 2);
    let codes = bin.map(&keys(&[Some(100)]));
    assert_eq!(codes, vec![Some(2u8)]);
}

#[test]
fn categorical_ties_keep_first_occurrence() {
    let mut bin = DiscreteBin::new(4);
    bin.fit(&keys(&[Some(8), Some(6), Some(6), Some(8)]));
    // equal counts: first-seen key first
    assert_eq!(bin.mapping, vec![8i64, 6]);
}
