use causality::config::TreeConfig;
use causality::data_loader::{DataLoader, RawValue};
use causality::fixed::SCALE;
use causality::kl::KLStrategy;
use causality::regression::RegressionStrategy;
use causality::rf::RandomForest;
use causality::statistic::Count;
use causality::strategy::Strategy;

fn cell(v: i64) -> Option<RawValue> {
    Some(RawValue { key: v, fix: v * SCALE })
}

fn conf_for(n_tree: usize, normalization: bool) -> TreeConfig {
    TreeConfig {
        index_cols: Vec::new(),
        feature_cols: vec!["f0".to_string()],
        cat_cols: Vec::new(),
        treatment_cols: vec!["t".to_string()],
        y_col: "y".to_string(),
        weight_col: String::new(),
        n_bin: 10,
        min_samples_leaf: 1,
        min_samples_treatment: 1,
        n_reg: 10,
        alpha: 9 * SCALE / 10,
        normalization,
        max_features: 1,
        max_depth: 3,
        n_tree,
        subsample: SCALE,
        n_thread: 1,
        seed: Some(42),
    }
}

fn loader_for(conf: &TreeConfig) -> DataLoader {
    DataLoader::new(
        conf.feature_cols.clone(),
        conf.y_col.clone(),
        conf.treatment_cols.clone(),
        conf.weight_col.clone(),
        conf.cat_cols.clone(),
        conf.n_bin,
        vec![None; conf.feature_cols.len()],
        vec![None; conf.feature_cols.len()],
    )
    .unwrap()
}

/// 200 rows, one binary feature; the positive rate is near 0.2 when the
/// feature is 0 and near 0.8 when it is 1, almost independent of the
/// treatment, so the feature carries the signal and the leaf uplift is
/// close to zero.
fn kl_rows() -> (Vec<String>, Vec<Vec<Option<RawValue>>>) {
    let headers = vec!["f0".to_string(), "t".to_string(), "y".to_string()];
    let mut arr = Vec::new();
    let mut seen = [[0usize; 2]; 2];
    for i in 0..200usize {
        let f = if i < 100 { 0usize } else { 1 };
        let t = i % 2;
        let rank = seen[f][t];
        seen[f][t] += 1;
        let pos = match (f, t) {
            (0, 1) => rank < 11,
            (0, 0) => rank < 9,
            (1, 1) => rank < 39,
            _ => rank < 41,
        };
        let y = if pos { 1 } else { 0 };
        arr.push(vec![cell(f as i64), cell(t as i64), cell(y)]);
    }
    (headers, arr)
}

#[test]
fn kl_best_split_synthetic() {
    let conf = conf_for(1, false);
    let mut loader = loader_for(&conf);
    let (headers, arr) = kl_rows();
    let m = loader.from_memory(&headers, &Vec::new(), &arr).unwrap();

    // grow one tree on the full row set, so the rates are exact
    let mut learn = causality::learn::TreeLearn::new(&conf, Strategy::Kl(KLStrategy::new(&conf)));
    learn.partition = causality::partition::Partition::subsample((0..200).collect());
    let mut random = causality::random::Random::new(causality::random::rng_from_seed(42));
    learn.grow_tree(0, &m, &conf, &mut random);

    // the root must split on the single informative feature
    let root = learn.tree.split[0].as_ref().unwrap();
    assert!(root.value.is_some());
    assert_eq!(root.feature_id, 0);

    // uplift at the leaves is close to zero
    let score = learn.predict(&m);
    assert_eq!(score.len(), 200);
    for row in &score {
        assert_eq!(row.len(), 1);
        assert!(row[0].abs() <= SCALE / 20, "uplift {} too large", row[0]);
    }
}

/// 200 rows; the response is exactly 2.0 under treatment and 1.0 under
/// control, independent of the feature.
fn reg_rows() -> (Vec<String>, Vec<Vec<Option<RawValue>>>) {
    let headers = vec!["f0".to_string(), "t".to_string(), "y".to_string()];
    let mut arr = Vec::new();
    for i in 0..200usize {
        let f = (i % 7) as i64;
        let t = (i % 2) as i64;
        let y = if t == 1 { 2 } else { 1 };
        arr.push(vec![cell(f), cell(t), cell(y)]);
    }
    (headers, arr)
}

#[test]
fn regression_uplift_sign() {
    let conf = conf_for(1, false);
    let mut loader = loader_for(&conf);
    let (headers, arr) = reg_rows();
    let m = loader.from_memory(&headers, &Vec::new(), &arr).unwrap();
    let mut model = RandomForest::new(conf.clone(), loader);
    model.fit(&m, Strategy::Reg(RegressionStrategy::new(&conf)));

    let score = model.predict(&m);
    assert_eq!(score.len(), 200);
    for row in &score {
        assert_eq!(row.len(), 1);
        assert!((row[0] - SCALE).abs() <= SCALE / 10, "uplift {} off", row[0]);
    }
}

#[test]
fn determinism_under_fixed_seed() {
    let conf = conf_for(3, true);
    let (headers, arr) = kl_rows();

    let mut loader1 = loader_for(&conf);
    let m1 = loader1.from_memory(&headers, &Vec::new(), &arr).unwrap();
    let mut model1 = RandomForest::new(conf.clone(), loader1);
    model1.fit(&m1, Strategy::Kl(KLStrategy::new(&conf)));
    let s1 = model1.predict(&m1);

    let mut loader2 = loader_for(&conf);
    let m2 = loader2.from_memory(&headers, &Vec::new(), &arr).unwrap();
    let mut model2 = RandomForest::new(conf.clone(), loader2);
    model2.fit(&m2, Strategy::Kl(KLStrategy::new(&conf)));
    let s2 = model2.predict(&m2);

    assert_eq!(s1, s2);
    // and the grown trees agree structurally
    for (a, b) in model1.learners.iter().zip(model2.learners.iter()) {
        assert_eq!(a.tree.level, b.tree.level);
        assert_eq!(a.tree.left_children, b.tree.left_children);
        assert_eq!(a.tree.right_children, b.tree.right_children);
    }
}

#[test]
fn histogram_conservation_by_groups() {
    let conf = conf_for(1, false);
    let mut loader = loader_for(&conf);
    let (headers, arr) = kl_rows();
    let m = loader.from_memory(&headers, &Vec::new(), &arr).unwrap();

    let indices: Vec<usize> = (0..200).collect();
    let feature_size = m.bin_size[0];
    let treatment_size = m.treatment_size[0];
    let hist = Count::calculate(&m, 0, false, 0, &indices, feature_size, treatment_size);

    // continuous histogram: the last prefix value of each (class, group)
    // row equals the total weight of the matching rows
    for c in 0..2usize {
        for g in 0..treatment_size {
            let total: i64 = (0..200usize)
                .filter(|&i| {
                    let cls = if m.response[i] >= SCALE { 1 } else { 0 };
                    cls == c && m.treatments[0][i] as usize == g
                })
                .map(|i| m.weights[i])
                .sum();
            assert_eq!(hist.stat[c][g][feature_size], total);
        }
    }
}

#[test]
fn split_jobs_cover_all_trees() {
    let conf = conf_for(1, false);
    let loader = loader_for(&conf);
    let model = RandomForest::new(conf, loader);
    let jobs = model.split_job_predict(10, 4);
    assert_eq!(jobs.len(), 4);
    let flat: Vec<usize> = jobs.into_iter().flatten().collect();
    assert_eq!(flat, (0..10).collect::<Vec<usize>>());
    let jobs2 = model.split_job_predict(2, 4);
    assert_eq!(jobs2, vec![vec![0], vec![1]]);
}

#[test]
fn loader_rejects_missing_column() {
    let conf = conf_for(1, false);
    let mut loader = loader_for(&conf);
    let headers = vec!["other".to_string()];
    let arr = vec![vec![cell(1)]];
    assert!(loader.from_memory(&headers, &Vec::new(), &arr).is_err());
}

#[test]
fn loader_rejects_ragged_rows() {
    let conf = conf_for(1, false);
    let mut loader = loader_for(&conf);
    let headers = vec!["f0".to_string(), "t".to_string(), "y".to_string()];
    let arr = vec![vec![cell(1), cell(0), cell(1)], vec![cell(2)]];
    assert!(loader.from_memory(&headers, &Vec::new(), &arr).is_err());
}

#[test]
fn loader_rejects_oversized_bin_count() {
    assert!(
        DataLoader::new(
            vec!["f0".to_string()],
            "y".to_string(),
            vec!["t".to_string()],
            String::new(),
            Vec::new(),
            255,
            vec![None],
            vec![None],
        )
        .is_err()
    );
}

#[test]
fn loader_defaults_and_group_counts() {
    let conf = conf_for(1, false);
    let mut loader = loader_for(&conf);
    let headers = vec!["f0".to_string(), "t".to_string(), "y".to_string()];
    let arr = vec![
        vec![cell(1), cell(0), cell(1)],
        vec![cell(2), cell(3), cell(0)],
        vec![cell(3), cell(1), None],
    ];
    let m = loader.from_memory(&headers, &Vec::new(), &arr).unwrap();
    // no weight column: every weight defaults to one
    assert_eq!(m.weights, vec![SCALE, SCALE, SCALE]);
    // a missing response cell reads as zero
    assert_eq!(m.response, vec![SCALE, 0, 0]);
    // the group count is the largest code plus one
    assert_eq!(m.treatments[0], vec![0u8, 3, 1]);
    assert_eq!(m.treatment_size, vec![4]);
}

#[test]
fn loader_rejects_negative_treatment() {
    let conf = conf_for(1, false);
    let mut loader = loader_for(&conf);
    let headers = vec!["f0".to_string(), "t".to_string(), "y".to_string()];
    let arr = vec![vec![cell(1), cell(-1), cell(0)]];
    assert!(loader.from_memory(&headers, &Vec::new(), &arr).is_err());
}

#[test]
fn categorical_split_takes_all_matching_rows() {
    // three rows of the chosen category and two others: the left block holds
    // exactly the matching rows, missing values go right
    let conf = TreeConfig { cat_cols: vec!["f0".to_string()], ..conf_for(1, false) };
    let mut loader = loader_for(&conf);
    let headers = vec!["f0".to_string(), "t".to_string(), "y".to_string()];
    let arr = vec![
        vec![cell(7), cell(0), cell(0)],
        vec![cell(5), cell(1), cell(1)],
        vec![cell(5), cell(0), cell(1)],
        vec![None, cell(1), cell(0)],
        vec![cell(5), cell(1), cell(0)],
    ];
    let m = loader.from_memory(&headers, &Vec::new(), &arr).unwrap();
    // code of value 5 (most frequent) is 0
    let mut learn = causality::learn::TreeLearn::new(&conf, Strategy::Kl(KLStrategy::new(&conf)));
    learn.partition = causality::partition::Partition::subsample(vec![0, 1, 2, 3, 4]);
    let mut random = causality::random::Random::new(causality::random::rng_from_seed(1));
    learn.grow_tree(0, &m, &conf, &mut random);
    let root = learn.tree.split[0].as_ref().unwrap();
    if let Some(v) = &root.value {
        let threshold = v[0];
        let left = learn.partition.get_indices(1);
        for &row in &left {
            assert_eq!(m.feature[0][row], Some(threshold));
        }
        let right = learn.partition.get_indices(2);
        for &row in &right {
            assert_ne!(m.feature[0][row], Some(threshold));
        }
    }
}
