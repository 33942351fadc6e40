use isolation_forest::forest::height_limit_for;
use isolation_forest::{ForestError, IsolationNode, IsolationTree, IsolationTreeEnsembleThread, Matrix};

const EULER_GAMMA: f64 = 0.5772156649;

fn c(n: usize) -> f64 {
    if n > 1 {
        let nf = n as f64;
        2.0 * ((nf - 1.0).ln() + EULER_GAMMA) - 2.0 * (nf - 1.0) / nf
    } else {
        0.0
    }
}

fn scores(forest: &IsolationTreeEnsembleThread, x: &Matrix) -> Vec<f64> {
    let table = forest.path_length_table(x).unwrap();
    let c_val = c(forest.sample_size());
    let norm = if c_val > 0.0 { c_val } else { 1.0 };
    table
        .iter()
        .map(|row| {
            let sum: f64 = row.iter().map(|&(d, s)| d as f64 + c(s)).sum();
            let mean = sum / row.len() as f64;
            2f64.powf(-mean / norm)
        })
        .collect()
}

fn matrix(rows: &[&[i64]]) -> Matrix {
    Matrix::from_rows(rows.iter().map(|r| r.to_vec()).collect()).unwrap()
}

fn leaf_total(n: &IsolationNode) -> usize {
    match n {
        IsolationNode::Decision { left, right, .. } => leaf_total(left) + leaf_total(right),
        IsolationNode::Leaf { size } => *size,
    }
}

fn height(n: &IsolationNode) -> usize {
    match n {
        IsolationNode::Decision { left, right, .. } => 1 + height(left).max(height(right)),
        IsolationNode::Leaf { .. } => 0,
    }
}

fn all_splits_below(n: &IsolationNode, width: usize) -> bool {
    match n {
        IsolationNode::Decision { left, right, split_att, .. } => {
            *split_att < width && all_splits_below(left, width) && all_splits_below(right, width)
        }
        IsolationNode::Leaf { .. } => true,
    }
}

#[test]
fn matrix_rejects_empty_and_ragged_rows() {
    assert_eq!(Matrix::from_rows(vec![]).err(), Some(ForestError::EmptyInput));
    assert_eq!(Matrix::from_rows(vec![vec![]]).err(), Some(ForestError::ShapeMismatch));
    assert_eq!(Matrix::from_rows(vec![vec![1, 2], vec![3]]).err(), Some(ForestError::ShapeMismatch));
    assert_eq!(Matrix::new(0).err(), Some(ForestError::ShapeMismatch));
    let m = matrix(&[&[1, 2], &[3, 4]]);
    assert_eq!(m.nrows(), 2);
    assert_eq!(m.ncols(), 2);
    assert_eq!(m.row(1), &vec![3, 4]);
}

#[test]
fn matrix_push_row_checks_width() {
    let mut m = Matrix::new(3).unwrap();
    assert_eq!(m.push_row(&vec![1, 2]), Err(ForestError::ShapeMismatch));
    assert_eq!(m.nrows(), 0);
    assert_eq!(m.push_row(&vec![1, 2, 3]), Ok(()));
    assert_eq!(m.nrows(), 1);
    assert_eq!(m.empty_like().ncols(), 3);
}

#[test]
fn height_limit_is_ceil_log2() {
    assert_eq!(height_limit_for(0), 0);
    assert_eq!(height_limit_for(1), 0);
    assert_eq!(height_limit_for(2), 1);
    assert_eq!(height_limit_for(3), 2);
    assert_eq!(height_limit_for(4), 2);
    assert_eq!(height_limit_for(5), 3);
    assert_eq!(height_limit_for(256), 8);
    assert_eq!(height_limit_for(257), 9);
    assert_eq!(height_limit_for(usize::MAX), usize::BITS);
}

#[test]
fn single_row_or_depth_limit_gives_leaf() {
    let mut t = IsolationTree::new(0, 5);
    assert!(matches!(*t.fit(matrix(&[&[7, 8]])), IsolationNode::Leaf { size: 1 }));
    let mut t = IsolationTree::new(3, 3);
    assert!(matches!(*t.fit(matrix(&[&[1], &[2], &[3]])), IsolationNode::Leaf { size: 3 }));
    let mut t = IsolationTree::new(0, 5);
    let empty = Matrix::new(2).unwrap();
    assert!(matches!(*t.fit(empty), IsolationNode::Leaf { size: 0 }));
}

#[test]
fn identical_rows_are_never_separated() {
    let x = matrix(&[&[4, 4, 4], &[4, 4, 4], &[4, 4, 4], &[4, 4, 4]]);
    let mut t = IsolationTree::new(0, 2);
    let root = t.fit(x);
    let (depth, size) = IsolationTreeEnsembleThread::tree_path_length(&root, &vec![4, 4, 4]);
    assert_eq!(size, 4);
    assert_eq!(depth, 3);
    assert_eq!(leaf_total(&root), 4);
}

#[test]
fn tree_split_lies_within_column_range() {
    let mut seen_above_min = false;
    for _ in 0..50 {
        let mut t = IsolationTree::new(0, 1);
        match *t.fit(matrix(&[&[0, 5, 0], &[100, 5, 100]])) {
            IsolationNode::Decision { left, right, split_att, split_val } => {
                assert!(split_att < 3);
                if split_att == 1 {
                    assert_eq!(split_val, 5);
                } else {
                    assert!((0..100).contains(&split_val));
                    seen_above_min |= split_val > 0;
                }
                assert_eq!(leaf_total(&left) + leaf_total(&right), 2);
            }
            IsolationNode::Leaf { .. } => panic!("two rows below the limit must split"),
        }
    }
    assert!(seen_above_min);
}

fn built_from(n: &IsolationNode, s: &[Vec<i64>], budget: usize) -> bool {
    match n {
        IsolationNode::Decision { left, right, split_att, split_val } => {
            let a = *split_att;
            let v = *split_val;
            let below: Vec<Vec<i64>> = s.iter().filter(|r| r[a] < v).cloned().collect();
            let rest: Vec<Vec<i64>> = s.iter().filter(|r| r[a] >= v).cloned().collect();
            let lo = s.iter().map(|r| r[a]).min().unwrap();
            let hi = s.iter().map(|r| r[a]).max().unwrap();
            let in_range = if lo == hi { v == lo } else { lo <= v && v < hi };
            s.len() >= 2
                && budget > 0
                && in_range
                && built_from(left, &below, budget - 1)
                && built_from(right, &rest, budget - 1)
        }
        IsolationNode::Leaf { size } => *size == s.len() && (s.len() <= 1 || budget == 0),
    }
}

fn settled(n: &IsolationNode, budget: usize) -> bool {
    match n {
        IsolationNode::Decision { left, right, .. } => {
            budget > 0 && settled(left, budget - 1) && settled(right, budget - 1)
        }
        IsolationNode::Leaf { size } => *size <= 1 || budget == 0,
    }
}

#[test]
fn tree_respects_height_limit_and_keeps_every_row() {
    let rows: Vec<Vec<i64>> = (0..40).map(|i| vec![i * 3 % 17, i * 7 % 11]).collect();
    for _ in 0..20 {
        let mut t = IsolationTree::new(0, 4);
        let root = t.fit(Matrix::from_rows(rows.clone()).unwrap());
        assert!(height(&root) <= 4);
        assert!(settled(&root, 4));
        assert!(built_from(&root, &rows, 4));
        assert_eq!(leaf_total(&root), 40);
        assert!(all_splits_below(&root, 2));
    }
}

#[test]
fn fit_resolves_sample_size_and_builds_every_tree() {
    let rows: Vec<Vec<i64>> = (0..12).map(|i| vec![i, 2 * i, i % 3]).collect();
    let mut f = IsolationTreeEnsembleThread::new(0, 7);
    assert_eq!(f.fit(Matrix::from_rows(rows).unwrap()), Ok(()));
    assert_eq!(f.sample_size(), 12);
    assert_eq!(f.n_trees(), 7);
    assert_eq!(f.n_features(), 3);
    assert_eq!(f.tree_set().len(), 7);
    for t in f.tree_set() {
        assert_eq!(leaf_total(t), 12);
        assert!(height(t) <= 4);
    }
}

#[test]
fn fit_keeps_given_sample_size() {
    let mut f = IsolationTreeEnsembleThread::new(5, 3);
    assert_eq!(f.fit(matrix(&[&[1], &[2], &[3]])), Ok(()));
    assert_eq!(f.sample_size(), 5);
    for t in f.tree_set() {
        assert_eq!(leaf_total(t), 5);
    }
}

#[test]
fn fit_on_empty_matrix_fails_and_changes_nothing() {
    let mut f = IsolationTreeEnsembleThread::new(0, 3);
    assert_eq!(f.fit(Matrix::new(2).unwrap()), Err(ForestError::EmptyInput));
    assert_eq!(f.sample_size(), 0);
    assert_eq!(f.tree_set().len(), 0);
}

#[test]
fn traversal_depth_stays_within_limit() {
    let rows: Vec<Vec<i64>> = (0..30).map(|i| vec![i * i % 23, i]).collect();
    let mut f = IsolationTreeEnsembleThread::new(0, 25);
    f.fit(Matrix::from_rows(rows.clone()).unwrap()).unwrap();
    let limit = height_limit_for(30) as usize;
    for r in rows.iter().chain([vec![-1000, 1000], vec![50, -50]].iter()) {
        for (depth, _) in f.path_lengths(r).unwrap() {
            assert!(depth >= 1 && depth <= limit + 1);
        }
    }
}

#[test]
fn path_length_of_hand_built_tree() {
    let tree = IsolationNode::new_decision(
        IsolationNode::new_leaf(3),
        IsolationNode::new_decision(IsolationNode::new_leaf(1), IsolationNode::new_leaf(2), 0, 50),
        1,
        10,
    );
    assert_eq!(IsolationTreeEnsembleThread::tree_path_length(&tree, &vec![0, 9]), (2, 3));
    assert_eq!(IsolationTreeEnsembleThread::tree_path_length(&tree, &vec![49, 10]), (3, 1));
    assert_eq!(IsolationTreeEnsembleThread::tree_path_length(&tree, &vec![50, 10]), (3, 2));
}

#[test]
fn scoring_errors() {
    let f = IsolationTreeEnsembleThread::new(0, 3);
    assert_eq!(f.path_lengths(&vec![1]).err(), Some(ForestError::NotFitted));
    assert_eq!(f.path_length_table(&matrix(&[&[1]])).err(), Some(ForestError::NotFitted));
    let mut f = IsolationTreeEnsembleThread::new(0, 3);
    f.fit(matrix(&[&[1, 2], &[3, 4]])).unwrap();
    assert_eq!(f.path_lengths(&vec![1]).err(), Some(ForestError::IndexOutOfRange));
    assert_eq!(f.path_length_table(&matrix(&[&[1, 2, 3]])).err(), Some(ForestError::IndexOutOfRange));
    assert_eq!(f.path_length_table(&Matrix::new(2).unwrap()).err(), Some(ForestError::EmptyInput));
    assert_eq!(f.path_length_table(&matrix(&[&[1, 2], &[5, 5], &[0, 0]])).unwrap().len(), 3);
}

#[test]
fn outlier_outscores_dense_cluster() {
    let mut rows: Vec<Vec<i64>> = Vec::new();
    for i in 0..8 {
        for j in 0..8 {
            rows.push(vec![1000 + i, 1000 + j]);
        }
    }
    rows.push(vec![100_000, -100_000]);
    let x = Matrix::from_rows(rows.clone()).unwrap();
    let mut f = IsolationTreeEnsembleThread::new(0, 500);
    f.fit(Matrix::from_rows(rows).unwrap()).unwrap();
    let s = scores(&f, &x);
    let outlier = s[s.len() - 1];
    for v in &s[..s.len() - 1] {
        assert!(outlier > *v);
    }
    assert!(outlier > 0.0 && outlier <= 1.0);
}

#[test]
fn scaled_row_has_highest_score() {
    let rows: Vec<Vec<i64>> = vec![
        vec![1, 2, 3, 4],
        vec![2, 3, 4, 5],
        vec![1, 3, 2, 4],
        vec![2, 2, 3, 3],
        vec![10, 200, 3000, 4000],
        vec![1, 2, 4, 5],
    ];
    let x = Matrix::from_rows(rows.clone()).unwrap();
    let mut f = IsolationTreeEnsembleThread::new(4, 50);
    f.fit(Matrix::from_rows(rows).unwrap()).unwrap();
    let s = scores(&f, &x);
    let max = s.iter().cloned().fold(f64::MIN, f64::max);
    assert_eq!(s[4], max);
}

#[test]
fn single_row_forest() {
    let mut f = IsolationTreeEnsembleThread::new(0, 10);
    assert_eq!(f.fit(matrix(&[&[3, 1, 4]])), Ok(()));
    assert_eq!(f.sample_size(), 1);
    assert_eq!(f.tree_set().len(), 10);
    for t in f.tree_set() {
        assert!(matches!(t, IsolationNode::Leaf { size: 1 }));
    }
    let probe = matrix(&[&[3, 1, 4]]);
    let table = f.path_length_table(&probe).unwrap();
    assert_eq!(table, vec![vec![(1, 1); 10]]);
    let s = scores(&f, &probe);
    assert!(s[0].is_finite() && s[0] > 0.0 && s[0] <= 1.0);
}

#[test]
fn words_round_trip_keeps_scores() {
    let rows: Vec<Vec<i64>> = (0..20).map(|i| vec![i * 5 % 13, -i, i * i]).collect();
    let mut f = IsolationTreeEnsembleThread::new(8, 15);
    f.fit(Matrix::from_rows(rows).unwrap()).unwrap();
    let words = f.to_words();
    assert_eq!(&words[..4], &[8, 15, 3, 15]);
    let g = IsolationTreeEnsembleThread::from_words(&words).unwrap();
    assert_eq!(g.sample_size(), 8);
    assert_eq!(g.n_trees(), 15);
    assert_eq!(g.n_features(), 3);
    assert_eq!(g.to_words(), words);
    let probe = matrix(&[&[0, 0, 0], &[12, -19, 361], &[-5, 40, 7], &[6, -3, 9]]);
    assert_eq!(f.path_length_table(&probe), g.path_length_table(&probe));
    assert_eq!(scores(&f, &probe), scores(&g, &probe));
}

#[test]
fn words_of_hand_built_forest() {
    let f = IsolationTreeEnsembleThread::new(4, 2);
    assert_eq!(f.to_words(), vec![4, 2, 0, 0]);
    let g = IsolationTreeEnsembleThread::from_words(&vec![2, 1, 1, 1, 1, 0, -7, 0, 1, 0, 1]).unwrap();
    assert_eq!(g.tree_set().len(), 1);
    assert_eq!(g.path_lengths(&vec![-8]).unwrap(), vec![(2, 1)]);
    assert_eq!(g.path_lengths(&vec![-7]).unwrap(), vec![(2, 1)]);
}

#[test]
fn malformed_words_are_refused() {
    assert!(IsolationTreeEnsembleThread::from_words(&vec![]).is_none());
    assert!(IsolationTreeEnsembleThread::from_words(&vec![1, 1, 1]).is_none());
    assert!(IsolationTreeEnsembleThread::from_words(&vec![-1, 1, 1, 0]).is_none());
    // announces one tree, holds none
    assert!(IsolationTreeEnsembleThread::from_words(&vec![1, 1, 1, 1]).is_none());
    // trailing word after the last tree
    assert!(IsolationTreeEnsembleThread::from_words(&vec![1, 1, 1, 1, 0, 1, 9]).is_none());
    // unknown tag
    assert!(IsolationTreeEnsembleThread::from_words(&vec![1, 1, 1, 1, 5, 1]).is_none());
    // split on a column the forest does not have
    assert!(IsolationTreeEnsembleThread::from_words(&vec![2, 1, 1, 1, 1, 3, 0, 0, 1, 0, 1]).is_none());
    // split deeper than the limit of a one-row sample
    assert!(IsolationTreeEnsembleThread::from_words(&vec![1, 1, 1, 1, 1, 0, 0, 0, 1, 0, 1]).is_none());
}
