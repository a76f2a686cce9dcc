use hnsw::bench::{BenchConfig, DIM};
use hnsw::dataset::{
    build_ground_truth_from_u64, build_ground_truth_from_usize, check_value_count, ground_truth_rows,
    ids_from_i64, take_rows, vector_rows,
};

#[test]
fn index_path_formats_every_parameter() {
    let c = BenchConfig { m: 16, m0: 32, ef_construction: 128, ef_search: 32 };
    assert_eq!(DIM, 128);
    assert_eq!(
        c.index_path("data/index/sift-128-euclidean-1MLN"),
        "data/index/sift-128-euclidean-1MLN-dim128-m16-m032-efc128-efs32.bin"
    );
    let c = BenchConfig { m: 7, m0: 0, ef_construction: 1000, ef_search: 9 };
    assert_eq!(c.index_path(""), "-dim128-m7-m00-efc1000-efs9.bin");
}

#[test]
fn ground_truth_keeps_first_k_of_each_row() {
    let raw = vec![1, 2, 3, 4, 5, 6, 7, 8, 9, 10];
    let gt = build_ground_truth_from_usize(raw, "gt", 3, 3, 2).unwrap();
    assert_eq!(gt, vec![vec![1, 2], vec![4, 5], vec![7, 8]]);
}

#[test]
fn ground_truth_with_no_rows_is_empty() {
    let gt = build_ground_truth_from_usize(vec![], "gt", 3, 0, 2).unwrap();
    assert!(gt.is_empty());
}

#[test]
fn ground_truth_reports_short_dataset() {
    let err = build_ground_truth_from_usize(vec![1, 2, 3], "neighbors", 2, 2, 1).unwrap_err();
    assert_eq!(err, "dataset 'neighbors' ended early: expected at least 4 ids, got 3");
}

#[test]
fn ground_truth_from_u64_converts_ids() {
    let gt = build_ground_truth_from_u64(vec![9, 8, 7, 6], "knns", 2, 2, 1).unwrap();
    assert_eq!(gt, vec![vec![9], vec![7]]);
    let err = build_ground_truth_from_u64(vec![1], "knns", 2, 1, 1).unwrap_err();
    assert_eq!(err, "dataset 'knns' ended early: expected at least 2 ids, got 1");
}

#[test]
fn ids_from_i64_rejects_negative_ids() {
    assert_eq!(ids_from_i64(vec![0, 5, 3], "gt"), Ok(vec![0, 5, 3]));
    assert_eq!(
        ids_from_i64(vec![0, -7, -1], "gt"),
        Err("dataset 'gt' contains a negative ground-truth id: -7".to_string())
    );
}

#[test]
fn take_rows_cuts_rows() {
    let raw = vec![0.5f32, 1.5, 2.5, 3.5, 4.5, 5.5];
    let rows = take_rows(&raw, 2, 2, 2);
    assert_eq!(rows, vec![vec![0.5, 1.5], vec![2.5, 3.5]]);
}

#[test]
fn vector_rows_checks_shape() {
    assert_eq!(vector_rows("train", &vec![100, 128], None, 128), Ok(100));
    assert_eq!(vector_rows("train", &vec![100, 128], Some(10), 128), Ok(10));
    assert_eq!(vector_rows("train", &vec![100, 128], Some(1000), 128), Ok(100));
    assert_eq!(
        vector_rows("train", &vec![100, 128, 1], None, 128),
        Err("dataset 'train' must be 2-D, got shape [100, 128, 1]".to_string())
    );
    assert_eq!(
        vector_rows("test", &vec![], None, 128),
        Err("dataset 'test' must be 2-D, got shape []".to_string())
    );
    assert_eq!(
        vector_rows("train", &vec![100, 784], None, 128),
        Err("dataset 'train' has dimension 784, but DIM is set to 128".to_string())
    );
}

#[test]
fn check_value_count_compares_with_shape() {
    assert_eq!(check_value_count("train", &vec![3, 4], 12), Ok(()));
    assert_eq!(
        check_value_count("train", &vec![3, 4], 11),
        Err("dataset 'train' has 12 values from shape [3, 4], but read 11 values".to_string())
    );
}

#[test]
fn ground_truth_rows_checks_shape() {
    assert_eq!(ground_truth_rows("neighbors", &vec![1000, 100], 1000, 10), Ok(1000));
    assert_eq!(ground_truth_rows("neighbors", &vec![1000, 100], 10, 10), Ok(10));
    assert_eq!(
        ground_truth_rows("neighbors", &vec![1000], 10, 10),
        Err("dataset 'neighbors' must be 2-D, got shape [1000]".to_string())
    );
    assert_eq!(
        ground_truth_rows("neighbors", &vec![1000, 5], 10, 10),
        Err("dataset 'neighbors' has only 5 ground-truth neighbors per query, but recall@10 was requested".to_string())
    );
    assert_eq!(
        ground_truth_rows("neighbors", &vec![8, 100], 10, 10),
        Err("dataset 'neighbors' contains only 8 rows, but 10 queries were loaded".to_string())
    );
}

#[test]
fn different_configs_get_different_index_files() {
    let a = BenchConfig { m: 1, m0: 11, ef_construction: 3, ef_search: 4 };
    let b = BenchConfig { m: 11, m0: 1, ef_construction: 3, ef_search: 4 };
    assert_ne!(a.index_path("x"), b.index_path("x"));
    assert_eq!(a.index_path("x"), a.index_path("x"));
}

#[test]
fn query_split_keeps_one_query_to_measure() {
    assert_eq!(hnsw::bench::query_split(1000, 100), (100, 900));
    assert_eq!(hnsw::bench::query_split(50, 100), (49, 1));
    assert_eq!(hnsw::bench::query_split(0, 100), (0, 0));
}
