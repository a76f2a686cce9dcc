use hnsw::node::heap_bytes_of;
use hnsw::{Hnsw, Link};

fn l2_key<const D: usize>(a: &[f32; D], b: &[f32; D]) -> u32 {
    let mut total = 0.0f32;
    for i in 0..D {
        let diff = a[i] - b[i];
        total += diff * diff;
    }
    total.to_bits()
}

fn dist<const D: usize>(l: &Link) -> f32 {
    let _ = D;
    f32::from_bits(l.distance)
}

/// A small deterministic generator, so that the tests need no outside crate.
struct Lcg(u64);

impl Lcg {
    fn next(&mut self) -> u64 {
        self.0 = self.0.wrapping_mul(6364136223846793005).wrapping_add(1442695040888963407);
        self.0 >> 11
    }
    fn unit(&mut self) -> f32 {
        (self.next() % 1_000_000) as f32 / 1_000_000.0
    }
    fn layer(&mut self, m: usize) -> usize {
        let u = (self.next() as f64 + 1.0) / ((1u64 << 53) as f64 + 1.0);
        (-u.ln() / (m as f64).ln()).floor() as usize
    }
}

fn build<const D: usize>(points: &[[f32; D]], m: usize, seed: u64) -> Hnsw<[f32; D]> {
    let mut index = Hnsw::new(m, 2 * m, 64, 32);
    let mut rng = Lcg(seed);
    for p in points {
        let layer = rng.layer(m);
        index.insert(*p, layer, &|a: &[f32; D], b: &[f32; D]| l2_key(a, b));
    }
    index
}

fn random_points<const D: usize>(n: usize, seed: u64) -> Vec<[f32; D]> {
    let mut rng = Lcg(seed);
    (0..n)
        .map(|_| {
            let mut p = [0.0f32; D];
            for x in p.iter_mut() {
                *x = rng.unit();
            }
            p
        })
        .collect()
}

#[test]
fn new_index_is_empty() {
    let index = Hnsw::<[f32; 2]>::new(16, 32, 128, 32);
    assert_eq!(index.len(), 0);
    assert!(index.is_empty());
    assert_eq!(index.entry_point(), 0);
    assert_eq!(index.max_layer(), 0);
}

#[test]
fn search_on_empty_index_returns_nothing() {
    let mut index = Hnsw::<[f32; 2]>::new(16, 32, 128, 32);
    let res = index.search(&[1.0, 1.0], 5, &|a: &[f32; 2], b: &[f32; 2]| l2_key(a, b));
    assert!(res.is_empty());
}

#[test]
fn small_exact_example() {
    let mut index = Hnsw::<[f32; 2]>::new(16, 32, 128, 32);
    let d = |a: &[f32; 2], b: &[f32; 2]| l2_key(a, b);
    index.insert([0.0, 0.0], 0, &d);
    index.insert([3.0, 3.0], 0, &d);
    index.insert([4.0, 4.0], 0, &d);
    let res = index.search(&[1.0, 1.0], 2, &d);
    assert_eq!(res.len(), 2);
    assert_eq!(res[0].node_index, 0);
    assert_eq!(dist::<2>(&res[0]), 2.0);
    assert_eq!(res[1].node_index, 1);
    assert_eq!(dist::<2>(&res[1]), 8.0);
}

#[test]
fn search_with_k_zero_returns_nothing() {
    let mut index = Hnsw::<[f32; 2]>::new(16, 32, 128, 32);
    let d = |a: &[f32; 2], b: &[f32; 2]| l2_key(a, b);
    index.insert([0.0, 0.0], 0, &d);
    assert!(index.search(&[0.0, 0.0], 0, &d).is_empty());
}

#[test]
fn k_larger_than_index_returns_all_sorted() {
    let mut index = Hnsw::<[f32; 1]>::new(4, 8, 16, 8);
    let d = |a: &[f32; 1], b: &[f32; 1]| l2_key(a, b);
    for x in [5.0f32, 1.0, 3.0, 2.0, 4.0] {
        index.insert([x], 0, &d);
    }
    let res = index.search(&[0.0], 10, &d);
    let ids: Vec<usize> = res.iter().map(|l| l.node_index).collect();
    assert_eq!(ids, vec![1, 3, 2, 4, 0]);
    let ds: Vec<f32> = res.iter().map(dist::<1>).collect();
    assert_eq!(ds, vec![1.0, 4.0, 9.0, 16.0, 25.0]);
}

#[test]
fn duplicate_vectors_are_all_found() {
    let mut index = Hnsw::<[f32; 2]>::new(4, 8, 32, 16);
    let d = |a: &[f32; 2], b: &[f32; 2]| l2_key(a, b);
    for _ in 0..5 {
        index.insert([1.0, 2.0], 0, &d);
    }
    index.insert([10.0, 10.0], 0, &d);
    let res = index.search(&[1.0, 2.0], 5, &d);
    assert_eq!(res.len(), 5);
    let mut ids: Vec<usize> = res.iter().map(|l| l.node_index).collect();
    ids.sort();
    assert_eq!(ids, vec![0, 1, 2, 3, 4]);
    assert!(res.iter().all(|l| dist::<2>(l) == 0.0));
}

#[test]
fn first_insert_sets_entry_and_top_layer() {
    let mut index = Hnsw::<[f32; 2]>::new(4, 8, 32, 16);
    let d = |a: &[f32; 2], b: &[f32; 2]| l2_key(a, b);
    index.insert([0.0, 0.0], 3, &d);
    assert_eq!(index.len(), 1);
    assert_eq!(index.entry_point(), 0);
    assert_eq!(index.max_layer(), 3);
    assert_eq!(index.layer_count(0), Some(4));
    for lyr in 0..4 {
        assert_eq!(index.neighbors(0, lyr).map(|v| v.len()), Some(0));
    }
    assert!(index.neighbors(0, 4).is_none());
    assert!(index.neighbors(1, 0).is_none());
}

#[test]
fn higher_node_becomes_entry_point() {
    let mut index = Hnsw::<[f32; 2]>::new(4, 8, 32, 16);
    let d = |a: &[f32; 2], b: &[f32; 2]| l2_key(a, b);
    index.insert([0.0, 0.0], 0, &d);
    index.insert([1.0, 0.0], 0, &d);
    assert_eq!(index.entry_point(), 0);
    assert_eq!(index.max_layer(), 0);
    index.insert([2.0, 0.0], 2, &d);
    assert_eq!(index.entry_point(), 2);
    assert_eq!(index.max_layer(), 2);
    index.insert([3.0, 0.0], 1, &d);
    assert_eq!(index.entry_point(), 2);
    assert_eq!(index.max_layer(), 2);
    assert_eq!(index.layer_count(3), Some(2));
}

#[test]
fn links_are_symmetric_for_small_index() {
    let mut index = Hnsw::<[f32; 2]>::new(4, 8, 32, 16);
    let d = |a: &[f32; 2], b: &[f32; 2]| l2_key(a, b);
    index.insert([0.0, 0.0], 0, &d);
    index.insert([1.0, 0.0], 0, &d);
    let n0 = index.neighbors(0, 0).unwrap();
    let n1 = index.neighbors(1, 0).unwrap();
    assert_eq!(n0.len(), 1);
    assert_eq!(n0[0].node_index, 1);
    assert_eq!(n1.len(), 1);
    assert_eq!(n1[0].node_index, 0);
    assert_eq!(f32::from_bits(n1[0].distance), 1.0);
}

#[test]
fn max_connection_limits_hold() {
    let points = random_points::<4>(300, 7);
    let m = 3;
    let index = build(&points, m, 11);
    for i in 0..index.len() {
        let levels = index.layer_count(i).unwrap();
        assert!(levels >= 1 && levels <= index.max_layer() + 1);
        for lyr in 0..levels {
            let limit = if lyr == 0 { 2 * m } else { m };
            assert!(index.neighbors(i, lyr).unwrap().len() <= limit);
        }
    }
}

#[test]
fn neighbour_lists_hold_no_duplicates() {
    let points = random_points::<4>(300, 21);
    let index = build(&points, 4, 5);
    for i in 0..index.len() {
        for lyr in 0..index.layer_count(i).unwrap() {
            let list = index.neighbors(i, lyr).unwrap();
            let mut ids: Vec<usize> = list.iter().map(|l| l.node_index).collect();
            ids.sort();
            ids.dedup();
            assert_eq!(ids.len(), list.len());
        }
    }
}

#[test]
fn links_point_to_nodes_of_their_layer() {
    let points = random_points::<3>(200, 3);
    let index = build(&points, 4, 9);
    for i in 0..index.len() {
        for lyr in 0..index.layer_count(i).unwrap() {
            for l in index.neighbors(i, lyr).unwrap() {
                assert!(l.node_index < index.len());
                assert!(lyr < index.layer_count(l.node_index).unwrap());
            }
        }
    }
    let top = index.max_layer();
    assert_eq!(index.layer_count(index.entry_point()), Some(top + 1));
}

#[test]
fn search_results_are_sorted_distinct_and_exact() {
    let points = random_points::<4>(250, 13);
    let mut index = build(&points, 5, 17);
    let queries = random_points::<4>(20, 99);
    for q in &queries {
        let res = index.search(q, 10, &|a: &[f32; 4], b: &[f32; 4]| l2_key(a, b));
        assert!(!res.is_empty() && res.len() <= 10);
        for w in res.windows(2) {
            assert!((w[0].distance, w[0].node_index) < (w[1].distance, w[1].node_index));
        }
        for l in &res {
            assert_eq!(l.distance, l2_key(q, &points[l.node_index]));
        }
    }
}

#[test]
fn returned_neighbourhood_is_returned_or_beaten() {
    let points = random_points::<4>(250, 31);
    let mut index = build(&points, 4, 37);
    let queries = random_points::<4>(20, 41);
    let k = 5;
    for q in &queries {
        let res = index.search(q, k, &|a: &[f32; 4], b: &[f32; 4]| l2_key(a, b));
        for r in &res {
            for v in index.neighbors(r.node_index, 0).unwrap() {
                let dv = l2_key(q, &points[v.node_index]);
                let returned = res.iter().any(|x| x.node_index == v.node_index);
                let beaten = res.len() == k && res.iter().all(|x| x.distance <= dv);
                assert!(returned || beaten);
            }
        }
    }
}

#[test]
fn recall_against_brute_force() {
    let points = random_points::<8>(600, 101);
    let mut index = build(&points, 8, 103);
    let queries = random_points::<8>(30, 107);
    let k = 10;
    let mut hits = 0;
    for q in &queries {
        let mut exact: Vec<(u32, usize)> = points.iter().enumerate().map(|(i, p)| (l2_key(q, p), i)).collect();
        exact.sort();
        let truth: Vec<usize> = exact.iter().take(k).map(|e| e.1).collect();
        let res = index.search(q, k, &|a: &[f32; 8], b: &[f32; 8]| l2_key(a, b));
        hits += res.iter().filter(|l| truth.contains(&l.node_index)).count();
    }
    let recall = hits as f64 / (k * queries.len()) as f64;
    assert!(recall >= 0.9, "recall {recall}");
}

#[test]
fn insert_keeps_earlier_vectors() {
    let points = random_points::<2>(20, 1);
    let index = build(&points, 4, 2);
    assert_eq!(index.len(), 20);
    for (i, p) in points.iter().enumerate() {
        assert_eq!(index.vector(i), Some(p));
    }
    assert_eq!(index.vector(20), None);
}

#[test]
fn new_default_uses_documented_parameters() {
    let mut index = Hnsw::<[f32; 2]>::new_default(16);
    let d = |a: &[f32; 2], b: &[f32; 2]| l2_key(a, b);
    for i in 0..40 {
        index.insert([i as f32, 0.0], 0, &d);
    }
    for i in 0..40 {
        assert!(index.neighbors(i, 0).unwrap().len() <= 32);
    }
}

#[test]
fn search_leaves_graph_unchanged() {
    let points = random_points::<3>(100, 55);
    let mut index = build(&points, 4, 56);
    let before: Vec<Vec<Vec<usize>>> = (0..index.len())
        .map(|i| {
            (0..index.layer_count(i).unwrap())
                .map(|l| index.neighbors(i, l).unwrap().iter().map(|x| x.node_index).collect())
                .collect()
        })
        .collect();
    let first = index.search(&[0.5, 0.5, 0.5], 7, &|a: &[f32; 3], b: &[f32; 3]| l2_key(a, b));
    let second = index.search(&[0.5, 0.5, 0.5], 7, &|a: &[f32; 3], b: &[f32; 3]| l2_key(a, b));
    assert_eq!(first, second);
    let after: Vec<Vec<Vec<usize>>> = (0..index.len())
        .map(|i| {
            (0..index.layer_count(i).unwrap())
                .map(|l| index.neighbors(i, l).unwrap().iter().map(|x| x.node_index).collect())
                .collect()
        })
        .collect();
    assert_eq!(before, after);
}

#[test]
fn new_node_neighbours_link_back() {
    let mut index = Hnsw::<[f32; 2]>::new(8, 16, 32, 16);
    let d = |a: &[f32; 2], b: &[f32; 2]| l2_key(a, b);
    let pts = [[0.0, 0.0], [1.0, 0.0], [0.0, 1.0], [5.0, 5.0]];
    for p in pts {
        index.insert(p, 0, &d);
    }
    let before: Vec<Vec<usize>> = (0..index.len())
        .map(|i| index.neighbors(i, 0).unwrap().iter().map(|l| l.node_index).collect())
        .collect();
    index.insert([0.5, 0.5], 0, &d);
    let n = index.len() - 1;
    let mine = index.neighbors(n, 0).unwrap().clone();
    assert!(!mine.is_empty());
    for l in &mine {
        assert_eq!(l.distance, l2_key(&[0.5, 0.5], index.vector(l.node_index).unwrap()));
        let list = index.neighbors(l.node_index, 0).unwrap();
        let mut expected = before[l.node_index].clone();
        expected.push(n);
        let got: Vec<usize> = list.iter().map(|x| x.node_index).collect();
        assert_eq!(got, expected);
        assert_eq!(list.last().unwrap().distance, l.distance);
    }
    for i in 0..n {
        if !mine.iter().any(|l| l.node_index == i) {
            let got: Vec<usize> = index.neighbors(i, 0).unwrap().iter().map(|x| x.node_index).collect();
            assert_eq!(got, before[i]);
        }
    }
}

#[test]
fn overflowing_list_is_pruned_to_its_bound() {
    let mut index = Hnsw::<[f32; 1]>::new(2, 2, 8, 8);
    let d = |a: &[f32; 1], b: &[f32; 1]| l2_key(a, b);
    for x in [0.0f32, 1.0, 2.0, 3.0, 4.0, 5.0, 6.0, 7.0] {
        let before: Vec<usize> = (0..index.len()).map(|i| index.neighbors(i, 0).unwrap().len()).collect();
        index.insert([x], 0, &d);
        let n = index.len() - 1;
        for l in index.neighbors(n, 0).unwrap().clone() {
            let len = index.neighbors(l.node_index, 0).unwrap().len();
            if before[l.node_index] + 1 >= 2 {
                assert_eq!(len, 2);
            } else {
                assert_eq!(len, before[l.node_index] + 1);
            }
        }
    }
}

#[test]
fn heap_usage_counts_at_least_the_lengths() {
    let points = random_points::<2>(50, 77);
    let index = build(&points, 4, 78);
    let nodes = index.nodes();
    let mut lower = nodes.len() * std::mem::size_of::<hnsw::Node>();
    for n in nodes {
        lower += n.layers.len() * std::mem::size_of::<Vec<Link>>();
        for l in &n.layers {
            lower += l.len() * std::mem::size_of::<Link>();
        }
    }
    let bytes = hnsw::node::nodes_heap_usage_bytes(nodes);
    assert!(bytes >= lower);
    assert!(bytes > 0);
}

#[test]
fn pruning_prefers_diverse_neighbours() {
    // Seen from 3, the point -1 lies behind 1, so the heuristic keeps the
    // farther point 9 instead.
    let mut index = Hnsw::<[f32; 1]>::new(2, 2, 8, 8);
    let d = |a: &[f32; 1], b: &[f32; 1]| l2_key(a, b);
    for x in [9.0f32, -1.0, 1.0] {
        index.insert([x], 0, &d);
    }
    index.insert([3.0], 0, &d);
    let got: Vec<(usize, f32)> = index.neighbors(3, 0).unwrap().iter().map(|l| (l.node_index, dist::<1>(l))).collect();
    assert_eq!(got, vec![(2, 4.0), (0, 36.0)]);
}

#[test]
fn two_layer_example_builds_the_expected_graph() {
    let pts = [
        [10.0f32, 4.0], [12.0, 20.0], [1.0, 2.0], [17.0, 3.0], [11.0, 18.0], [1.0, 16.0],
        [6.0, 1.0], [2.0, 13.0], [13.0, 2.0], [7.0, 2.0], [17.0, 13.0], [1.0, 18.0],
    ];
    let layers = [0usize, 0, 1, 1, 1, 0, 1, 1, 0, 0, 0, 0];
    let mut index = Hnsw::<[f32; 2]>::new(2, 4, 8, 8);
    let d = |a: &[f32; 2], b: &[f32; 2]| l2_key(a, b);
    for (p, l) in pts.iter().zip(layers) {
        index.insert(*p, l, &d);
    }
    assert_eq!(index.entry_point(), 2);
    assert_eq!(index.max_layer(), 1);
    let expected: [&[&[usize]]; 12] = [
        &[&[0, 8, 9, 6]],
        &[&[1, 4, 5, 0]],
        &[&[2, 6, 9, 0], &[2, 6]],
        &[&[3, 8, 0, 10], &[3, 6]],
        &[&[4, 1, 5, 7], &[2, 3]],
        &[&[5, 7, 4, 1]],
        &[&[6, 9, 0, 2], &[6, 2]],
        &[&[5, 2, 4, 0], &[2, 6]],
        &[&[8, 0, 3, 9]],
        &[&[9, 6, 0, 2]],
        &[&[10, 3, 0, 8]],
        &[&[2, 10, 0, 9]],
    ];
    for (i, lists) in expected.iter().enumerate() {
        assert_eq!(index.layer_count(i), Some(lists.len()));
        for (l, want) in lists.iter().enumerate() {
            let got: Vec<usize> = index.neighbors(i, l).unwrap().iter().map(|x| x.node_index).collect();
            assert_eq!(&got[..], *want, "node {} layer {}", i, l);
        }
    }
    let res: Vec<(usize, f32)> = index.search(&[10.0, 10.0], 3, &d).iter().map(|l| (l.node_index, dist::<2>(l))).collect();
    assert_eq!(res, vec![(0, 36.0), (10, 58.0), (8, 73.0)]);
}

#[test]
fn forty_point_example_returns_expected_neighbours() {
    let coords: [[i32; 2]; 40] = [
        [14, 27], [17, 27], [29, 24], [14, 14], [16, 27], [18, 6], [5, 25], [16, 15], [20, 19], [25, 5],
        [3, 14], [9, 4], [2, 17], [25, 28], [22, 20], [1, 19], [12, 30], [14, 20], [23, 19], [20, 5],
        [19, 0], [26, 16], [2, 1], [1, 6], [28, 7], [19, 0], [24, 14], [10, 14], [18, 26], [6, 16],
        [7, 20], [9, 15], [0, 21], [2, 14], [20, 8], [13, 17], [29, 26], [2, 22], [8, 10], [24, 7],
    ];
    let layers = [
        2usize, 0, 0, 0, 0, 1, 0, 0, 1, 0, 0, 0, 0, 0, 0, 1, 1, 1, 1, 0, 0, 0, 0, 0, 0, 0, 0, 1, 0, 0, 0, 0, 0,
        0, 1, 1, 0, 2, 0, 1,
    ];
    let mut index = Hnsw::<[f32; 2]>::new(3, 6, 16, 8);
    let d = |a: &[f32; 2], b: &[f32; 2]| l2_key(a, b);
    for (c, l) in coords.iter().zip(layers) {
        index.insert([c[0] as f32, c[1] as f32], l, &d);
    }
    assert_eq!(index.entry_point(), 0);
    assert_eq!(index.max_layer(), 2);
    let cases: [([f32; 2], [(usize, f32); 5]); 3] = [
        ([15.0, 15.0], [(7, 1.0), (3, 2.0), (35, 8.0), (17, 26.0), (27, 26.0)]),
        ([0.0, 30.0], [(6, 50.0), (37, 68.0), (32, 81.0), (15, 122.0), (30, 149.0)]),
        ([29.0, 2.0], [(9, 25.0), (24, 26.0), (39, 50.0), (19, 90.0), (20, 104.0)]),
    ];
    for (q, want) in cases {
        let got: Vec<(usize, f32)> = index.search(&q, 5, &d).iter().map(|l| (l.node_index, dist::<2>(l))).collect();
        assert_eq!(got, want.to_vec());
    }
}

#[test]
fn heap_bytes_of_counts_capacities_exactly() {
    let node = std::mem::size_of::<hnsw::Node>();
    let list = std::mem::size_of::<Vec<Link>>();
    let link = std::mem::size_of::<Link>();
    let caps = vec![(3usize, vec![4usize, 5]), (1, vec![0])];
    assert_eq!(heap_bytes_of(2, &caps), 2 * node + 4 * list + 9 * link);
    assert_eq!(heap_bytes_of(0, &Vec::new()), 0);
    assert_eq!(heap_bytes_of(usize::MAX, &caps), usize::MAX);
}

#[test]
fn repeated_and_shorter_searches_agree() {
    let points = random_points::<2>(60, 5);
    let mut index = build(&points, 4, 6);
    let d = |a: &[f32; 2], b: &[f32; 2]| l2_key(a, b);
    let q = [0.3f32, 0.7];
    let first = index.search(&q, 10, &d);
    let again = index.search(&q, 10, &d);
    assert_eq!(first, again);
    let shorter = index.search(&q, 4, &d);
    assert_eq!(&shorter[..], &first[..4]);
}

#[test]
fn same_inserts_build_the_same_graph() {
    let points = random_points::<3>(80, 21);
    let a = build(&points, 4, 22);
    let b = build(&points, 4, 22);
    assert_eq!(a.entry_point(), b.entry_point());
    assert_eq!(a.max_layer(), b.max_layer());
    for i in 0..a.len() {
        assert_eq!(a.layer_count(i), b.layer_count(i));
        for l in 0..a.layer_count(i).unwrap() {
            assert_eq!(a.neighbors(i, l), b.neighbors(i, l));
        }
    }
}
