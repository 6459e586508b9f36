use rayon::iter::{IntoParallelIterator, IntoParallelRefIterator, ParallelIterator};
use tree_dists::distances::{paired_lengths, rf_from_snapshots};
use tree_dists::pairwise::{pair_indices, rf_pairwise_matrix};
use tree_dists::tree::{TreeData, TreeNode};
use tree_dists::TreeSnapshot;

fn node(name: Option<&str>, children: Vec<usize>, edge: Option<f64>) -> TreeNode {
    TreeNode {
        name: name.map(|s| s.as_bytes().to_vec()),
        children,
        parent_edge: edge.map(f64::to_bits),
    }
}

/// A five-leaf tree whose shape is steered by `swap`.
fn five_leaf(swap: bool, scale: f64) -> TreeData {
    let (x, y) = if swap { ("D", "B") } else { ("B", "D") };
    TreeData {
        nodes: vec![
            node(None, vec![1, 2], None),
            node(None, vec![3, 4], Some(scale)),
            node(None, vec![5, 6], Some(2.0 * scale)),
            node(Some("A"), vec![], Some(0.5)),
            node(Some(x), vec![], Some(0.5)),
            node(None, vec![7, 8], Some(3.0 * scale)),
            node(Some("C"), vec![], Some(0.5)),
            node(Some(y), vec![], Some(0.5)),
            node(Some("E"), vec![], Some(0.5)),
        ],
        root: 0,
        rooted: true,
    }
}

fn weighted_of(a: &TreeSnapshot, b: &TreeSnapshot) -> f64 {
    let mut d = 0.0f64;
    for (x, y) in paired_lengths(a, b) {
        d += (f64::from_bits(x) - f64::from_bits(y)).abs();
    }
    d
}

#[test]
fn parallel_and_sequential_runs_agree_bit_for_bit() {
    let trees = vec![
        five_leaf(false, 1.0),
        five_leaf(true, 1.0),
        five_leaf(false, 1.25),
        five_leaf(true, 0.75),
        five_leaf(false, 3.5),
    ];
    let snaps: Vec<TreeSnapshot> =
        trees.iter().map(|t| TreeSnapshot::from_tree(t).unwrap()).collect();
    let n = snaps.len();

    // sequential reference
    let sequential = rf_pairwise_matrix(&snaps);

    // the same pairs, computed by a worker pool and scattered
    let pairs = pair_indices(n);
    let computed: Vec<(usize, usize, usize)> = pairs
        .par_iter()
        .map(|&(i, j)| (i, j, rf_from_snapshots(&snaps[i], &snaps[j])))
        .collect();
    let mut parallel = vec![vec![0usize; n]; n];
    for (i, j, d) in computed {
        parallel[i][j] = d;
        parallel[j][i] = d;
    }
    for i in 0..n {
        for j in 0..n {
            assert_eq!(sequential[i][j], parallel[i][j]);
        }
    }

    // the weighted sums agree bit for bit as well: each pair's summation
    // order is fixed by the split ordering, not by the scheduling
    let seq_weighted: Vec<f64> =
        pairs.iter().map(|&(i, j)| weighted_of(&snaps[i], &snaps[j])).collect();
    let par_weighted: Vec<f64> =
        pairs.par_iter().map(|&(i, j)| weighted_of(&snaps[i], &snaps[j])).collect();
    for k in 0..pairs.len() {
        assert_eq!(seq_weighted[k].to_bits(), par_weighted[k].to_bits());
    }
}

#[test]
fn pair_enumeration_lists_each_unordered_pair_once() {
    let pairs = pair_indices(4);
    assert_eq!(pairs, vec![(0, 1), (0, 2), (0, 3), (1, 2), (1, 3), (2, 3)]);
    assert_eq!(pair_indices(0), vec![]);
    assert_eq!(pair_indices(1), vec![]);
}
