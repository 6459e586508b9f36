use itertools::Itertools;
use phylotree::tree::Tree as PhyloTree;
use tree_dists::distances::{paired_lengths, robinson_foulds};
use tree_dists::tree::{TreeData, TreeNode};
use tree_dists::TreeSnapshot;

/// Reads a parsed tree's node store into the library's plain shape.
fn tree_to_data(tree: &PhyloTree) -> TreeData {
    let rooted = tree.is_rooted().unwrap();
    let root = tree.get_root().unwrap();
    let n = tree.size();
    let mut nodes = Vec::with_capacity(n);
    for id in 0..n {
        let node = tree.get(&id).unwrap();
        nodes.push(TreeNode {
            name: node.name.as_ref().map(|s| s.clone().into_bytes()),
            children: node.children.clone(),
            parent_edge: node.parent_edge.map(f64::to_bits),
        });
    }
    TreeData { nodes, root, rooted }
}

fn weighted_of(a: &TreeSnapshot, b: &TreeSnapshot) -> f64 {
    let mut d = 0.0f64;
    for (x, y) in paired_lengths(a, b) {
        d += (f64::from_bits(x) - f64::from_bits(y)).abs();
    }
    d
}

fn branch_score_of(a: &TreeSnapshot, b: &TreeSnapshot) -> f64 {
    let mut d = 0.0f64;
    for (x, y) in paired_lengths(a, b) {
        let diff = f64::from_bits(x) - f64::from_bits(y);
        d += diff * diff;
    }
    d.sqrt()
}

const TREES: [&str; 12] = [
    "(A:0.1,(B:0.1,(H:0.1,(D:0.1,(J:0.1,(((G:0.1,E:0.1):0.1,(F:0.1,I:0.1):0.1):0.1,C:0.1):0.1):0.1):0.1):0.1):0.1);",
    "(A:0.1,(B:0.1,(D:0.1,((J:0.1,H:0.1):0.1,(((G:0.1,E:0.1):0.1,(F:0.1,I:0.1):0.1):0.1,C:0.1):0.1):0.1):0.1):0.1);",
    "(A:0.1,(B:0.1,(D:0.1,(H:0.1,(J:0.1,(((G:0.1,E:0.1):0.1,(F:0.1,I:0.1):0.1):0.1,C:0.1):0.1):0.1):0.1):0.1):0.1);",
    "(A:0.1,(B:0.1,(E:0.1,(G:0.1,((F:0.1,I:0.1):0.1,((J:0.1,(H:0.1,D:0.1):0.1):0.1,C:0.1):0.1):0.1):0.1):0.1):0.1);",
    "(A:0.1,(B:0.1,(E:0.1,(G:0.1,((F:0.1,I:0.1):0.1,(((J:0.1,H:0.1):0.1,D:0.1):0.1,C:0.1):0.1):0.1):0.1):0.1):0.1);",
    "(A:0.1,(B:0.1,(E:0.1,((F:0.1,I:0.1):0.1,(G:0.1,((J:0.1,(H:0.1,D:0.1):0.1):0.1,C:0.1):0.1):0.1):0.1):0.1):0.1);",
    "(A:0.1,(B:0.1,(E:0.1,((F:0.1,I:0.1):0.1,(G:0.1,(((J:0.1,H:0.1):0.1,D:0.1):0.1,C:0.1):0.1):0.1):0.1):0.1):0.1);",
    "(A:0.1,(B:0.1,(E:0.1,((G:0.1,(F:0.1,I:0.1):0.1):0.1,((J:0.1,(H:0.1,D:0.1):0.1):0.1,C:0.1):0.1):0.1):0.1):0.1);",
    "(A:0.1,(B:0.1,(E:0.1,((G:0.1,(F:0.1,I:0.1):0.1):0.1,(((J:0.1,H:0.1):0.1,D:0.1):0.1,C:0.1):0.1):0.1):0.1):0.1);",
    "(A:0.1,(B:0.1,(E:0.1,(G:0.1,((F:0.1,I:0.1):0.1,((J:0.1,(H:0.1,D:0.1):0.1):0.1,C:0.1):0.1):0.1):0.1):0.1):0.1);",
    "(A:0.1,(B:0.1,(D:0.1,(H:0.1,(J:0.1,(((G:0.1,E:0.1):0.1,(F:0.1,I:0.1):0.1):0.1,C:0.1):0.1):0.1):0.1):0.1):0.1);",
    "(A:0.1,(B:0.1,(E:0.1,((G:0.1,(F:0.1,I:0.1):0.1):0.1,((J:0.1,(H:0.1,D:0.1):0.1):0.1,C:0.1):0.1):0.1):0.1):0.1);",
];

#[test]
// Split-count distances according to
// https://evolution.genetics.washington.edu/phylip/doc/treedist.html
fn robinson_foulds_treedist() {
    let rfs = [
        vec![0, 4, 2, 10, 10, 10, 10, 10, 10, 10, 2, 10],
        vec![4, 0, 2, 10, 8, 10, 8, 10, 8, 10, 2, 10],
        vec![2, 2, 0, 10, 10, 10, 10, 10, 10, 10, 0, 10],
        vec![10, 10, 10, 0, 2, 2, 4, 2, 4, 0, 10, 2],
        vec![10, 8, 10, 2, 0, 4, 2, 4, 2, 2, 10, 4],
        vec![10, 10, 10, 2, 4, 0, 2, 2, 4, 2, 10, 2],
        vec![10, 8, 10, 4, 2, 2, 0, 4, 2, 4, 10, 4],
        vec![10, 10, 10, 2, 4, 2, 4, 0, 2, 2, 10, 0],
        vec![10, 8, 10, 4, 2, 4, 2, 2, 0, 4, 10, 2],
        vec![10, 10, 10, 0, 2, 2, 4, 2, 4, 0, 10, 2],
        vec![2, 2, 0, 10, 10, 10, 10, 10, 10, 10, 0, 10],
        vec![10, 10, 10, 2, 4, 2, 4, 0, 2, 2, 10, 0],
    ];

    for indices in (0..TREES.len()).combinations(2) {
        let (i0, i1) = (indices[0], indices[1]);

        let t0 = tree_to_data(&PhyloTree::from_newick(TREES[i0]).unwrap());
        let t1 = tree_to_data(&PhyloTree::from_newick(TREES[i1]).unwrap());

        assert_eq!(robinson_foulds(&t0, &t1).unwrap(), rfs[i0][i1])
    }
}

#[test]
// Weighted split distances according to
// https://evolution.genetics.washington.edu/phylip/doc/treedist.html
fn weighted_robinson_foulds_treedist() {
    let base = [
        vec![0, 4, 2, 10, 10, 10, 10, 10, 10, 10, 2, 10],
        vec![4, 0, 2, 10, 8, 10, 8, 10, 8, 10, 2, 10],
        vec![2, 2, 0, 10, 10, 10, 10, 10, 10, 10, 0, 10],
        vec![10, 10, 10, 0, 2, 2, 4, 2, 4, 0, 10, 2],
        vec![10, 8, 10, 2, 0, 4, 2, 4, 2, 2, 10, 4],
        vec![10, 10, 10, 2, 4, 0, 2, 2, 4, 2, 10, 2],
        vec![10, 8, 10, 4, 2, 2, 0, 4, 2, 4, 10, 4],
        vec![10, 10, 10, 2, 4, 2, 4, 0, 2, 2, 10, 0],
        vec![10, 8, 10, 4, 2, 4, 2, 2, 0, 4, 10, 2],
        vec![10, 10, 10, 0, 2, 2, 4, 2, 4, 0, 10, 2],
        vec![2, 2, 0, 10, 10, 10, 10, 10, 10, 10, 0, 10],
        vec![10, 10, 10, 2, 4, 2, 4, 0, 2, 2, 10, 0],
    ];

    for indices in (0..TREES.len()).combinations(2) {
        let (i0, i1) = (indices[0], indices[1]);
        let t0 = tree_to_data(&PhyloTree::from_newick(TREES[i0]).unwrap());
        let t1 = tree_to_data(&PhyloTree::from_newick(TREES[i1]).unwrap());
        let s0 = TreeSnapshot::from_tree(&t0).unwrap();
        let s1 = TreeSnapshot::from_tree(&t1).unwrap();

        // every branch of these trees has length 0.1, so the weighted
        // distance is a tenth of the split-count distance
        let expected = 0.1f64 * base[i0][i1] as f64;
        assert!((weighted_of(&s0, &s1) - expected).abs() <= f64::EPSILON)
    }
}

#[test]
// Branch score distances according to
// https://evolution.genetics.washington.edu/phylip/doc/treedist.html
fn kuhner_felsenstein_treedist() {
    let rfs = [
        vec![
            0., 0.2, 0.14142135623730953, 0.316227766016838, 0.316227766016838,
            0.316227766016838, 0.316227766016838, 0.316227766016838, 0.316227766016838,
            0.316227766016838, 0.14142135623730953, 0.316227766016838,
        ],
        vec![
            0.2, 0., 0.14142135623730953, 0.316227766016838, 0.28284271247461906,
            0.316227766016838, 0.28284271247461906, 0.316227766016838, 0.28284271247461906,
            0.316227766016838, 0.14142135623730953, 0.316227766016838,
        ],
        vec![
            0.14142135623730953, 0.14142135623730953, 0., 0.316227766016838, 0.316227766016838,
            0.316227766016838, 0.316227766016838, 0.316227766016838, 0.316227766016838,
            0.316227766016838, 0., 0.316227766016838,
        ],
        vec![
            0.316227766016838, 0.316227766016838, 0.316227766016838, 0., 0.14142135623730953,
            0.14142135623730953, 0.2, 0.14142135623730953, 0.2, 0., 0.316227766016838,
            0.14142135623730953,
        ],
        vec![
            0.316227766016838, 0.28284271247461906, 0.316227766016838, 0.14142135623730953, 0.,
            0.2, 0.14142135623730953, 0.2, 0.14142135623730953, 0.14142135623730953,
            0.316227766016838, 0.2,
        ],
        vec![
            0.316227766016838, 0.316227766016838, 0.316227766016838, 0.14142135623730953, 0.2,
            0., 0.14142135623730953, 0.14142135623730953, 0.2, 0.14142135623730953,
            0.316227766016838, 0.14142135623730953,
        ],
        vec![
            0.316227766016838, 0.28284271247461906, 0.316227766016838, 0.2, 0.14142135623730953,
            0.14142135623730953, 0., 0.2, 0.14142135623730953, 0.2, 0.316227766016838, 0.2,
        ],
        vec![
            0.316227766016838, 0.316227766016838, 0.316227766016838, 0.14142135623730953, 0.2,
            0.14142135623730953, 0.2, 0., 0.14142135623730953, 0.14142135623730953,
            0.316227766016838, 0.,
        ],
        vec![
            0.316227766016838, 0.28284271247461906, 0.316227766016838, 0.2, 0.14142135623730953,
            0.2, 0.14142135623730953, 0.14142135623730953, 0., 0.2, 0.316227766016838,
            0.14142135623730953,
        ],
        vec![
            0.316227766016838, 0.316227766016838, 0.316227766016838, 0., 0.14142135623730953,
            0.14142135623730953, 0.2, 0.14142135623730953, 0.2, 0., 0.316227766016838,
            0.14142135623730953,
        ],
        vec![
            0.14142135623730953, 0.14142135623730953, 0., 0.316227766016838, 0.316227766016838,
            0.316227766016838, 0.316227766016838, 0.316227766016838, 0.316227766016838,
            0.316227766016838, 0., 0.316227766016838,
        ],
        vec![
            0.316227766016838, 0.316227766016838, 0.316227766016838, 0.14142135623730953, 0.2,
            0.14142135623730953, 0.2, 0., 0.14142135623730953, 0.14142135623730953,
            0.316227766016838, 0.,
        ],
    ];

    for indices in (0..TREES.len()).combinations(2) {
        let (i0, i1) = (indices[0], indices[1]);
        let t0 = tree_to_data(&PhyloTree::from_newick(TREES[i0]).unwrap());
        let t1 = tree_to_data(&PhyloTree::from_newick(TREES[i1]).unwrap());
        let s0 = TreeSnapshot::from_tree(&t0).unwrap();
        let s1 = TreeSnapshot::from_tree(&t1).unwrap();

        println!(
            "[{i0}, {i1}] c:{:?} ==? t:{}",
            branch_score_of(&s0, &s1),
            rfs[i0][i1]
        );

        assert_eq!(branch_score_of(&s0, &s1), rfs[i0][i1])
    }
}
