use tree_dists::distances::{paired_lengths, rf_from_snapshots, robinson_foulds};
use tree_dists::pairwise::{sanity_check_trees, InputValidationError};
use tree_dists::tree::{TreeData, TreeNode};
use tree_dists::Bitset;
use tree_dists::TreeSnapshot;

fn node(name: Option<&str>, children: Vec<usize>, edge: Option<f64>) -> TreeNode {
    TreeNode {
        name: name.map(|s| s.as_bytes().to_vec()),
        children,
        parent_edge: edge.map(f64::to_bits),
    }
}

fn weighted(a: &TreeSnapshot, b: &TreeSnapshot) -> f64 {
    let mut d = 0.0f64;
    for (x, y) in paired_lengths(a, b) {
        d += (f64::from_bits(x) - f64::from_bits(y)).abs();
    }
    d
}

fn branch_score(a: &TreeSnapshot, b: &TreeSnapshot) -> f64 {
    let mut d = 0.0f64;
    for (x, y) in paired_lengths(a, b) {
        let diff = f64::from_bits(x) - f64::from_bits(y);
        d += diff * diff;
    }
    d.sqrt()
}

/// ((A,B),(C,D)) with the given inner branch lengths.
fn four_leaf_ab_cd(len_ab: f64, len_cd: f64) -> TreeData {
    TreeData {
        nodes: vec![
            node(None, vec![1, 2], None),
            node(None, vec![3, 4], Some(len_ab)),
            node(None, vec![5, 6], Some(len_cd)),
            node(Some("A"), vec![], Some(0.1)),
            node(Some("B"), vec![], Some(0.1)),
            node(Some("C"), vec![], Some(0.1)),
            node(Some("D"), vec![], Some(0.1)),
        ],
        root: 0,
        rooted: true,
    }
}

/// ((A,C),(B,D)).
fn four_leaf_ac_bd() -> TreeData {
    TreeData {
        nodes: vec![
            node(None, vec![1, 2], None),
            node(None, vec![3, 5], Some(2.0)),
            node(None, vec![4, 6], Some(2.0)),
            node(Some("A"), vec![], Some(0.1)),
            node(Some("B"), vec![], Some(0.1)),
            node(Some("C"), vec![], Some(0.1)),
            node(Some("D"), vec![], Some(0.1)),
        ],
        root: 0,
        rooted: true,
    }
}

/// A ten-leaf ladder; `ids` permutes the node identifiers.
fn ten_leaf_ladder(perm: &dyn Fn(usize) -> usize) -> TreeData {
    // node 0: root with children {leaf 1, inner 2}; inner k: {leaf, next}
    // leaves named L0..L9; 19 nodes in all
    let names = ["L0", "L1", "L2", "L3", "L4", "L5", "L6", "L7", "L8", "L9"];
    let mut raw: Vec<(Option<&str>, Vec<usize>, Option<f64>)> = Vec::new();
    raw.push((None, vec![1, 2], None)); // 0: root
    raw.push((Some(names[0]), vec![], Some(0.5))); // 1
    // inner chain nodes 2,4,6,..,16; leaf nodes 3,5,...,17; final pair leaf 18
    for k in 0..8 {
        let inner = 2 + 2 * k;
        let leaf = inner + 1;
        let next = inner + 2;
        raw.push((None, vec![leaf, next], Some(1.0 + k as f64))); // inner
        raw.push((Some(names[k + 1]), vec![], Some(0.25))); // leaf
    }
    raw.push((Some(names[9]), vec![], Some(0.75))); // 18: last leaf
    let n = raw.len();
    let mut nodes: Vec<TreeNode> = (0..n).map(|_| node(None, vec![], None)).collect();
    for (idx, (nm, ch, e)) in raw.into_iter().enumerate() {
        let mapped_children: Vec<usize> = ch.into_iter().map(|c| perm(c)).collect();
        nodes[perm(idx)] = node(nm, mapped_children, e);
    }
    TreeData { nodes, root: perm(0), rooted: true }
}

#[test]
fn self_distance_is_zero_in_all_three_metrics() {
    let t = four_leaf_ab_cd(2.0, 3.0);
    let s = TreeSnapshot::from_tree(&t).unwrap();
    assert_eq!(rf_from_snapshots(&s, &s), 0);
    assert_eq!(weighted(&s, &s), 0.0);
    assert_eq!(branch_score(&s, &s), 0.0);
}

#[test]
fn all_three_metrics_are_symmetric() {
    let ta = four_leaf_ab_cd(2.0, 3.0);
    let tb = four_leaf_ac_bd();
    let sa = TreeSnapshot::from_tree(&ta).unwrap();
    let sb = TreeSnapshot::from_tree(&tb).unwrap();
    assert_eq!(rf_from_snapshots(&sa, &sb), rf_from_snapshots(&sb, &sa));
    assert_eq!(weighted(&sa, &sb), weighted(&sb, &sa));
    assert_eq!(branch_score(&sa, &sb), branch_score(&sb, &sa));
}

#[test]
fn four_leaf_trees_with_no_shared_split_are_at_distance_four() {
    let ta = four_leaf_ab_cd(2.0, 2.0);
    let tb = four_leaf_ac_bd();
    assert_eq!(robinson_foulds(&ta, &tb).unwrap(), 4);
}

#[test]
fn node_identifier_permutation_changes_nothing() {
    let ident = ten_leaf_ladder(&|i| i);
    // rotate every node identifier, root included
    let permuted = ten_leaf_ladder(&|i| (i + 7) % 19);
    let s1 = TreeSnapshot::from_tree(&ident).unwrap();
    let s2 = TreeSnapshot::from_tree(&permuted).unwrap();
    assert_eq!(rf_from_snapshots(&s1, &s2), 0);
    assert_eq!(weighted(&s1, &s2), 0.0);
    assert_eq!(branch_score(&s1, &s2), 0.0);
    // the snapshots agree split for split
    let w1: Vec<Vec<u64>> = s1.parts.iter().map(|p| p.0.clone()).collect();
    let w2: Vec<Vec<u64>> = s2.parts.iter().map(|p| p.0.clone()).collect();
    assert_eq!(w1, w2);
    assert_eq!(s1.lengths, s2.lengths);
}

#[test]
fn shared_split_lengths_contribute_their_differences() {
    // two snapshots sharing split {A,B} with lengths 2.0 vs 3.0 and split
    // {C,D} with lengths 2.0 vs 2.0: the weighted contribution of the two
    // shared splits is 1.0 + 0.0 = 1.0
    let mut ab = Bitset::zeros(1);
    ab.set(0);
    ab.set(1);
    let mut cd = Bitset::zeros(1);
    cd.set(2);
    cd.set(3);
    let a = TreeSnapshot {
        parts: vec![ab.duplicate(), cd.duplicate()],
        lengths: vec![2.0f64.to_bits(), 2.0f64.to_bits()],
        root_children: vec![],
        words: 1,
        num_leaves: 4,
        rooted: false,
    };
    let b = TreeSnapshot {
        parts: vec![ab, cd],
        lengths: vec![3.0f64.to_bits(), 2.0f64.to_bits()],
        root_children: vec![],
        words: 1,
        num_leaves: 4,
        rooted: false,
    };
    assert_eq!(weighted(&a, &b), 1.0);
}

#[test]
fn differing_root_attachment_adds_exactly_two() {
    let ta = four_leaf_ab_cd(2.0, 2.0);
    let tb = four_leaf_ac_bd();
    let sa = TreeSnapshot::from_tree(&ta).unwrap();
    let sb = TreeSnapshot::from_tree(&tb).unwrap();
    // the two rooted trees hang their roots differently
    let d = rf_from_snapshots(&sa, &sb);

    // the same pair with identical root signatures
    let shared_sig: Vec<Bitset> = sa.root_children.iter().map(|b| b.duplicate()).collect();
    let sa2 = TreeSnapshot {
        parts: sa.parts.iter().map(|p| p.duplicate()).collect(),
        lengths: sa.lengths.clone(),
        root_children: sa.root_children.iter().map(|b| b.duplicate()).collect(),
        words: sa.words,
        num_leaves: sa.num_leaves,
        rooted: true,
    };
    let sb2 = TreeSnapshot {
        parts: sb.parts.iter().map(|p| p.duplicate()).collect(),
        lengths: sb.lengths.clone(),
        root_children: shared_sig,
        words: sb.words,
        num_leaves: sb.num_leaves,
        rooted: true,
    };
    let d2 = rf_from_snapshots(&sa2, &sb2);
    assert_eq!(d, d2 + 2);

    // when the unadjusted distance is already 0, no adjustment applies
    let same = four_leaf_ab_cd(2.0, 2.0);
    let ss = TreeSnapshot::from_tree(&same).unwrap();
    assert_eq!(rf_from_snapshots(&sa, &ss), 0);
}

#[test]
fn batch_checks_name_the_first_offending_tree() {
    let empty: Vec<TreeData> = vec![];
    assert_eq!(sanity_check_trees(&empty).unwrap_err(), InputValidationError::NoTrees);

    let one = vec![four_leaf_ab_cd(1.0, 1.0)];
    assert_eq!(sanity_check_trees(&one).unwrap_err(), InputValidationError::TooFewTrees);

    let ok = vec![four_leaf_ab_cd(1.0, 1.0), four_leaf_ac_bd()];
    assert!(sanity_check_trees(&ok).is_ok());

    // a tree with an extra taxon
    let bigger = TreeData {
        nodes: vec![
            node(None, vec![1, 2], None),
            node(None, vec![3, 4], Some(1.0)),
            node(None, vec![5, 6], Some(1.0)),
            node(Some("A"), vec![], None),
            node(Some("B"), vec![], None),
            node(Some("C"), vec![], None),
            node(None, vec![7, 8], Some(1.0)),
            node(Some("D"), vec![], None),
            node(Some("E"), vec![], None),
        ],
        root: 0,
        rooted: true,
    };
    let counts = vec![four_leaf_ab_cd(1.0, 1.0), bigger];
    assert_eq!(
        sanity_check_trees(&counts).unwrap_err(),
        InputValidationError::LeafCountMismatch(1)
    );

    // same count, different names
    let renamed = TreeData {
        nodes: vec![
            node(None, vec![1, 2], None),
            node(None, vec![3, 4], Some(1.0)),
            node(None, vec![5, 6], Some(1.0)),
            node(Some("A"), vec![], None),
            node(Some("B"), vec![], None),
            node(Some("C"), vec![], None),
            node(Some("X"), vec![], None),
        ],
        root: 0,
        rooted: true,
    };
    let sets = vec![four_leaf_ab_cd(1.0, 1.0), renamed];
    assert_eq!(
        sanity_check_trees(&sets).unwrap_err(),
        InputValidationError::LeafSetMismatch(1)
    );
}
