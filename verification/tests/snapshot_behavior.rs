use tree_dists::tree::{TreeData, TreeNode, TreeStructureError};
use tree_dists::Bitset;
use tree_dists::TreeSnapshot;

fn node(name: Option<&str>, children: Vec<usize>, edge: Option<f64>) -> TreeNode {
    TreeNode {
        name: name.map(|s| s.as_bytes().to_vec()),
        children,
        parent_edge: edge.map(f64::to_bits),
    }
}

#[test]
fn test_depth3_tree_partitions() {
    // Tree:     root
    //          /    \
    //      node1    node2
    //      /   \    /   \
    //     A     B  C     D
    //
    // node1 splits {A,B} vs {C,D} and node2 splits {C,D} vs {A,B}: the same
    // bipartition read from its two sides, so both canonicalize to {C,D}.
    let mut part_ab = Bitset::zeros(1);
    part_ab.set(0); // A
    part_ab.set(1); // B

    let mut part_cd = Bitset::zeros(1);
    part_cd.set(2); // C
    part_cd.set(3); // D

    assert_eq!(part_ab.canonical(4).0, part_cd.canonical(4).0);

    // the snapshot of that tree indeed collapses the two sides into one split
    let tree = TreeData {
        nodes: vec![
            node(None, vec![1, 2], None),            // 0: root
            node(None, vec![3, 4], Some(1.0)),       // 1: node1 {A,B}
            node(None, vec![5, 6], Some(2.0)),       // 2: node2 {C,D}
            node(Some("A"), vec![], Some(0.1)),      // 3
            node(Some("B"), vec![], Some(0.1)),      // 4
            node(Some("C"), vec![], Some(0.1)),      // 5
            node(Some("D"), vec![], Some(0.1)),      // 6
        ],
        root: 0,
        rooted: true,
    };
    let snap = TreeSnapshot::from_tree(&tree).unwrap();
    assert_eq!(snap.parts.len(), 1);
    assert_eq!(snap.parts[0].0[0], 0b1100);
    // duplicates collapse and the higher-indexed branch's length stays
    assert_eq!(f64::from_bits(snap.lengths[0]), 2.0);
}

#[test]
fn test_asymmetric_tree_example() {
    // Leaves: A=0, B=1, C=2, D=3, E=4 (5 leaves)

    // node3: {B, C}
    let mut node3 = Bitset::zeros(1);
    node3.set(1); // B
    node3.set(2); // C
    assert_eq!(node3.0[0], 0b00110);
    assert!((node3.0[0] & 1) == 0); // No A, keep as-is

    // node2: {A, B, C}
    let mut node2 = Bitset::zeros(1);
    node2.set(0); // A
    node2.set(1); // B
    node2.set(2); // C
    assert_eq!(node2.0[0], 0b00111);
    assert!((node2.0[0] & 1) != 0); // Has A, flips
    assert_eq!(node2.canonical(5).0[0], 0b11000); // {D, E}

    // node1: {A, B, C, D}
    let mut node1 = Bitset::zeros(1);
    node1.set(0); // A
    node1.set(1); // B
    node1.set(2); // C
    node1.set(3); // D
    assert_eq!(node1.0[0], 0b01111);
    assert!((node1.0[0] & 1) != 0); // Has A, flips
    assert_eq!(node1.canonical(5).0[0], 0b10000); // {E}

    // all three canonical splits are distinct: the full snapshot keeps three
    let tree = TreeData {
        nodes: vec![
            node(None, vec![1, 8], None),       // 0: root
            node(None, vec![2, 7], Some(0.5)),  // 1: {A,B,C,D}
            node(None, vec![4, 3], Some(0.5)),  // 2: {A,B,C}
            node(None, vec![5, 6], Some(0.5)),  // 3: {B,C}
            node(Some("A"), vec![], None),      // 4
            node(Some("B"), vec![], None),      // 5
            node(Some("C"), vec![], None),      // 6
            node(Some("D"), vec![], None),      // 7
            node(Some("E"), vec![], None),      // 8
        ],
        root: 0,
        rooted: true,
    };
    let snap = TreeSnapshot::from_tree(&tree).unwrap();
    assert_eq!(snap.parts.len(), 3);
    let words: Vec<u64> = snap.parts.iter().map(|p| p.0[0]).collect();
    assert_eq!(words, vec![0b00110, 0b10000, 0b11000]);
}

#[test]
fn test_canonicalization() {
    // 4 leaves: A=0, B=1, C=2, D=3

    // Partition {A, B}
    let mut part_ab = Bitset::zeros(1);
    part_ab.set(0); // A
    part_ab.set(1); // B
    assert_eq!(part_ab.0[0], 0b0011);

    // Partition {C, D} (complement of {A,B})
    let mut part_cd = Bitset::zeros(1);
    part_cd.set(2); // C
    part_cd.set(3); // D
    assert_eq!(part_cd.0[0], 0b1100);

    // The same bipartition, seen from its two sides
    assert!((part_ab.0[0] & 1) != 0); // A is in {A,B}
    assert!((part_cd.0[0] & 1) == 0); // A is NOT in {C,D}

    // So {A,B} flips to its complement {C,D}
    assert_eq!(part_ab.canonical(4).0[0], 0b1100);
}

#[test]
fn test_taxon_names_vs_node_ids() {
    // Two trees with the same taxa under different node identifiers
    let tree1_leaves = vec![(7, "Human"), (3, "Chimp"), (15, "Gorilla")];
    let tree2_leaves = vec![(5, "Human"), (8, "Chimp"), (12, "Gorilla")];

    let mut sorted1 = tree1_leaves.clone();
    let mut sorted2 = tree2_leaves.clone();
    sorted1.sort_by(|a, b| a.1.cmp(b.1));
    sorted2.sort_by(|a, b| a.1.cmp(b.1));

    assert_eq!(sorted1[0].1, "Chimp");
    assert_eq!(sorted1[1].1, "Gorilla");
    assert_eq!(sorted1[2].1, "Human");

    assert_eq!(sorted2[0].1, "Chimp");
    assert_eq!(sorted2[1].1, "Gorilla");
    assert_eq!(sorted2[2].1, "Human");

    // Partition {Chimp, Human} = bits 0,2 = 0b101 in BOTH trees
    let mut partition = Bitset::zeros(1);
    partition.set(0); // Chimp
    partition.set(2); // Human
    assert_eq!(partition.0[0], 0b101);
}

#[test]
fn test_consistent_leaf_ordering() {
    // Two trees with the same taxa but different ids and listing order
    let mut leaves1 = [(0, "Chimp"), (1, "Human"), (2, "Gorilla")];
    let mut leaves2 = [(5, "Human"), (3, "Chimp"), (7, "Gorilla")];

    leaves1.sort_by(|a, b| a.1.cmp(b.1));
    leaves2.sort_by(|a, b| a.1.cmp(b.1));

    assert_eq!(leaves1[0].1, "Chimp"); // index 0
    assert_eq!(leaves1[1].1, "Gorilla"); // index 1
    assert_eq!(leaves1[2].1, "Human"); // index 2

    assert_eq!(leaves2[0].1, "Chimp"); // index 0
    assert_eq!(leaves2[1].1, "Gorilla"); // index 1
    assert_eq!(leaves2[2].1, "Human"); // index 2
}

#[test]
fn test_snapshot_concept() {
    //       root
    //      /    \
    //     A     node1 (length: 0.5)
    //           /   \
    //          B     C
    let tree = TreeData {
        nodes: vec![
            node(None, vec![1, 2], None),          // 0: root
            node(Some("A"), vec![], Some(0.2)),    // 1
            node(None, vec![3, 4], Some(0.5)),     // 2: node1
            node(Some("B"), vec![], Some(0.3)),    // 3
            node(Some("C"), vec![], Some(0.4)),    // 4
        ],
        root: 0,
        rooted: true,
    };
    let snap = TreeSnapshot::from_tree(&tree).unwrap();
    // parts: [{B,C}] as bitset 0b0110, with length 0.5
    assert_eq!(snap.parts.len(), 1);
    assert_eq!(snap.parts[0].0[0], 0b0110);
    assert_eq!(f64::from_bits(snap.lengths[0]), 0.5);
    // root signature: [{A}, {B,C}] sorted by vector order
    let sig: Vec<u64> = snap.root_children.iter().map(|b| b.0[0]).collect();
    assert_eq!(sig, vec![0b0001, 0b0110]);
    assert_eq!(snap.num_leaves, 3);
    assert_eq!(snap.words, 1);
    assert!(snap.rooted);
}

#[test]
fn structural_errors_name_the_defect() {
    // missing root
    let t1 = TreeData { nodes: vec![], root: 0, rooted: false };
    assert_eq!(TreeSnapshot::from_tree(&t1).unwrap_err(), TreeStructureError::MissingRoot);

    // dangling child reference
    let t2 = TreeData {
        nodes: vec![node(None, vec![1, 9], None), node(Some("A"), vec![], None)],
        root: 0,
        rooted: false,
    };
    assert_eq!(TreeSnapshot::from_tree(&t2).unwrap_err(), TreeStructureError::DanglingReference);

    // cycle
    let t3 = TreeData {
        nodes: vec![node(None, vec![1], None), node(None, vec![0], None)],
        root: 0,
        rooted: false,
    };
    assert_eq!(TreeSnapshot::from_tree(&t3).unwrap_err(), TreeStructureError::CyclicReference);
}
