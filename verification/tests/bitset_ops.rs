use tree_dists::Bitset;

#[test]
fn test_bitset_basic() {
    let mut bs = Bitset::zeros(1);
    bs.set(0);
    bs.set(2);
    assert_eq!(bs.0[0], 0b0101);
}

#[test]
fn test_bitset_or() {
    let mut bs1 = Bitset::zeros(1);
    bs1.set(0);
    bs1.set(1);

    let mut bs2 = Bitset::zeros(1);
    bs2.set(2);
    bs2.set(3);

    bs1.or_assign(&bs2);
    assert_eq!(bs1.0[0], 0b1111);
}

#[test]
fn test_count_ones() {
    let mut bs = Bitset::zeros(1);
    bs.set(0);
    bs.set(2);
    bs.set(5);
    assert_eq!(bs.count_ones(), 3);
}

#[test]
fn test_mini_tree_example() {
    // Partition for node2: {B, C}
    let mut node2 = Bitset::zeros(1);
    node2.set(1); // B
    node2.set(2); // C
    assert_eq!(node2.0[0], 0b0110);
    assert_eq!(node2.count_ones(), 2);

    // Partition for node1: {A} union {B, C}
    let mut node1 = Bitset::zeros(1);
    node1.set(0); // A
    node1.or_assign(&node2);
    assert_eq!(node1.0[0], 0b0111);
    assert_eq!(node1.count_ones(), 3);
}

#[test]
fn test_large_tree() {
    // More than 64 leaves: several words
    let mut bs = Bitset::zeros(2);
    bs.set(0); // First word
    bs.set(63); // Last bit of first word
    bs.set(64); // First bit of second word
    bs.set(127); // Last bit of second word

    assert_eq!(bs.count_ones(), 4);
    assert_eq!(bs.0[0], 1u64 | (1u64 << 63));
    assert_eq!(bs.0[1], 1u64 | (1u64 << 63));
}

#[test]
fn canonical_flips_exactly_the_sides_holding_the_first_leaf() {
    // 4 leaves: A=0, B=1, C=2, D=3; {A,B} flips to {C,D}, {C,D} stays
    let mut part_ab = Bitset::zeros(1);
    part_ab.set(0);
    part_ab.set(1);
    let mut part_cd = Bitset::zeros(1);
    part_cd.set(2);
    part_cd.set(3);

    let canon_ab = part_ab.canonical(4);
    let canon_cd = part_cd.canonical(4);
    assert_eq!(canon_ab.0[0], 0b1100);
    assert_eq!(canon_cd.0[0], 0b1100);

    // canonicalizing an already-canonical vector returns it unchanged
    let twice = canon_ab.canonical(4);
    assert_eq!(twice.0, canon_ab.0);
}

#[test]
fn complement_covers_only_the_leaf_universe() {
    let mut bs = Bitset::zeros(1);
    bs.set(1);
    bs.set(3);
    let c = bs.complement(5);
    assert_eq!(c.0[0], 0b10101);
}
