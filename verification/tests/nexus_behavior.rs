use tree_dists::nexus::{
    collect_tree_blocks, extract_state, parse_taxon_block, split_lines, strip_beast_annotations,
};
use tree_dists::tree::{rename_leaf_nodes, TreeData, TreeNode};

fn bytes(s: &str) -> Vec<u8> {
    s.as_bytes().to_vec()
}

#[test]
fn annotations_vanish_and_lengths_stay() {
    let newick = bytes("((A:[&rate=0.123]2.45,B:[&x={1,2}]1.0):0.5,C:3.0);");
    let stripped = strip_beast_annotations(&newick);
    assert_eq!(stripped, bytes("((A:2.45,B:1.0):0.5,C:3.0);"));

    // a lone bracket outside an annotation passes through
    let odd = bytes("a[b]c");
    assert_eq!(strip_beast_annotations(&odd), bytes("a[b]c"));

    // unterminated annotations swallow the rest
    let open = bytes("x[&unfinished");
    assert_eq!(strip_beast_annotations(&open), bytes("x"));
}

#[test]
fn state_numbers_come_from_the_first_tag() {
    assert_eq!(extract_state(&bytes("tree STATE_120000 = ...")), 120000);
    assert_eq!(extract_state(&bytes("tree state_7 = ...")), 7);
    assert_eq!(extract_state(&bytes("tree SAMPLE_12 = ...")), 0);
    assert_eq!(extract_state(&bytes("tree STATE_ = ...")), 0);
    assert_eq!(extract_state(&bytes("STATE_3 then STATE_9")), 3);
    // a number too large for the machine reads as 0
    assert_eq!(extract_state(&bytes("STATE_99999999999999999999999999")), 0);
}

#[test]
fn tree_statements_are_cut_between_the_first_tree_line_and_the_end_line() {
    let content = bytes(
        "#NEXUS\nBegin trees;\n\tTranslate\n\t\t1 'X',\n\t\t2 'Y';\ntree STATE_0 = ((1,2));\ntree STATE_10 = ((2,1));\nEnd;\nafter = ignored\n",
    );
    let blocks = collect_tree_blocks(&content);
    assert_eq!(blocks.len(), 2);
    assert_eq!(blocks[0].header, bytes("tree STATE_0"));
    assert_eq!(blocks[0].body, bytes("((1,2));"));
    assert_eq!(blocks[1].header, bytes("tree STATE_10"));
    assert_eq!(blocks[1].body, bytes("((2,1));"));

    // lines without a separator inside the window contribute nothing
    let sparse = bytes("TREE a = x;\nnoise\ntree b = y;\nEND;\n");
    let blocks2 = collect_tree_blocks(&sparse);
    assert_eq!(blocks2.len(), 2);
    assert_eq!(blocks2[1].body, bytes("y;"));
}

#[test]
fn taxon_table_maps_identifiers_to_unquoted_labels() {
    let content = bytes(
        "Begin trees;\n\tTranslate\n\t\t1 '1959.M.CD.59.ZR59',\n\t\t2 '1960.DRC60A',\n\t\t3 plain,\n\t\t;\ntree STATE_0 = ((1,2),3);\nEnd;\n",
    );
    let taxa = parse_taxon_block(&content);
    assert_eq!(taxa.len(), 3);
    assert_eq!(taxa[0], (bytes("1"), bytes("1959.M.CD.59.ZR59")));
    assert_eq!(taxa[1], (bytes("2"), bytes("1960.DRC60A")));
    assert_eq!(taxa[2], (bytes("3"), bytes("plain")));
}

#[test]
fn lines_split_at_newlines_and_drop_carriage_returns() {
    let content = bytes("one\r\ntwo\nthree");
    let ls = split_lines(&content);
    assert_eq!(ls, vec![bytes("one"), bytes("two"), bytes("three")]);
    assert_eq!(split_lines(&bytes("")), Vec::<Vec<u8>>::new());
}

#[test]
fn renaming_follows_the_table_and_drops_unknown_names() {
    let mut tree = TreeData {
        nodes: vec![
            TreeNode { name: None, children: vec![1, 2], parent_edge: None },
            TreeNode { name: Some(bytes("1")), children: vec![], parent_edge: None },
            TreeNode { name: Some(bytes("9")), children: vec![], parent_edge: None },
        ],
        root: 0,
        rooted: true,
    };
    let table = vec![(bytes("1"), bytes("Human")), (bytes("2"), bytes("Chimp"))];
    rename_leaf_nodes(&mut tree, &table);
    assert_eq!(tree.nodes[1].name, Some(bytes("Human")));
    // an identifier missing from the table leaves the leaf nameless
    assert_eq!(tree.nodes[2].name, None);
    // inner nodes keep their (missing) name
    assert_eq!(tree.nodes[0].name, None);
}
