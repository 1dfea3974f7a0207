use kractor::taxonomy::{
    build_tree_from_kraken_report, extract_children, extract_parents, ProcessedKrakenTree,
    ReportError, TaxonomyError, Tree,
};
use kractor::kraken::ReportLineError;
use std::collections::HashMap;

fn lines_of(text: &str) -> Vec<String> {
    text.lines().map(String::from).collect()
}

#[test]
fn test_build_tree_from_kraken_report_valid_with_unclassified() {
    let test_data = "\
        21.36\t745591\t745591\tU\t0\tunclassified
        78.64\t2745487\t1646\tR\t1\troot
        78.58\t2743340\t1360\tR1\t131567\t  cellular organisms
        78.21\t2730479\t8458\tD\t2\t    Bacteria
        61.55\t2148918\t1359\tD1\t1783272\t      Terrabacteria group
        61.40\t2143487\t321\tP\t1239\t        Bacillota
        61.37\t2142480\t8314\tC\t91062\t          Bacilli2
        61.37\t2142480\t8314\tC\t91061\t          Bacilli
        38.95\t1359681\t1300\tO\t1385\t            Bacillales
        16.53\t577203\t366\tF\t186817\t              Bacillaceae
        16.50\t576156\t22486\tG\t1386\t                Bacillus";
    let taxon_to_save = vec![1386, 1239];
    let ProcessedKrakenTree {
        nodes, taxon_map, ..
    } = build_tree_from_kraken_report(&taxon_to_save, &lines_of(test_data)).unwrap();
    println!("{:?}", nodes);
    assert_eq!(nodes.len(), 11);

    // Check unclassified
    assert_eq!(nodes[0].taxon_id, 0);
    assert_eq!(nodes[0].level_num, 0);
    assert_eq!(nodes[0].parent, None);
    assert_eq!(nodes[0].children, Vec::<usize>::new());

    // Check root
    assert_eq!(nodes[1].taxon_id, 1);
    assert_eq!(nodes[1].level_num, 0);
    assert_eq!(nodes[1].parent, None);
    assert_eq!(nodes[1].children, vec![2]);

    // Check Bacteria
    assert_eq!(nodes[3].taxon_id, 2);
    assert_eq!(nodes[3].level_num, 2);
    assert_eq!(nodes[3].parent, Some(2));
    assert_eq!(nodes[3].children, vec![4]);

    // Check Bacillota
    assert_eq!(nodes[5].taxon_id, 1239);
    assert_eq!(nodes[5].level_num, 4);
    assert_eq!(nodes[5].parent, Some(4));
    assert_eq!(nodes[5].children, vec![6, 7]);

    // Check that Bacilli2 and Bacilli are siblings (share same parent)
    assert_eq!(nodes[7].parent, Some(5));
    assert_eq!(nodes[6].parent, Some(5));

    // Check taxon map
    assert_eq!(taxon_map.len(), 2);
    assert_eq!(taxon_map[&1386], 10);
    assert_eq!(taxon_map[&1239], 5);
}

#[test]
fn test_build_tree_from_kraken_report_valid_no_unclassified() {
    let test_data = "\
        78.64\t2745487\t1646\tR\t1\troot
        78.58\t2743340\t1360\tR1\t131567\t  cellular organisms
        78.21\t2730479\t8458\tD\t2\t    Bacteria
        61.55\t2148918\t1359\tD1\t1783272\t      Terrabacteria group
        61.40\t2143487\t321\tP\t1239\t        Bacillota
        61.37\t2142480\t8314\tC\t91062\t          Bacilli2
        61.37\t2142480\t8314\tC\t91061\t          Bacilli
        38.95\t1359681\t1300\tO\t1385\t            Bacillales
        16.53\t577203\t366\tF\t186817\t              Bacillaceae
        16.50\t576156\t22486\tG\t1386\t                Bacillus";
    let taxon_to_save = vec![1386, 1239];
    let ProcessedKrakenTree {
        nodes, taxon_map, ..
    } = build_tree_from_kraken_report(&taxon_to_save, &lines_of(test_data)).unwrap();
    println!("{:?}", nodes);
    assert_eq!(nodes.len(), 10);

    // Check root
    assert_eq!(nodes[0].taxon_id, 1);
    assert_eq!(nodes[0].level_num, 0);
    assert_eq!(nodes[0].parent, None);
    assert_eq!(nodes[0].children, vec![1]);

    // Check Bacteria
    assert_eq!(nodes[2].taxon_id, 2);
    assert_eq!(nodes[2].level_num, 2);
    assert_eq!(nodes[2].parent, Some(1));
    assert_eq!(nodes[2].children, vec![3]);

    // Check Bacillota
    assert_eq!(nodes[4].taxon_id, 1239);
    assert_eq!(nodes[4].level_num, 4);
    assert_eq!(nodes[4].parent, Some(3));
    assert_eq!(nodes[4].children, vec![5, 6]);

    // Check that Bacilli2 and Bacilli are siblings (share same parent)
    assert_eq!(nodes[6].parent, Some(4));
    assert_eq!(nodes[5].parent, Some(4));

    // Check taxon map
    assert_eq!(taxon_map.len(), 2);
    assert_eq!(taxon_map[&1386], 9);
    assert_eq!(taxon_map[&1239], 4);
}

#[test]
fn test_build_tree_from_kraken_report_extract_unclassified() {
    let test_data = "\
        21.36\t745591\t745591\tU\t0\tunclassified
        78.64\t2745487\t1646\tR\t1\troot
        78.58\t2743340\t1360\tR1\t131567\t  cellular organisms
        78.21\t2730479\t8458\tD\t2\t    Bacteria
        61.55\t2148918\t1359\tD1\t1783272\t      Terrabacteria group
        61.40\t2143487\t321\tP\t1239\t        Bacillota
        61.37\t2142480\t8314\tC\t91062\t          Bacilli2
        61.37\t2142480\t8314\tC\t91061\t          Bacilli
        38.95\t1359681\t1300\tO\t1385\t            Bacillales
        16.53\t577203\t366\tF\t186817\t              Bacillaceae
        16.50\t576156\t22486\tG\t1386\t                Bacillus";
    let taxon_to_save = vec![1386, 1239, 0];
    let ProcessedKrakenTree {
        nodes, taxon_map, ..
    } = build_tree_from_kraken_report(&taxon_to_save, &lines_of(test_data)).unwrap();
    println!("{:?}", nodes);
    assert_eq!(nodes.len(), 11);

    // Check taxon map
    assert_eq!(taxon_map.len(), 3);
    assert_eq!(taxon_map[&0], 0);
    assert_eq!(taxon_map[&1386], 10);
    assert_eq!(taxon_map[&1239], 5);
}

#[test]
fn test_build_tree_from_kraken_report_partial_missing_taxon() {
    let test_data = "\
        21.36\t745591\t745591\tU\t0\tunclassified
        78.64\t2745487\t1646\tR\t1\troot
        78.58\t2743340\t1360\tR1\t131567\t  cellular organisms
        78.21\t2730479\t8458\tD\t2\t    Bacteria";
    let taxon_to_save = vec![1386, 2];
    let ProcessedKrakenTree {
        nodes,
        taxon_map,
        missing_taxon_ids: missing_taxons,
    } = build_tree_from_kraken_report(&taxon_to_save, &lines_of(test_data)).unwrap();
    assert_eq!(nodes.len(), 4);
    assert_eq!(taxon_map.len(), 1);
    assert!(taxon_map.contains_key(&2));
    assert!(!taxon_map.contains_key(&1386));
    assert_eq!(missing_taxons, vec![1386]);
}

#[test]
fn test_build_tree_from_kraken_report_all_missing_taxon() {
    let test_data = "\
        21.36\t745591\t745591\tU\t0\tunclassified
        78.64\t2745487\t1646\tR\t1\troot
        78.58\t2743340\t1360\tR1\t131567\t  cellular organisms";
    let taxon_to_save = vec![1386];
    let ProcessedKrakenTree {
        nodes,
        taxon_map,
        missing_taxon_ids: missing_taxons,
    } = build_tree_from_kraken_report(&taxon_to_save, &lines_of(test_data)).unwrap();
    assert_eq!(nodes.len(), 3);
    assert_eq!(taxon_map.len(), 0);
    assert_eq!(missing_taxons, vec![1386]);
}

#[test]
fn test_build_tree_from_kraken_report_invalid_line() {
    let test_data = "\
        21.36\t745591\t745591\tU\t0\tunclassified
        78.64\t2745487\t1646\tR\t1\troot
        IM_AN_INVALID_LINE(((>?<???
        78.58\t2743340\t1360\tR1\t131567\t  cellular organisms";
    let taxon_to_save = vec![131567];
    let result = build_tree_from_kraken_report(&taxon_to_save, &lines_of(test_data));
    assert!(result.is_err());
}

#[test]
fn report_error_names_the_first_bad_line() {
    let lines = lines_of("1\t1\t1\tR\t1\troot\nbad\n1\tx\t1\tS\t2\t  b");
    let err = build_tree_from_kraken_report(&[], &lines).unwrap_err();
    assert_eq!(
        err,
        ReportError {
            line: 2,
            error: ReportLineError::FieldCount(1)
        }
    );
}

#[test]
fn empty_report_gives_empty_tree() {
    let tree = build_tree_from_kraken_report(&[5], &[]).unwrap();
    assert!(tree.nodes.is_empty());
    assert!(tree.taxon_map.is_empty());
    assert_eq!(tree.missing_taxon_ids, vec![5]);
}

#[test]
fn dedent_climbs_back_to_the_right_parent() {
    let lines = lines_of(
        "1\t1\t1\tR\t1\troot\n\
         1\t1\t1\tD\t2\t  a\n\
         1\t1\t1\tP\t3\t    b\n\
         1\t1\t1\tC\t4\t      c\n\
         1\t1\t1\tP\t5\t    d\n\
         1\t1\t1\tD\t6\t  e\n\
         1\t1\t1\tC\t7\t      f",
    );
    let tree = build_tree_from_kraken_report(&[1, 7], &lines).unwrap();
    let parents: Vec<Option<usize>> = tree.nodes.iter().map(|n| n.parent).collect();
    // `f` sits two levels below `e` with no node in between: it finds no parent.
    assert_eq!(
        parents,
        vec![None, Some(0), Some(1), Some(2), Some(1), Some(0), None]
    );
    assert_eq!(tree.nodes[0].children, vec![1, 5]);
    assert_eq!(tree.nodes[1].children, vec![2, 4]);
    for (i, n) in tree.nodes.iter().enumerate() {
        if let Some(p) = n.parent {
            assert_eq!(tree.nodes[p].level_num + 1, n.level_num, "node {i}");
        }
    }
    // the root is looked up like any other requested taxon
    assert_eq!(tree.taxon_map[&1], 0);
    assert_eq!(
        extract_parents(&tree.taxon_map, &tree.nodes, 1).unwrap(),
        vec![1]
    );
}

#[test]
fn unclassified_and_root_have_no_parent() {
    let lines = lines_of("5\t1\t1\tU\t0\t  unclassified\n5\t1\t1\tR\t1\t  root\n1\t1\t1\tD\t2\t    b");
    let tree = build_tree_from_kraken_report(&[0, 1], &lines).unwrap();
    assert_eq!(tree.nodes[0].parent, None);
    assert_eq!(tree.nodes[1].parent, None);
    assert_eq!(tree.nodes[2].parent, Some(1));
    assert_eq!(
        extract_parents(&tree.taxon_map, &tree.nodes, 0).unwrap(),
        vec![0]
    );
    assert_eq!(
        extract_parents(&tree.taxon_map, &tree.nodes, 1).unwrap(),
        vec![1]
    );
}

#[test]
fn test_extract_parents_valid() {
    let nodes = vec![
        Tree::new(1, 0, None),
        Tree::new(10, 1, Some(0)),
        Tree::new(20, 2, Some(1)),
        Tree::new(30, 3, Some(2)),
    ];
    let mut tree = nodes.clone();
    tree[0].children.push(1);
    tree[1].children.push(2);
    tree[2].children.push(3);
    let mut taxon_map = HashMap::new();
    taxon_map.insert(1, 0);
    taxon_map.insert(10, 1);
    taxon_map.insert(20, 2);
    taxon_map.insert(30, 3);
    let parents = extract_parents(&taxon_map, &tree, 30).unwrap();
    assert_eq!(parents, vec![30, 20, 10, 1]);
    let parents = extract_parents(&taxon_map, &tree, 20).unwrap();
    assert_eq!(parents, vec![20, 10, 1]);
    let parents = extract_parents(&taxon_map, &tree, 10).unwrap();
    assert_eq!(parents, vec![10, 1]);
    let parents = extract_parents(&taxon_map, &tree, 1).unwrap();
    assert_eq!(parents, vec![1]);
}

#[test]
fn extract_parents_errors() {
    let nodes = vec![Tree::new(1, 0, None), Tree::new(10, 1, Some(1))];
    let mut taxon_map = HashMap::new();
    taxon_map.insert(10, 1);
    taxon_map.insert(99, 7);
    assert_eq!(
        extract_parents(&taxon_map, &nodes, 5),
        Err(TaxonomyError::TaxonNotFound(5))
    );
    // a node that is its own parent: a cycle
    assert_eq!(
        extract_parents(&taxon_map, &nodes, 10),
        Err(TaxonomyError::CorruptTree)
    );
    // an index beyond the nodes
    assert_eq!(
        extract_parents(&taxon_map, &nodes, 99),
        Err(TaxonomyError::CorruptTree)
    );
}

#[test]
fn test_extract_children_valid() {
    let mut nodes = vec![
        Tree::new(1, 0, None),
        Tree::new(10, 1, Some(0)),
        Tree::new(20, 1, Some(0)),
        Tree::new(30, 2, Some(1)),
        Tree::new(40, 2, Some(1)),
    ];
    nodes[0].children = vec![1, 2];
    nodes[1].children = vec![3, 4];
    let mut result = Vec::new();
    extract_children(&nodes, 0, &mut result).unwrap();
    assert_eq!(result, vec![30, 40, 10, 20, 1]);
    let mut result = Vec::new();
    extract_children(&nodes, 1, &mut result).unwrap();
    assert_eq!(result, vec![30, 40, 10]);
    let mut result = Vec::new();
    extract_children(&nodes, 3, &mut result).unwrap();
    assert_eq!(result, vec![30]);
}

#[test]
fn extract_children_appends_and_checks_links() {
    let mut nodes = vec![Tree::new(1, 0, None), Tree::new(10, 1, Some(0))];
    nodes[0].children = vec![1];
    let mut result = vec![7];
    extract_children(&nodes, 0, &mut result).unwrap();
    assert_eq!(result, vec![7, 10, 1]);
    let mut result = Vec::new();
    assert_eq!(
        extract_children(&nodes, 2, &mut result),
        Err(TaxonomyError::CorruptTree)
    );
    nodes[1].children = vec![0];
    let mut result = Vec::new();
    assert_eq!(
        extract_children(&nodes, 0, &mut result),
        Err(TaxonomyError::CorruptTree)
    );
}

#[test]
fn children_of_bacillota_in_report() {
    let lines = lines_of(
        "61.40\t2143487\t321\tP\t1239\t        Bacillota\n\
         61.37\t2142480\t8314\tC\t91062\t          Bacilli2\n\
         61.37\t2142480\t8314\tC\t91061\t          Bacilli",
    );
    let tree = build_tree_from_kraken_report(&[1239], &lines).unwrap();
    let mut result = Vec::new();
    extract_children(&tree.nodes, tree.taxon_map[&1239], &mut result).unwrap();
    assert_eq!(result, vec![91062, 91061, 1239]);
}

#[test]
fn subtree_is_union_of_child_subtrees() {
    let lines = lines_of(
        "1\t1\t1\tR\t1\troot\n\
         1\t1\t1\tD\t2\t  a\n\
         1\t1\t1\tP\t3\t    b\n\
         1\t1\t1\tP\t4\t    c\n\
         1\t1\t1\tD\t5\t  d",
    );
    let tree = build_tree_from_kraken_report(&[1], &lines).unwrap();
    let mut whole = Vec::new();
    extract_children(&tree.nodes, 0, &mut whole).unwrap();
    let mut parts = Vec::new();
    for &c in &tree.nodes[0].children {
        extract_children(&tree.nodes, c, &mut parts).unwrap();
    }
    parts.push(1);
    assert_eq!(whole, parts);
    assert_eq!(whole, vec![3, 4, 2, 5, 1]);
}

#[test]
fn reversed_parents_walk_down_from_root() {
    let lines = lines_of(
        "1\t1\t1\tR\t1\troot\n\
         1\t1\t1\tD\t2\t  a\n\
         1\t1\t1\tP\t3\t    b",
    );
    let tree = build_tree_from_kraken_report(&[3], &lines).unwrap();
    let mut path = extract_parents(&tree.taxon_map, &tree.nodes, 3).unwrap();
    path.reverse();
    assert_eq!(path, vec![1, 2, 3]);
}

#[test]
fn walks_accept_links_in_any_order() {
    // node 0's parent is node 1, which comes after it
    let mut nodes = vec![Tree::new(10, 1, Some(1)), Tree::new(1, 0, None)];
    nodes[1].children = vec![0];
    let mut taxon_map = HashMap::new();
    taxon_map.insert(10, 0);
    assert_eq!(
        extract_parents(&taxon_map, &nodes, 10).unwrap(),
        vec![10, 1]
    );
    let mut result = Vec::new();
    extract_children(&nodes, 1, &mut result).unwrap();
    assert_eq!(result, vec![10, 1]);
}

#[test]
fn walks_reject_cycles() {
    let mut nodes = vec![Tree::new(1, 0, Some(1)), Tree::new(2, 0, Some(0))];
    nodes[0].children = vec![1];
    nodes[1].children = vec![0];
    let mut taxon_map = HashMap::new();
    taxon_map.insert(1, 0);
    assert_eq!(
        extract_parents(&taxon_map, &nodes, 1),
        Err(TaxonomyError::CorruptTree)
    );
    let mut result = vec![5];
    assert_eq!(
        extract_children(&nodes, 0, &mut result),
        Err(TaxonomyError::CorruptTree)
    );
    assert_eq!(result[0], 5);
}
