use kractor::kraken::ReportLineError;
use kractor::selection::{collect_taxons_to_save, sort_and_dedup, SelectionError};
use kractor::taxonomy::ReportError;

fn create_test_kraken_report() -> Vec<String> {
    let test_data = "\
        21.36\t745591\t745591\tU\t0\tunclassified
        78.64\t2745487\t1646\tR\t1\troot
        78.58\t2743340\t1360\tR1\t131567\t  cellular organisms
        78.21\t2730479\t8458\tD\t2\t    Bacteria
        61.55\t2148918\t1359\tD1\t1783272\t      Terrabacteria group
        61.40\t2143487\t321\tP\t1239\t        Bacillota
        61.37\t2142480\t8314\tC\t91062\t          Bacilli2
        61.37\t2142480\t8314\tC\t91061\t          Bacilli
        38.95\t1359681\t1300\tO\t1385\t            Bacillales
        16.53\t577203\t366\tF\t186817\t              Bacillaceae
        16.50\t576156\t22486\tG\t1386\t                Bacillus";
    test_data.lines().map(String::from).collect()
}

#[test]
fn test_error_when_no_report_and_parents_or_children() {
    let result = collect_taxons_to_save(&None, true, false, vec![1]);
    assert!(result.is_err());
    let result = collect_taxons_to_save(&None, false, true, vec![1]);
    assert!(result.is_err());
}

#[test]
fn test_no_report() {
    let taxids = vec![123, 456, 789];
    let saved_taxons = collect_taxons_to_save(&None, false, false, taxids.clone()).unwrap();

    assert_eq!(saved_taxons, taxids);
}

#[test]
fn test_no_parents_no_children() {
    let report = create_test_kraken_report();
    let taxids = vec![1385, 1386, 91061];
    let saved_taxons =
        collect_taxons_to_save(&Some(report), false, false, taxids.clone()).unwrap();

    assert_eq!(saved_taxons, taxids);
}

#[test]
fn test_children() {
    let report = create_test_kraken_report();
    let taxids = vec![1239];
    let saved_taxons = collect_taxons_to_save(&Some(report), true, false, taxids).unwrap();

    assert!(saved_taxons.contains(&1239));
    assert!(saved_taxons.contains(&91062));
    assert!(saved_taxons.contains(&91061));
}

#[test]
fn test_parents() {
    let report = create_test_kraken_report();
    let taxids = vec![91061];
    let saved_taxons = collect_taxons_to_save(&Some(report), false, true, taxids).unwrap();

    assert!(saved_taxons.contains(&91061));
    assert!(saved_taxons.contains(&1239));
    assert!(saved_taxons.contains(&1783272));
    assert!(saved_taxons.contains(&131567));
    assert!(saved_taxons.contains(&2));
}

#[test]
fn test_taxon_not_exist() {
    let report = create_test_kraken_report();
    let taxids = vec![999];
    let result = collect_taxons_to_save(&Some(report), true, false, taxids);

    assert!(result.is_err());
}

#[test]
fn test_dedup_and_sort() {
    let taxids = vec![456, 123, 456, 789, 123];
    let saved_taxons = collect_taxons_to_save(&None, false, false, taxids).unwrap();

    assert_eq!(saved_taxons, vec![123, 456, 789]);
}

#[test]
fn test_empty_result() {
    let result = collect_taxons_to_save(&None, false, false, vec![]);

    assert!(result.is_err());
}

#[test]
fn children_and_parents_exact_sets() {
    let report = create_test_kraken_report();
    let children = collect_taxons_to_save(&Some(report.clone()), true, false, vec![1239]).unwrap();
    assert_eq!(children, vec![1239, 1385, 1386, 91061, 91062, 186817]);
    let parents = collect_taxons_to_save(&Some(report.clone()), false, true, vec![91061]).unwrap();
    assert_eq!(parents, vec![1, 2, 1239, 91061, 131567, 1783272]);
    let both = collect_taxons_to_save(&Some(report), true, true, vec![1386, 91062]).unwrap();
    assert_eq!(both, vec![1386, 91062]);
}

#[test]
fn selection_errors_name_the_cause() {
    assert_eq!(
        collect_taxons_to_save(&None, true, true, vec![1]),
        Err(SelectionError::ReportRequired)
    );
    let report = create_test_kraken_report();
    assert_eq!(
        collect_taxons_to_save(&Some(report.clone()), false, true, vec![2, 999, 998]),
        Err(SelectionError::TaxonNotFound(999))
    );
    // without widening, taxa missing from the report are kept as they are
    assert_eq!(
        collect_taxons_to_save(&Some(report.clone()), false, false, vec![999]),
        Ok(vec![999])
    );
    assert_eq!(
        collect_taxons_to_save(&Some(report), true, false, vec![]),
        Err(SelectionError::NoTaxa)
    );
    let bad = vec!["1\t1\t1\tR\t1\troot".to_string(), "oops".to_string()];
    assert_eq!(
        collect_taxons_to_save(&Some(bad), false, false, vec![1]),
        Err(SelectionError::Report(ReportError {
            line: 2,
            error: ReportLineError::FieldCount(1)
        }))
    );
}

#[test]
fn sort_and_dedup_orders_and_merges() {
    assert_eq!(sort_and_dedup(vec![3, -1, 3, 2, -1]), vec![-1, 2, 3]);
    assert_eq!(sort_and_dedup(vec![]), Vec::<i32>::new());
    assert_eq!(sort_and_dedup(vec![i32::MAX, i32::MIN]), vec![i32::MIN, i32::MAX]);
}
