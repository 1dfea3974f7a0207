use kractor::kraken::OutputLineError;
use kractor::membership::{process_kraken_output, KrakenOutputError, ProcessedKrakenOutput};
use std::collections::HashSet;

fn lines_of(text: &str) -> Vec<String> {
    text.lines().map(String::from).collect()
}

#[test]
fn test_process_kraken_output_include_mode() {
    let test_data = "\
        C\tread_1\t1337\t150\t0:1 1:10
        C\tread_2\t2\t150\t0:1 1:10
        C\tread_3\t1337\t150\t0:1 1:10
        U\tread_4\t0\t150\t0:1 1:10";
    let taxon_ids_to_save = vec![1337];
    let ProcessedKrakenOutput { reads_to_save, .. } =
        process_kraken_output(&lines_of(test_data), false, &taxon_ids_to_save).unwrap();
    assert_eq!(reads_to_save.len(), 2);
    assert!(reads_to_save.contains(b"read_1".as_slice()));
    assert!(reads_to_save.contains(b"read_3".as_slice()));
    assert!(!reads_to_save.contains(b"read_2".as_slice()));
    assert!(!reads_to_save.contains(b"read_4".as_slice()));
}

#[test]
fn test_process_kraken_output_include_mode_with_unclassified() {
    let test_data = "\
        C\tread_1\t1337\t150\t0:1 1:10
        C\tread_2\t2\t150\t0:1 1:10
        C\tread_3\t1337\t150\t0:1 1:10
        U\tread_4\t0\t150\t0:1 1:10";
    let taxon_ids_to_save = vec![1337, 0];
    let ProcessedKrakenOutput { reads_to_save, .. } =
        process_kraken_output(&lines_of(test_data), false, &taxon_ids_to_save).unwrap();
    assert_eq!(reads_to_save.len(), 3);
    assert!(reads_to_save.contains(b"read_1".as_slice()));
    assert!(reads_to_save.contains(b"read_3".as_slice()));
    assert!(!reads_to_save.contains(b"read_2".as_slice()));
    assert!(reads_to_save.contains(b"read_4".as_slice()));
}

#[test]
fn test_process_kraken_output_exclude_mode() {
    let test_data = "\
        C\tread_1\t1337\t150\t0:1 1:10
        C\tread_2\t2\t150\t0:1 1:10
        C\tread_3\t1337\t150\t0:1 1:10
        U\tread_4\t0\t150\t0:1 1:10";
    let taxon_ids_to_save = vec![1337];
    let ProcessedKrakenOutput { reads_to_save, .. } =
        process_kraken_output(&lines_of(test_data), true, &taxon_ids_to_save).unwrap();
    assert_eq!(reads_to_save.len(), 2);
    assert!(!reads_to_save.contains(b"read_1".as_slice()));
    assert!(!reads_to_save.contains(b"read_3".as_slice()));
    assert!(reads_to_save.contains(b"read_2".as_slice()));
    assert!(reads_to_save.contains(b"read_4".as_slice()));
}

#[test]
fn test_taxon_counts_include_mode() {
    let test_data = "\
        C\tread_1\t1337\t150\t0:1 1:10
        C\tread_2\t2\t150\t0:1 1:10
        C\tread_3\t1\t150\t0:1 1:10
        C\tread_4\t1337\t150\t0:1 1:10";
    let taxon_ids_to_save = vec![1337, 2];
    let ProcessedKrakenOutput {
        reads_per_taxon, ..
    } = process_kraken_output(&lines_of(test_data), false, &taxon_ids_to_save).unwrap();
    assert_eq!(reads_per_taxon.len(), 2);
    assert_eq!(*reads_per_taxon.get(&1337).unwrap(), 2);
    assert_eq!(*reads_per_taxon.get(&2).unwrap(), 1);
    assert!(!reads_per_taxon.contains_key(&1));
}

#[test]
fn test_taxon_counts_exclude_mode() {
    let test_data = "\
        C\tread_1\t1337\t150\t0:1 1:10
        C\tread_2\t2\t150\t0:1 1:10
        C\tread_3\t1\t150\t0:1 1:10
        C\tread_4\t1\t150\t0:1 1:10
        C\tread_5\t5\t150\t0:1 1:10
        C\tread_6\t1337\t150\t0:1 1:10";
    let taxon_ids_to_save = vec![1337, 2];
    let ProcessedKrakenOutput {
        reads_per_taxon, ..
    } = process_kraken_output(&lines_of(test_data), true, &taxon_ids_to_save).unwrap();
    assert_eq!(reads_per_taxon.len(), 2);
    assert_eq!(*reads_per_taxon.get(&1).unwrap(), 2);
    assert_eq!(*reads_per_taxon.get(&5).unwrap(), 1);
    assert!(!reads_per_taxon.contains_key(&1337));
    assert!(!reads_per_taxon.contains_key(&2));
}

#[test]
fn test_process_kraken_output_empty_taxon_ids() {
    let test_data = "\
        C\tread_1\t1337\t150\t0:1 1:10
        C\tread_2\t2\t150\t0:1 1:10";
    let ProcessedKrakenOutput { reads_to_save, .. } =
        process_kraken_output(&lines_of(test_data), false, &[]).unwrap();
    assert_eq!(reads_to_save.len(), 0);
    let ProcessedKrakenOutput { reads_to_save, .. } =
        process_kraken_output(&lines_of(test_data), true, &[]).unwrap();
    assert_eq!(reads_to_save.len(), 2);
}

#[test]
fn test_process_kraken_output_invalid_line() {
    let test_data = "\
        C\tread_1\t1337\t150\t0:1 1:10
        im_very_invalid
        C\tread_3\t1337\t150\t0:1 1:10";
    let result = process_kraken_output(&lines_of(test_data), false, &[1337]);
    assert!(result.is_err());
}

#[test]
fn invalid_output_line_is_named() {
    let lines = lines_of("C\tr1\t1\t1\tx\nC\tr2\tone\t1\tx\nbad");
    let err = process_kraken_output(&lines, false, &[1]).unwrap_err();
    assert_eq!(
        err,
        KrakenOutputError {
            line: 2,
            error: OutputLineError::InvalidTaxonId
        }
    );
}

#[test]
fn four_reads_two_kept_at_1337() {
    let lines = lines_of(
        "C\tread_1\t1337\t150\tx\nC\tread_2\t2\t150\tx\nC\tread_3\t1\t150\tx\nC\tread_4\t1337\t150\tx",
    );
    let out = process_kraken_output(&lines, false, &[1337]).unwrap();
    let mut kept: Vec<Vec<u8>> = out.reads_to_save.iter().cloned().collect();
    kept.sort();
    assert_eq!(kept, vec![b"read_1".to_vec(), b"read_4".to_vec()]);
    assert_eq!(out.reads_per_taxon.len(), 1);
    assert_eq!(out.reads_per_taxon[&1337], 2);
}

#[test]
fn building_twice_gives_the_same_membership() {
    let lines = lines_of("C\ta\t3\t1\tx\nC\tb\t4\t1\tx\nU\tc\t3\t1\tx\nC\ta\t3\t1\tx");
    let first = process_kraken_output(&lines, false, &[3]).unwrap();
    let second = process_kraken_output(&lines, false, &[3]).unwrap();
    assert_eq!(first.reads_to_save, second.reads_to_save);
    assert_eq!(first.reads_per_taxon, second.reads_per_taxon);
    assert_eq!(first.reads_to_save.len(), 2);
    assert_eq!(first.reads_per_taxon[&3], 3);
}

#[test]
fn keep_and_drop_modes_split_the_reads() {
    let lines = lines_of("C\ta\t3\t1\tx\nC\tb\t4\t1\tx\nU\tc\t0\t1\tx\nC\td\t5\t1\tx");
    let kept_in = process_kraken_output(&lines, false, &[3, 5]).unwrap();
    let kept_out = process_kraken_output(&lines, true, &[3, 5]).unwrap();
    assert!(kept_in.reads_to_save.is_disjoint(&kept_out.reads_to_save));
    let all: HashSet<Vec<u8>> = kept_in
        .reads_to_save
        .union(&kept_out.reads_to_save)
        .cloned()
        .collect();
    let expected: HashSet<Vec<u8>> = [b"a", b"b", b"c", b"d"].iter().map(|r| r.to_vec()).collect();
    assert_eq!(all, expected);
}

#[test]
fn empty_output_gives_empty_membership() {
    let out = process_kraken_output(&[], true, &[]).unwrap();
    assert!(out.reads_to_save.is_empty());
    assert!(out.reads_per_taxon.is_empty());
}

#[test]
fn add_line_streams_the_same_result() {
    let lines = lines_of("C\ta\t3\t1\tx\nC\tb\t4\t1\tx");
    let taxa: HashSet<i32> = [4].into_iter().collect();
    let mut out = ProcessedKrakenOutput::new();
    for line in &lines {
        out.add_line(line, false, &taxa).unwrap();
    }
    assert_eq!(out.reads_to_save.len(), 1);
    assert!(out.reads_to_save.contains(b"b".as_slice()));
    assert_eq!(out.reads_per_taxon[&4], 1);
    assert_eq!(
        out.add_line("C\tz", false, &taxa),
        Err(OutputLineError::FieldCount(2))
    );
    assert_eq!(out.reads_to_save.len(), 1);
}

#[test]
fn read_ids_keep_their_bytes() {
    let lines = lines_of("C\tréad\t3\t1\tx");
    let out = process_kraken_output(&lines, false, &[3]).unwrap();
    assert!(out.reads_to_save.contains("réad".as_bytes()));
}

#[test]
fn counts_of_both_modes_add_up_to_the_lines() {
    let lines = lines_of("C\ta\t3\t1\tx\nC\tb\t4\t1\tx\nU\tc\t0\t1\tx\nC\td\t3\t1\tx\nC\te\t5\t1\tx");
    let kept_in = process_kraken_output(&lines, false, &[3, 5]).unwrap();
    let kept_out = process_kraken_output(&lines, true, &[3, 5]).unwrap();
    let sum_in: usize = kept_in.reads_per_taxon.values().sum();
    let sum_out: usize = kept_out.reads_per_taxon.values().sum();
    assert_eq!(sum_in, 3);
    assert_eq!(sum_in + sum_out, lines.len());
    assert!(kept_in
        .reads_per_taxon
        .keys()
        .all(|t| !kept_out.reads_per_taxon.contains_key(t)));
    let all = process_kraken_output(&lines, true, &[]).unwrap();
    assert_eq!(all.reads_per_taxon.values().sum::<usize>(), lines.len());
}

#[test]
fn membership_clones_with_its_contents() {
    let lines = lines_of("C\ta\t3\t1\tx\nC\tb\t4\t1\tx");
    let out = process_kraken_output(&lines, false, &[3]).unwrap();
    let copy = out.clone();
    assert_eq!(copy.reads_to_save, out.reads_to_save);
    assert_eq!(copy.reads_per_taxon, out.reads_per_taxon);
}
