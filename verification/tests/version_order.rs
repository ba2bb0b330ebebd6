use crates_io::version_order::{
    order_by_rank, order_versions, sort_versions, split_latest, version_ids, VersionRecord,
    LATEST_COUNT,
};

fn records(nums: &[&str]) -> Vec<VersionRecord> {
    nums.iter()
        .enumerate()
        .map(|(i, n)| VersionRecord { id: (i as i32) + 1, num: n.to_string() })
        .collect()
}

#[test]
fn newest_version_first() {
    let versions = records(&["1.0.0", "2.0.0", "0.1.0"]);
    assert_eq!(order_versions(&versions), vec![1, 0, 2]);
}

#[test]
fn numeric_fields_compare_as_numbers() {
    let versions = records(&["1.9.0", "1.10.0", "1.2.3"]);
    assert_eq!(order_versions(&versions), vec![1, 0, 2]);
}

#[test]
fn prerelease_below_release() {
    let versions = records(&["1.0.0-alpha", "1.0.0", "1.0.0-beta", "0.9.9"]);
    assert_eq!(order_versions(&versions), vec![1, 2, 0, 3]);
}

#[test]
fn prerelease_identifiers_in_semver_order() {
    let versions = records(&["1.0.0-beta.2", "1.0.0-beta.11", "1.0.0-alpha.beta", "1.0.0-rc.1"]);
    assert_eq!(order_versions(&versions), vec![3, 1, 0, 2]);
}

#[test]
fn build_metadata_takes_part_in_the_order() {
    let versions = records(&["1.0.0+a", "1.0.0+b", "1.0.0"]);
    assert_eq!(order_versions(&versions), vec![1, 0, 2]);
}

#[test]
fn invalid_versions_come_last_in_their_order() {
    let versions = records(&["not-a-version", "1.0.0", "1.0", "0.9.0", "01.0.0"]);
    assert_eq!(order_versions(&versions), vec![1, 3, 0, 2, 4]);
}

#[test]
fn equal_versions_keep_their_order() {
    let versions = records(&["1.0.0", "2.0.0", "1.0.0"]);
    assert_eq!(order_versions(&versions), vec![1, 0, 2]);
}

#[test]
fn no_versions() {
    let versions = records(&[]);
    assert_eq!(order_versions(&versions), Vec::<usize>::new());
    assert!(sort_versions(&versions).is_empty());
}

#[test]
fn order_by_rank_is_a_stable_sort() {
    // items 0 and 2 rank alike, item 1 is above both, item 3 takes no part
    let valid = vec![true, true, true, false];
    let lower = vec![
        vec![false, true, false, false],
        vec![false, false, false, false],
        vec![false, true, false, false],
        vec![false, false, false, false],
    ];
    assert_eq!(order_by_rank(&valid, &lower), vec![1, 0, 2, 3]);
}

#[test]
fn sort_versions_moves_the_records() {
    let versions = records(&["0.1.0", "0.3.0", "0.2.0"]);
    let sorted = sort_versions(&versions);
    let nums: Vec<&str> = sorted.iter().map(|v| v.num.as_str()).collect();
    assert_eq!(nums, vec!["0.3.0", "0.2.0", "0.1.0"]);
    let ids: Vec<i32> = sorted.iter().map(|v| v.id).collect();
    assert_eq!(ids, vec![2, 3, 1]);
}

#[test]
fn split_keeps_five_newest() {
    let versions = records(&["7.0.0", "6.0.0", "5.0.0", "4.0.0", "3.0.0", "2.0.0", "1.0.0"]);
    let (latest, rest) = split_latest(versions);
    assert_eq!(LATEST_COUNT, 5);
    assert_eq!(version_ids(&latest), vec![1, 2, 3, 4, 5]);
    assert_eq!(version_ids(&rest), vec![6, 7]);
}

#[test]
fn split_with_fewer_than_five() {
    let versions = records(&["2.0.0", "1.0.0"]);
    let (latest, rest) = split_latest(versions);
    assert_eq!(version_ids(&latest), vec![1, 2]);
    assert!(rest.is_empty());
}

#[test]
fn duplicate_copies_a_record() {
    let v = VersionRecord { id: 42, num: "1.2.3".to_string() };
    let c = v.duplicate();
    assert_eq!(c.id, 42);
    assert_eq!(c.num, "1.2.3");
}
