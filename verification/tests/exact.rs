//! Exact duplicates.
use picture_cleaner::errors::ScanError;
use picture_cleaner::exact::{
    build_exact_groups, can_label, collect_group_paths, hash_content, hash_duplicate_candidates,
    hash_targets, HashOutcome,
};
use picture_cleaner::record::CacheRecord;

fn record(path: &str, size_bytes: u64, content_hash: &str) -> CacheRecord {
    let mut record: CacheRecord = CacheRecord::basic(path, size_bytes, 1);
    record.content_hash = content_hash.to_string();
    record
}

fn hashed(path: &str, hash: &str) -> HashOutcome {
    HashOutcome::Hashed { path: path.to_string(), hash: hash.to_string() }
}

#[test]
fn content_is_hashed_with_sha_256() {
    assert_eq!(
        hash_content(b"abc"),
        "ba7816bf8f01cfea414140de5dae2223b00361a396177a9cb410ff61f20015ad"
    );
    assert_eq!(
        hash_content(b""),
        "e3b0c44298fc1c149afbf4c8996fb92427ae41e4649b934ca495991b7852b855"
    );
}

#[test]
fn only_files_of_one_size_are_hashed() {
    let records: Vec<CacheRecord> = vec![
        record("a", 10, ""),
        record("b", 20, ""),
        record("c", 10, ""),
        record("d", 10, "known"),
        record("e", 30, "known"),
    ];
    assert_eq!(hash_targets(&records), vec![0, 2]);
    assert!(hash_targets(&[]).is_empty());
}

#[test]
fn a_known_hash_still_counts_for_the_size() {
    let records: Vec<CacheRecord> = vec![record("a", 10, "known"), record("b", 10, "")];
    assert_eq!(hash_targets(&records), vec![1]);
}

#[test]
fn found_hashes_are_given_to_their_records() {
    let mut records: Vec<CacheRecord> =
        vec![record("a", 1, ""), record("b", 1, ""), record("c", 2, "old")];
    let outcomes: Vec<HashOutcome> =
        vec![hashed("b", "first"), HashOutcome::Failed, hashed("b", "second"), hashed("x", "none")];
    assert_eq!(hash_duplicate_candidates(&mut records, &outcomes), Ok(()));
    assert_eq!(records[0].content_hash, "");
    assert_eq!(records[1].content_hash, "second");
    assert_eq!(records[2].content_hash, "old");
}

#[test]
fn hashes_found_before_a_cancellation_are_kept() {
    let mut records: Vec<CacheRecord> = vec![record("a", 1, ""), record("b", 1, "")];
    let outcomes: Vec<HashOutcome> =
        vec![HashOutcome::Cancelled, hashed("a", "kept"), HashOutcome::Cancelled];
    assert_eq!(
        hash_duplicate_candidates(&mut records, &outcomes),
        Err(ScanError::Interrupted)
    );
    assert_eq!(records[0].content_hash, "kept");
    assert_eq!(records[1].content_hash, "");
}

#[test]
fn records_with_one_hash_make_a_group() {
    let left: String = hash_content(b"left");
    let right: String = hash_content(b"right");
    let records: Vec<CacheRecord> = vec![
        record("a.png", 1, &left),
        record("b.png", 2, &right),
        record("c.png", 1, &left),
        record("d.png", 3, ""),
        record("e.png", 3, ""),
        record("f.png", 4, &hash_content(b"alone")),
        record("g.png", 2, &right),
        record("h.png", 1, &left),
    ];
    assert!(can_label(&records));
    let groups = build_exact_groups(&records);
    assert_eq!(groups.len(), 2);
    assert_eq!(groups[0].id, format!("exact-{}", &left[0..12]));
    assert_eq!(groups[0].title, "同じ内容の画像");
    let paths: Vec<&str> = groups[0].items.iter().map(|item| item.path.as_str()).collect();
    assert_eq!(paths, vec!["a.png", "c.png", "h.png"]);
    assert_eq!(groups[1].id, format!("exact-{}", &right[0..12]));
    assert_eq!(groups[1].items.len(), 2);
}

#[test]
fn the_identifier_holds_twelve_characters_of_the_hash() {
    let hash: String = hash_content(b"abc");
    let records: Vec<CacheRecord> = vec![record("a", 1, &hash), record("b", 1, &hash)];
    assert_eq!(build_exact_groups(&records)[0].id, "exact-ba7816bf8f01");
}

#[test]
fn odd_hashes_give_no_identifier() {
    assert!(!can_label(&[record("a", 1, "short"), record("b", 1, "short")]));
    assert!(can_label(&[record("a", 1, "short"), record("b", 1, "other")]));
    assert!(can_label(&[record("a", 1, "twelve chars"), record("b", 1, "twelve chars")]));
    assert!(!can_label(&[record("a", 1, "eleven charé!"), record("b", 1, "eleven charé!")]));
    assert!(can_label(&[]));
}

#[test]
fn the_paths_of_groups_are_collected() {
    let hash: String = hash_content(b"abc");
    let records: Vec<CacheRecord> =
        vec![record("a", 1, &hash), record("b", 1, &hash), record("c", 1, "")];
    let paths = collect_group_paths(&build_exact_groups(&records));
    assert_eq!(paths.len(), 2);
    assert!(paths.contains("a"));
    assert!(paths.contains("b"));
    assert!(!paths.contains("c"));
    assert_eq!(collect_group_paths(&[]).len(), 0);
}
