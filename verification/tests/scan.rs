//! A scan from the files that were found to its result.
use picture_cleaner::cache::{load_cache, save_cache};
use picture_cleaner::errors::ScanError;
use picture_cleaner::exact::{hash_content, HashOutcome};
use picture_cleaner::paths::stable_id;
use picture_cleaner::picture::FileFacts;
use picture_cleaner::record::{AnalyzedImage, CacheRecord};
use picture_cleaner::scan::{
    cache_file_name, chunk_size, collect_image_paths, depth_limit, match_cache, AnalysisOutcome,
    AnalysisStage, FolderEntry, FoundFile, HashingStage, ScanOptions,
};

const ALL: ScanOptions = ScanOptions {
    include_subfolders: true,
    detect_exact_duplicates: true,
    detect_similar_images: true,
    detect_blurry_images: true,
};

const NOTHING: ScanOptions = ScanOptions {
    include_subfolders: true,
    detect_exact_duplicates: false,
    detect_similar_images: false,
    detect_blurry_images: false,
};

fn file(path: &str, size_bytes: u64, modified_at: u64) -> FoundFile {
    FoundFile { path: path.to_string(), facts: Some(FileFacts { size_bytes, modified_at }) }
}

fn measured(path: &str, size_bytes: u64, modified_at: u64, hash: u64, score: f64) -> CacheRecord {
    let mut record: CacheRecord = CacheRecord::basic(path, size_bytes, modified_at);
    record.width = 4;
    record.height = 3;
    record.perceptual_hash = Some(hash);
    record.blur_score = Some(score.to_bits());
    record
}

fn hashed(path: &str, content: &[u8]) -> HashOutcome {
    HashOutcome::Hashed { path: path.to_string(), hash: hash_content(content) }
}

/// Two files of one size, one that the cache knows, one that it does not, and one that
/// cannot be looked at.
fn started(options: ScanOptions) -> HashingStage {
    let kept: Vec<CacheRecord> =
        vec![measured("c.png", 200, 2, 0, 90.0), measured("a.png", 99, 1, 0, 1.0)];
    let content: String = save_cache(&kept, &vec!["90".to_string(), "1".to_string()]);
    let cache = load_cache(&content, &vec![Some(90.0f64.to_bits()), Some(1.0f64.to_bits())]);
    let files: Vec<FoundFile> = vec![
        file("a.png", 100, 1),
        file("b.png", 100, 1),
        file("c.png", 200, 2),
        file("d.png", 300, 3),
        FoundFile { path: "e.png".to_string(), facts: None },
    ];
    match_cache(options, &files, &cache)
}

/// The entries of a folder with a subfolder.
fn photos() -> Vec<FolderEntry> {
    [
        ("photos", false, 0),
        ("photos/a.png", true, 1),
        ("photos/b.txt", true, 1),
        ("photos/c.png", false, 1),
        ("photos/c.png/e.webp", true, 2),
        ("photos/d.JPEG", true, 1),
    ]
    .iter()
    .map(|(path, is_file, depth)| FolderEntry {
        path: path.to_string(),
        is_file: *is_file,
        depth: *depth,
    })
    .collect()
}

/// A scan of one unchanged file that an earlier scan has measured without a blur score.
fn without_score(options: ScanOptions) -> AnalysisStage {
    let mut kept: CacheRecord = measured("a.png", 1, 1, 7, 0.0);
    kept.blur_score = None;
    let content: String = save_cache(&vec![kept], &vec![String::new()]);
    let cache = load_cache(&content, &vec![None]);
    let stage: HashingStage = match_cache(options, &[file("a.png", 1, 1)], &cache);
    assert_eq!(stage.cache_hit_count, 1);
    stage.plan()
}

/// The same scan, its duplicates found.
fn planned() -> AnalysisStage {
    let mut stage: HashingStage = started(ALL);
    let found: Vec<HashOutcome> = vec![hashed("a.png", b"same"), hashed("b.png", b"same")];
    assert_eq!(stage.take_hashes(&found), Ok(()));
    assert!(stage.can_plan());
    stage.plan()
}

#[test]
fn subfolders_are_entered_on_request() {
    assert_eq!(depth_limit(true), None);
    assert_eq!(depth_limit(false), Some(1));
}

#[test]
fn image_files_are_collected_in_order() {
    let entries: Vec<FolderEntry> = photos();
    assert_eq!(collect_image_paths(&entries, true), vec![1, 4, 5]);
}

#[test]
fn without_subfolders_only_the_images_of_the_folder_are_found() {
    let entries: Vec<FolderEntry> = photos();
    let flat: Vec<usize> = collect_image_paths(&entries, false);
    assert_eq!(flat, vec![1, 5]);
    let direct: Vec<usize> = collect_image_paths(&entries, true)
        .into_iter()
        .filter(|place| entries[*place].depth == 1)
        .collect();
    assert_eq!(flat, direct);
}

#[test]
fn a_walk_that_stops_at_the_limit_loses_no_image() {
    let shallow: Vec<FolderEntry> =
        photos().into_iter().filter(|entry| entry.depth <= depth_limit(false).unwrap()).collect();
    let found: Vec<&str> = collect_image_paths(&shallow, false)
        .into_iter()
        .map(|place| shallow[place].path.as_str())
        .collect();
    assert_eq!(found, vec!["photos/a.png", "photos/d.JPEG"]);
}

#[test]
fn each_folder_has_a_cache_file_of_its_own() {
    assert_eq!(cache_file_name("photos"), format!("{}.tsv", stable_id("photos")));
    assert_ne!(cache_file_name("photos"), cache_file_name("photos2"));
}

#[test]
fn work_is_shared_out_evenly() {
    assert_eq!(chunk_size(0, Some(8)), 1);
    assert_eq!(chunk_size(1, Some(8)), 1);
    assert_eq!(chunk_size(9, Some(8)), 3);
    assert_eq!(chunk_size(9, Some(1)), 9);
    assert_eq!(chunk_size(9, Some(0)), 9);
    assert_eq!(chunk_size(9, Some(2)), 9);
    assert_eq!(chunk_size(9, Some(3)), 5);
    assert_eq!(chunk_size(9, Some(4)), 3);
    assert_eq!(chunk_size(9, None), 3);
    assert_eq!(chunk_size(10, None), 4);
    assert_eq!(chunk_size(usize::MAX, Some(2)), usize::MAX);
}

#[test]
fn chunks_cover_all_items() {
    for items in [1usize, 2, 3, 4, 5, 7, 16, 101] {
        for available in [None, Some(0), Some(2), Some(3), Some(4), Some(5), Some(64)] {
            let size: usize = chunk_size(items, available);
            let workers: usize = available.unwrap_or(4).saturating_sub(1).clamp(1, 4);
            assert!(size * workers >= items);
            assert!(items.div_ceil(size) <= workers);
        }
    }
}

#[test]
fn unchanged_files_are_known_from_the_cache() {
    let stage: HashingStage = started(ALL);
    assert_eq!(stage.total, 5);
    assert_eq!(stage.skipped_count, 1);
    assert_eq!(stage.cache_hit_count, 1);
    assert_eq!(stage.records.len(), 4);
    assert_eq!(stage.records[2].path, "c.png");
    assert_eq!(stage.records[2].blur_score, Some(90.0f64.to_bits()));
    assert!(stage.records[2].has_details());
}

#[test]
fn changed_files_are_looked_at_anew() {
    let stage: HashingStage = started(ALL);
    assert_eq!(stage.records[0].path, "a.png");
    assert_eq!(stage.records[0].size_bytes, 100);
    assert!(!stage.records[0].has_details());
    assert_eq!(stage.records[0].blur_score, None);
    assert_eq!(stage.records[0].content_hash, "");
}

#[test]
fn a_changed_time_is_a_change() {
    let content: String = save_cache(&vec![measured("a.png", 1, 1, 0, 1.0)], &vec!["1".to_string()]);
    let cache = load_cache(&content, &vec![None]);
    let stage: HashingStage = match_cache(NOTHING, &[file("a.png", 1, 2)], &cache);
    assert_eq!(stage.cache_hit_count, 0);
    assert_eq!(stage.records[0].modified_at, 2);
}

#[test]
fn files_of_one_size_are_to_be_hashed() {
    assert_eq!(started(ALL).targets(), vec![0, 1]);
    assert!(started(NOTHING).targets().is_empty());
}

#[test]
fn duplicates_are_left_out_of_what_follows() {
    let stage: AnalysisStage = planned();
    assert_eq!(stage.exact_duplicate_groups.len(), 1);
    assert_eq!(stage.exact_duplicate_groups[0].items.len(), 2);
    assert_eq!(stage.analyzed.len(), 1);
    assert_eq!(stage.analyzed[0].record.path, "c.png");
    assert_eq!(stage.detail_targets.len(), 1);
    assert_eq!(stage.detail_targets[0].path, "d.png");
    let paths: Vec<&str> =
        stage.cache_records.iter().map(|record| record.path.as_str()).collect();
    assert_eq!(paths, vec!["a.png", "b.png", "c.png", "d.png"]);
}

#[test]
fn without_the_option_nothing_is_a_duplicate() {
    let mut stage: HashingStage = started(NOTHING);
    let found: Vec<HashOutcome> =
        vec![hashed("a.png", b"same"), hashed("b.png", b"same"), HashOutcome::Cancelled];
    assert_eq!(stage.take_hashes(&found), Ok(()));
    assert_eq!(stage.records[0].content_hash, "");
    let stage: AnalysisStage = stage.plan();
    assert!(stage.exact_duplicate_groups.is_empty());
    assert_eq!(stage.detail_targets.len(), 3);
}

#[test]
fn a_cancelled_hashing_keeps_its_hashes() {
    let mut stage: HashingStage = started(ALL);
    let found: Vec<HashOutcome> = vec![hashed("a.png", b"kept"), HashOutcome::Cancelled];
    assert_eq!(stage.take_hashes(&found), Err(ScanError::Interrupted));
    assert_eq!(stage.records[0].content_hash, hash_content(b"kept"));
    assert_eq!(stage.records.len(), 4);
}

#[test]
fn a_hash_without_identifier_cannot_be_planned() {
    let mut stage: HashingStage = started(ALL);
    stage.records[0].content_hash = "short".to_string();
    stage.records[1].content_hash = "short".to_string();
    assert!(!stage.can_plan());
    stage.options = NOTHING;
    assert!(stage.can_plan());
}

#[test]
fn a_scan_ends_with_all_that_was_found() {
    let fresh: CacheRecord = measured("d.png", 300, 3, 1, 12.5);
    let end = planned().take_measures(&vec![AnalysisOutcome::Analyzed(AnalyzedImage { record: fresh })]);
    assert_eq!(end.cache_records.len(), 4);
    assert_eq!(end.cache_records[0].content_hash, hash_content(b"same"));
    assert_eq!(end.cache_records[3].perceptual_hash, Some(1));
    let result = end.outcome.unwrap().group_similar().list_blurry();
    assert_eq!(result.scanned_count, 5);
    assert_eq!(result.skipped_count, 1);
    assert_eq!(result.cache_hit_count, 1);
    assert_eq!(result.exact_duplicate_groups.len(), 1);
    assert_eq!(result.similar_image_groups.len(), 1);
    let alike: Vec<&str> = result.similar_image_groups[0]
        .items
        .iter()
        .map(|item| item.path.as_str())
        .collect();
    assert_eq!(alike, vec!["c.png", "d.png"]);
    assert_eq!(result.blurry_images.len(), 1);
    assert_eq!(result.blurry_images[0].path, "d.png");
}

#[test]
fn images_that_cannot_be_read_are_skipped() {
    let end = planned().take_measures(&vec![AnalysisOutcome::Failed]);
    let result = end.outcome.unwrap().group_similar().list_blurry();
    assert_eq!(result.skipped_count, 2);
    assert!(result.similar_image_groups.is_empty());
    assert!(result.blurry_images.is_empty());
    assert!(!end.cache_records[3].has_details());
}

#[test]
fn a_cancelled_scan_keeps_what_was_measured() {
    let fresh: CacheRecord = measured("d.png", 300, 3, 1, 12.5);
    let end = planned().take_measures(&vec![
        AnalysisOutcome::Analyzed(AnalyzedImage { record: fresh }),
        AnalysisOutcome::Cancelled,
    ]);
    assert_eq!(end.outcome.err(), Some(ScanError::Interrupted));
    assert!(end.cache_records[3].has_details());
}

#[test]
fn the_last_measure_for_a_path_counts() {
    let first: CacheRecord = measured("d.png", 300, 3, 1, 12.5);
    let second: CacheRecord = measured("d.png", 300, 3, 2, 99.0);
    let end = planned().take_measures(&vec![
        AnalysisOutcome::Analyzed(AnalyzedImage { record: first }),
        AnalysisOutcome::Analyzed(AnalyzedImage { record: second }),
    ]);
    assert_eq!(end.cache_records[3].perceptual_hash, Some(2));
    assert!(end.outcome.unwrap().group_similar().list_blurry().blurry_images.is_empty());
}

#[test]
fn nothing_is_listed_unasked() {
    let stage: AnalysisStage = started(NOTHING).plan();
    let fresh: CacheRecord = measured("d.png", 300, 3, 0, 1.0);
    let end = stage.take_measures(&vec![AnalysisOutcome::Analyzed(AnalyzedImage { record: fresh })]);
    let result = end.outcome.unwrap().group_similar().list_blurry();
    assert!(result.exact_duplicate_groups.is_empty());
    assert!(result.similar_image_groups.is_empty());
    assert!(result.blurry_images.is_empty());
}

#[test]
fn an_interrupted_scan_is_taken_up_by_the_next() {
    let fresh: CacheRecord = measured("d.png", 300, 3, 1, 12.5);
    let end = planned().take_measures(&vec![
        AnalysisOutcome::Analyzed(AnalyzedImage { record: fresh }),
        AnalysisOutcome::Cancelled,
    ]);
    let texts: Vec<String> = end
        .cache_records
        .iter()
        .map(|record| record.blur_score.map(|bits| f64::from_bits(bits).to_string()).unwrap_or_default())
        .collect();
    let scores: Vec<Option<u64>> =
        end.cache_records.iter().map(|record| record.blur_score).collect();
    let cache = load_cache(&save_cache(&end.cache_records, &texts), &scores);
    let files: Vec<FoundFile> =
        vec![file("a.png", 100, 1), file("b.png", 100, 1), file("c.png", 200, 2), file("d.png", 300, 3)];
    let next: HashingStage = match_cache(ALL, &files, &cache);
    assert_eq!(next.cache_hit_count, 4);
    assert!(next.targets().is_empty());
    assert!(next.plan().detail_targets.is_empty());
}

#[test]
fn an_empty_folder_gives_an_empty_result() {
    let stage: HashingStage = match_cache(ALL, &[], &load_cache("", &Vec::new()));
    assert!(stage.targets().is_empty());
    let result = stage.plan().take_measures(&Vec::new()).outcome.unwrap().group_similar().list_blurry();
    assert_eq!(result.scanned_count, 0);
    assert_eq!(result.skipped_count, 0);
    assert!(result.exact_duplicate_groups.is_empty());
}

#[test]
fn a_file_without_a_score_is_measured_again_where_blur_is_asked_for() {
    let stage: AnalysisStage = without_score(ALL);
    assert!(stage.analyzed.is_empty());
    assert_eq!(stage.detail_targets.len(), 1);
    assert_eq!(stage.detail_targets[0].path, "a.png");
    let fresh: CacheRecord = measured("a.png", 1, 1, 7, 12.5);
    let end = stage.take_measures(&vec![AnalysisOutcome::Analyzed(AnalyzedImage { record: fresh })]);
    assert_eq!(end.cache_records[0].blur_score, Some(12.5f64.to_bits()));
    let result = end.outcome.unwrap().group_similar().list_blurry();
    assert_eq!(result.blurry_images.len(), 1);
    assert_eq!(result.blurry_images[0].path, "a.png");
    assert_eq!(result.cache_hit_count, 1);
}

#[test]
fn a_file_without_a_score_is_known_where_blur_is_not_asked_for() {
    let stage: AnalysisStage = without_score(NOTHING);
    assert_eq!(stage.analyzed.len(), 1);
    assert!(stage.detail_targets.is_empty());
}

#[test]
fn a_file_with_a_score_is_not_measured_again() {
    let record: CacheRecord = measured("a.png", 1, 1, 7, 12.5);
    assert!(ALL.measured_in(&record));
    assert!(NOTHING.measured_in(&record));
    assert!(!ALL.measured_in(&CacheRecord::basic("a.png", 1, 1)));
    assert!(!NOTHING.measured_in(&CacheRecord::basic("a.png", 1, 1)));
}

#[test]
fn identical_files_and_only_they_share_a_group() {
    let files: Vec<FoundFile> =
        vec![file("a.png", 4, 1), file("b.png", 4, 1), file("c.png", 4, 1), file("d.png", 5, 1)];
    let mut stage: HashingStage = match_cache(ALL, &files, &load_cache("", &Vec::new()));
    assert_eq!(stage.targets(), vec![0, 1, 2]);
    let found: Vec<HashOutcome> =
        vec![hashed("a.png", b"same"), hashed("b.png", b"else"), hashed("c.png", b"same")];
    assert_eq!(stage.take_hashes(&found), Ok(()));
    let groups = stage.plan().exact_duplicate_groups;
    assert_eq!(groups.len(), 1);
    let paths: Vec<&str> = groups[0].items.iter().map(|item| item.path.as_str()).collect();
    assert_eq!(paths, vec!["a.png", "c.png"]);
}

#[test]
fn an_image_that_cannot_be_measured_again_is_compared_as_it_was() {
    let mut kept: CacheRecord = measured("a.png", 1, 1, 7, 0.0);
    kept.blur_score = None;
    let other: CacheRecord = measured("b.png", 2, 1, 7, 90.0);
    let content: String = save_cache(&vec![kept, other], &vec![String::new(), "90".to_string()]);
    let cache = load_cache(&content, &vec![None, Some(90.0f64.to_bits())]);
    let files: Vec<FoundFile> = vec![file("a.png", 1, 1), file("b.png", 2, 1)];
    let stage: AnalysisStage = match_cache(ALL, &files, &cache).plan();
    assert_eq!(stage.detail_targets.len(), 1);
    let end = stage.take_measures(&vec![AnalysisOutcome::Failed]);
    assert!(end.cache_records[0].has_details());
    let result = end.outcome.unwrap().group_similar().list_blurry();
    assert_eq!(result.similar_image_groups.len(), 1);
    assert_eq!(result.similar_image_groups[0].items.len(), 2);
    assert!(result.blurry_images.is_empty());
    assert_eq!(result.skipped_count, 1);
}

#[test]
fn an_image_that_was_never_described_is_not_compared_when_it_cannot_be_read() {
    let end = planned().take_measures(&vec![AnalysisOutcome::Failed]);
    let stage = end.outcome.unwrap();
    let paths: Vec<&str> = stage.images.iter().map(|image| image.record.path.as_str()).collect();
    assert_eq!(paths, vec!["c.png"]);
}

#[test]
fn duplicates_are_shown_nowhere_else() {
    let fresh: CacheRecord = measured("d.png", 300, 3, 1, 12.5);
    let end =
        planned().take_measures(&vec![AnalysisOutcome::Analyzed(AnalyzedImage { record: fresh })]);
    let result = end.outcome.unwrap().group_similar().list_blurry();
    for item in &result.exact_duplicate_groups[0].items {
        assert!(result.blurry_images.iter().all(|other| other.path != item.path));
        for group in &result.similar_image_groups {
            assert!(group.items.iter().all(|other| other.path != item.path));
        }
    }
}
