//! Lines of the cache file, and the file as a whole.
use picture_cleaner::cache::{load_cache, save_cache, score_fields};
use picture_cleaner::record::CacheRecord;

fn sample(path: &str) -> CacheRecord {
    CacheRecord {
        path: path.to_string(),
        size_bytes: 1234,
        modified_at: 1700000000,
        content_hash: "abcdef".to_string(),
        width: 640,
        height: 480,
        blur_score: Some(12.5f64.to_bits()),
        perceptual_hash: Some(u64::MAX),
    }
}

fn same(left: &CacheRecord, right: &CacheRecord) -> bool {
    left.path == right.path
        && left.size_bytes == right.size_bytes
        && left.modified_at == right.modified_at
        && left.content_hash == right.content_hash
        && left.width == right.width
        && left.height == right.height
        && left.blur_score == right.blur_score
        && left.perceptual_hash == right.perceptual_hash
}

fn scores(content: &str) -> Vec<Option<u64>> {
    score_fields(content)
        .into_iter()
        .map(|field| field.and_then(|text| text.parse::<f64>().ok()).map(f64::to_bits))
        .collect()
}

#[test]
fn a_record_is_written_as_eight_fields() {
    assert_eq!(
        sample("a\tb").to_cache_line("12.5"),
        "a\\tb\t1234\t1700000000\tabcdef\t640\t480\t12.5\t18446744073709551615"
    );
}

#[test]
fn missing_values_are_written_as_empty_fields() {
    let record: CacheRecord = CacheRecord::basic("x.png", 7, 8);
    assert_eq!(record.to_cache_line("unused"), "x.png\t7\t8\t\t0\t0\t\t");
}

#[test]
fn a_line_reads_back_as_its_record() {
    for path in ["a.png", "C:\\dir\\b.png", "tab\there", "line\nfeed", "cr\r"] {
        let record: CacheRecord = sample(path);
        let line: String = record.to_cache_line("12.5");
        assert_eq!(CacheRecord::score_field(&line), Some("12.5".to_string()));
        let read = CacheRecord::from_cache_line(&line, record.blur_score).unwrap();
        assert!(same(&read, &record));
    }
}

#[test]
fn a_single_line_may_hold_a_hash_with_a_line_feed() {
    let mut record: CacheRecord = sample("a.png");
    record.content_hash = "odd\nhash".to_string();
    let line: String = record.to_cache_line("12.5");
    let read = CacheRecord::from_cache_line(&line, record.blur_score).unwrap();
    assert!(same(&read, &record));
}

#[test]
fn lines_without_eight_fields_are_refused() {
    assert!(CacheRecord::from_cache_line("", None).is_none());
    assert!(CacheRecord::from_cache_line("a\t1\t2\th\t3\t4\t5", None).is_none());
    assert!(CacheRecord::from_cache_line("a\t1\t2\th\t3\t4\t5\t6\t7", None).is_none());
    assert_eq!(CacheRecord::score_field("a\t1\t2\th\t3\t4\t5"), None);
}

#[test]
fn lines_with_unreadable_numbers_are_refused() {
    assert!(CacheRecord::from_cache_line("a\tx\t2\th\t3\t4\t\t", None).is_none());
    assert!(CacheRecord::from_cache_line("a\t1\t-2\th\t3\t4\t\t", None).is_none());
    assert!(CacheRecord::from_cache_line("a\t1\t2\th\t4294967296\t4\t\t", None).is_none());
    assert!(CacheRecord::from_cache_line("a\t1\t2\th\t3\t\t\t", None).is_none());
    assert!(CacheRecord::from_cache_line("a\t1\t2\th\t4294967295\t4\t\t", None).is_some());
}

#[test]
fn unreadable_optional_numbers_are_dropped() {
    let record = CacheRecord::from_cache_line("a\t1\t2\th\t3\t4\tnope\tnope", None).unwrap();
    assert_eq!(record.blur_score, None);
    assert_eq!(record.perceptual_hash, None);
    assert_eq!(record.content_hash, "h");
}

#[test]
fn an_empty_score_field_has_no_score() {
    let record = CacheRecord::from_cache_line("a\t1\t2\th\t3\t4\t\t9", Some(5)).unwrap();
    assert_eq!(record.blur_score, None);
    assert_eq!(record.perceptual_hash, Some(9));
    assert_eq!(CacheRecord::score_field("a\t1\t2\th\t3\t4\t\t9"), None);
}

#[test]
fn a_cache_file_reads_back_as_it_was_written() {
    let records: Vec<CacheRecord> =
        vec![sample("one.png"), CacheRecord::basic("two\n.png", 2, 3), sample("three\\.png")];
    let texts: Vec<String> = vec!["12.5".to_string(), String::new(), "12.5".to_string()];
    let content: String = save_cache(&records, &texts);
    assert_eq!(content.lines().count(), 3);
    assert!(content.ends_with('\n'));
    let found: Vec<Option<u64>> = scores(&content);
    assert_eq!(found, vec![Some(12.5f64.to_bits()), None, Some(12.5f64.to_bits())]);
    let table = load_cache(&content, &found);
    assert_eq!(table.len(), 3);
    for record in &records {
        assert!(same(table.get(&record.path).unwrap(), record));
    }
}

#[test]
fn the_last_line_for_a_path_counts() {
    let mut later: CacheRecord = sample("same.png");
    later.size_bytes = 99;
    let content: String =
        save_cache(&vec![sample("same.png"), later], &vec!["1".to_string(), "2".to_string()]);
    let table = load_cache(&content, &scores(&content));
    assert_eq!(table.len(), 1);
    assert_eq!(table.get("same.png").unwrap().size_bytes, 99);
    assert_eq!(table.get("same.png").unwrap().blur_score, Some(2.0f64.to_bits()));
}

#[test]
fn lines_that_cannot_be_read_are_passed_over() {
    let content: &str = "broken\n\na.png\t1\t2\t\t0\t0\t\t\r\nb.png\t3\t4\t\t0\t0\t\t";
    let table = load_cache(content, &scores(content));
    assert_eq!(table.len(), 2);
    assert_eq!(table.get("a.png").unwrap().size_bytes, 1);
    assert_eq!(table.get("b.png").unwrap().modified_at, 4);
    assert!(table.get("broken").is_none());
}

#[test]
fn records_that_were_read_can_be_written_again() {
    let content: &str = "a.png\t1\t2\todd hash\t3\t4\t0.25\t5\n";
    let table = load_cache(content, &scores(content));
    let record: CacheRecord = table.get("a.png").unwrap().clone();
    assert_eq!(record.blur_score, Some(0.25f64.to_bits()));
    assert_eq!(save_cache(&vec![record], &vec!["0.25".to_string()]), content);
}

#[test]
fn no_records_make_an_empty_file() {
    assert_eq!(save_cache(&Vec::new(), &Vec::new()), "");
    assert_eq!(load_cache("", &Vec::new()).len(), 0);
}

#[test]
fn a_basic_record_has_no_details() {
    let mut record: CacheRecord = CacheRecord::basic("a", 1, 2);
    assert!(!record.has_details());
    record.width = 1;
    record.height = 1;
    assert!(!record.has_details());
    record.perceptual_hash = Some(0);
    assert!(record.has_details());
    record.height = 0;
    assert!(!record.has_details());
}
