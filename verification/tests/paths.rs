//! Names, extensions and identifiers of paths.
use std::collections::hash_map::DefaultHasher;
use std::hash::{Hash, Hasher};

use picture_cleaner::paths::{
    display_file_name, eq_ignore_ascii_case, is_supported_image, label_extension, label_name,
    name_extension, stable_id, supports_extension, supports_name,
};
use picture_cleaner::record::CacheRecord;

#[test]
fn the_four_formats_are_supported() {
    for name in ["a.jpg", "a.jpeg", "a.png", "a.webp", "a.JPG", "a.Jpeg", "a.PNG", "dir/a.b.WebP"] {
        assert!(is_supported_image(name), "{name}");
    }
}

#[test]
fn other_files_are_not_supported() {
    for name in ["a.gif", "a.jpgx", "a", ".png", "png", "a.", "a.png/..", "/", "", "a.ｊpg", "a.jp"] {
        assert!(!is_supported_image(name), "{name}");
    }
}

#[test]
fn the_extension_is_that_of_the_last_component() {
    assert!(is_supported_image("dir.txt/photo.png"));
    assert!(!is_supported_image("dir.png/photo"));
    assert!(is_supported_image("dir/photo.png/"));
}

#[test]
fn a_name_behind_a_folder_is_the_file_name() {
    assert!(!is_supported_image("dir/.jpg"));
    assert!(is_supported_image("a.b/c//Photo.JPG"));
    assert_eq!(display_file_name("./a"), "a");
    assert_eq!(display_file_name("dir.x/.jpg"), ".jpg");
    let item = CacheRecord::basic("dir/Photo.JPG", 1, 2).item();
    assert_eq!(item.file_name, "Photo.JPG");
    assert_eq!(item.extension, "jpg");
}

#[test]
fn extensions_stand_behind_the_last_dot() {
    assert_eq!(name_extension("a.tar.gz"), Some("gz".to_string()));
    assert_eq!(name_extension("a."), Some("".to_string()));
    assert_eq!(name_extension(".hidden"), None);
    assert_eq!(name_extension("..x"), Some("x".to_string()));
    assert_eq!(name_extension("plain"), None);
}

#[test]
fn case_is_ignored_for_ascii_letters_only() {
    assert!(eq_ignore_ascii_case("jPg", "JpG"));
    assert!(!eq_ignore_ascii_case("é", "É"));
    assert!(!eq_ignore_ascii_case("jpg", "jpeg"));
    assert!(!eq_ignore_ascii_case("@", "`"));
    assert!(supports_extension("WEBP"));
    assert!(!supports_extension(""));
}

#[test]
fn a_path_shows_its_file_name() {
    assert_eq!(display_file_name("some/dir/猫.png"), "猫.png");
    assert_eq!(display_file_name("猫.png"), "猫.png");
    assert_eq!(display_file_name("..."), "...");
    assert_eq!(display_file_name("dir/."), "dir");
}

#[test]
fn a_path_without_a_file_name_shows_a_label() {
    assert_eq!(display_file_name(".."), "不明なファイル");
    assert_eq!(display_file_name("a/.."), "不明なファイル");
    assert_eq!(display_file_name(""), "不明なファイル");
    assert_eq!(label_name(None), "不明なファイル");
    assert_eq!(label_name(Some("x".to_string())), "x");
}

#[test]
fn shown_extensions_are_in_lower_case() {
    assert_eq!(label_extension(&Some("A.PNG".to_string())), "png");
    assert_eq!(label_extension(&Some("a.ÄÖ".to_string())), "äö");
    assert_eq!(label_extension(&Some("plain".to_string())), "");
    assert_eq!(label_extension(&None), "");
    assert!(supports_name(&Some("x.jpeg".to_string())));
    assert!(!supports_name(&None));
}

#[test]
fn identifiers_are_hashes_of_the_text() {
    for path in ["", "a", "C:\\写真\\a.png", "/tmp/b.jpg"] {
        let mut hasher = DefaultHasher::new();
        path.hash(&mut hasher);
        assert_eq!(stable_id(path), format!("{:x}", hasher.finish()));
        assert_eq!(stable_id(path), stable_id(path));
    }
    assert_ne!(stable_id("a"), stable_id("b"));
}

#[test]
fn an_item_shows_what_its_record_holds() {
    let mut record: CacheRecord = CacheRecord::basic("photos/Cat.JPG", 12, 34);
    record.width = 5;
    record.height = 6;
    record.blur_score = Some(81.5f64.to_bits());
    let item = record.item();
    assert_eq!(item.id, stable_id("photos/Cat.JPG"));
    assert_eq!(item.path, "photos/Cat.JPG");
    assert_eq!(item.file_name, "Cat.JPG");
    assert_eq!(item.extension, "jpg");
    assert_eq!(item.size_bytes, 12);
    assert_eq!(item.width, 5);
    assert_eq!(item.height, 6);
    assert_eq!(item.modified_at, "34");
    assert_eq!(item.blur_score, Some(81.5f64.to_bits()));
}

#[test]
fn an_item_takes_the_name_it_is_given() {
    let record: CacheRecord = CacheRecord::basic("..", 1, 2);
    let item = record.item_named("id".to_string(), None);
    assert_eq!(item.id, "id");
    assert_eq!(item.file_name, "不明なファイル");
    assert_eq!(item.extension, "");
    assert_eq!(item.modified_at, "2");
}

#[test]
fn identifiers_are_short_hexadecimal_numbers() {
    for path in ["", "a", "b", "C:\\写真\\a.png", "/tmp/b.jpg"] {
        let id: String = stable_id(path);
        assert!(!id.is_empty() && id.len() <= 16);
        assert!(id.chars().all(|c| matches!(c, '0'..='9' | 'a'..='f')));
        assert!(!id.starts_with('0') || id.len() == 1);
    }
}
