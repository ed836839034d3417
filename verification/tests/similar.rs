//! Images that look alike, and the sets behind them.
use picture_cleaner::forest::{find, union};
use picture_cleaner::record::{AnalyzedImage, CacheRecord, ImageGroup};
use picture_cleaner::similar::{build_similar_groups_bucketed, group_by_root, similar_roots};

fn image(path: &str, hash: Option<u64>) -> AnalyzedImage {
    let mut record: CacheRecord = CacheRecord::basic(path, 1, 1);
    record.perceptual_hash = hash;
    AnalyzedImage { record }
}

fn images(hashes: &[Option<u64>]) -> Vec<AnalyzedImage> {
    hashes.iter().enumerate().map(|(i, hash)| image(&format!("{i}.png"), *hash)).collect()
}

fn grouped(hashes: &[Option<u64>]) -> Vec<Vec<String>> {
    build_similar_groups_bucketed(&images(hashes))
        .into_iter()
        .map(|group: ImageGroup| group.items.into_iter().map(|item| item.path).collect())
        .collect()
}

#[test]
fn find_shortens_the_way_to_the_root() {
    let mut parent: Vec<usize> = vec![0, 0, 1, 2, 4];
    assert_eq!(find(&mut parent, 3), 0);
    assert_eq!(parent, vec![0, 0, 0, 0, 4]);
    assert_eq!(find(&mut parent, 4), 4);
}

#[test]
fn union_hangs_the_right_root_below_the_left() {
    let mut parent: Vec<usize> = vec![0, 1, 2, 3];
    union(&mut parent, 2, 1);
    assert_eq!(parent, vec![0, 2, 2, 3]);
    union(&mut parent, 3, 1);
    assert_eq!(find(&mut parent, 1), 3);
    assert_eq!(find(&mut parent, 2), 3);
    assert_eq!(find(&mut parent, 0), 0);
    let before: Vec<usize> = parent.clone();
    union(&mut parent, 1, 2);
    assert_eq!(parent, before);
}

#[test]
fn union_links_the_right_root_alone() {
    let mut parent: Vec<usize> = vec![0, 0, 2, 2];
    union(&mut parent, 1, 3);
    assert_eq!(parent, vec![0, 0, 0, 2]);
}

#[test]
fn union_shortens_both_ways_first() {
    let mut parent: Vec<usize> = vec![0, 0, 1, 3, 3, 4];
    union(&mut parent, 2, 5);
    assert_eq!(parent, vec![0, 0, 0, 0, 3, 3]);
}

#[test]
fn groups_do_not_depend_on_the_order_of_the_images() {
    let hashes: [Option<u64>; 5] = [Some(0), Some(u64::MAX), Some(3), None, Some(u64::MAX - 1)];
    let forward: Vec<AnalyzedImage> = images(&hashes);
    let backward: Vec<AnalyzedImage> = images(&hashes).into_iter().rev().collect();
    let shown = |images: &[AnalyzedImage]| -> Vec<Vec<String>> {
        let mut groups: Vec<Vec<String>> = build_similar_groups_bucketed(images)
            .into_iter()
            .map(|group| group.items.into_iter().map(|item| item.path).collect())
            .collect();
        for group in groups.iter_mut() {
            group.sort();
        }
        groups.sort();
        groups
    };
    assert_eq!(shown(&forward), vec![vec!["0.png", "2.png"], vec!["1.png", "4.png"]]);
    assert_eq!(shown(&forward), shown(&backward));
}

#[test]
fn ten_differing_bits_are_alike() {
    assert_eq!(grouped(&[Some(0), Some(0b11_1111_1111)]), vec![vec!["0.png", "1.png"]]);
}

#[test]
fn eleven_differing_bits_are_not_alike() {
    assert!(grouped(&[Some(0), Some(0b111_1111_1111)]).is_empty());
}

#[test]
fn equal_hashes_are_alike() {
    assert_eq!(grouped(&[Some(77), Some(77)]), vec![vec!["0.png", "1.png"]]);
}

#[test]
fn three_differing_bits_always_share_a_band() {
    let hash: u64 = 0x0123_4567_89ab_cdef;
    for difference in [1u64, 1 << 63, (1 << 5) | (1 << 20) | (1 << 40), (1 << 17) | (1 << 33) | (1 << 50)] {
        assert_eq!(grouped(&[Some(hash), Some(hash ^ difference)]).len(), 1);
    }
}

#[test]
fn images_without_a_common_band_are_not_compared() {
    let spread: u64 = 1 | (1 << 16) | (1 << 32) | (1 << 48);
    assert!(grouped(&[Some(0), Some(spread)]).is_empty());
}

#[test]
fn likeness_passes_on() {
    let hashes: [Option<u64>; 4] = [Some(0), Some(0xffff), Some(0xff), Some(0xffff_ffff_ffff_ffff)];
    assert_eq!(grouped(&hashes), vec![vec!["0.png", "1.png", "2.png"]]);
}

#[test]
fn images_without_a_hash_are_left_alone() {
    assert_eq!(
        grouped(&[None, Some(5), None, Some(5)]),
        vec![vec!["1.png", "3.png"]]
    );
    assert!(grouped(&[None, None]).is_empty());
    assert!(grouped(&[]).is_empty());
}

#[test]
fn a_crowded_band_is_passed_over() {
    let crowd: Vec<Option<u64>> = vec![Some(9); 501];
    assert!(grouped(&crowd).is_empty());
    let fewer: Vec<Option<u64>> = vec![Some(9); 500];
    let groups: Vec<Vec<String>> = grouped(&fewer);
    assert_eq!(groups.len(), 1);
    assert_eq!(groups[0].len(), 500);
}

#[test]
fn each_band_is_looked_at() {
    for band in [0u64, 16, 32, 48] {
        let mut other: u64 = 0;
        for shift in [0u64, 16, 32, 48] {
            if shift != band {
                other |= 0b11 << shift;
            }
        }
        assert_eq!(grouped(&[Some(0), Some(other)]).len(), 1, "{band}");
    }
}

#[test]
fn roots_are_shared_by_connected_images() {
    let roots: Vec<usize> = similar_roots(&vec![Some(0), None, Some(1), Some(u64::MAX)]);
    assert_eq!(roots[0], roots[2]);
    assert_eq!(roots[1], 1);
    assert_eq!(roots[3], 3);
    assert_eq!(roots[roots[0]], roots[0]);
}

#[test]
fn groups_are_numbered_by_their_entry() {
    let groups = group_by_root(&images(&[None, None, None, None]), &vec![2, 1, 2, 2]);
    assert_eq!(groups.len(), 1);
    assert_eq!(groups[0].id, "similar-2");
    assert_eq!(groups[0].title, "見た目が近い画像");
    let paths: Vec<&str> = groups[0].items.iter().map(|item| item.path.as_str()).collect();
    assert_eq!(paths, vec!["0.png", "2.png", "3.png"]);
}
