//! Errors, progress, blur scores and the run over files for the trash.
use picture_cleaner::blur::is_blurry;
use picture_cleaner::cancel::{
    next_flag, CancelEvent,
    CancelEvent::{Checked, Requested, Started},
};
use picture_cleaner::errors::{check_cancelled, check_root, ScanError};
use picture_cleaner::progress::{
    file_progress, file_reports, part_progress, FilePart, ScanPart,
};
use picture_cleaner::trash::TrashRun;

#[test]
fn a_cancelled_scan_does_not_go_on() {
    assert_eq!(check_cancelled(true), Err(ScanError::Cancelled));
    assert_eq!(check_cancelled(false), Ok(()));
    assert_eq!(ScanError::Cancelled.message(), "cancelled");
}

fn check_after(events: &[CancelEvent]) -> Result<(), ScanError> {
    let mut flag: bool = false;
    for event in events {
        flag = next_flag(flag, *event);
    }
    check_cancelled(flag)
}

#[test]
fn a_check_fails_if_cancelling_was_asked_since_the_last_start() {
    assert_eq!(check_after(&[]), Ok(()));
    assert_eq!(check_after(&[Started, Checked]), Ok(()));
    assert_eq!(check_after(&[Requested]), Err(ScanError::Cancelled));
    assert_eq!(check_after(&[Started, Requested]), Err(ScanError::Cancelled));
    assert_eq!(check_after(&[Requested, Started]), Ok(()));
    assert_eq!(check_after(&[Requested, Started, Checked, Requested]), Err(ScanError::Cancelled));
}

#[test]
fn cancelling_lasts_until_the_next_start() {
    assert_eq!(check_after(&[Started, Requested, Checked, Checked]), Err(ScanError::Cancelled));
    assert_eq!(check_after(&[Started, Requested, Requested, Checked]), Err(ScanError::Cancelled));
    assert_eq!(check_after(&[Started, Requested, Checked, Started, Checked]), Ok(()));
}

#[test]
fn the_root_must_be_a_folder() {
    assert_eq!(check_root(true, true), Ok(()));
    assert_eq!(check_root(true, false), Err(ScanError::RootNotFound));
    assert_eq!(check_root(false, false), Err(ScanError::RootNotFound));
    assert_eq!(check_root(false, true), Err(ScanError::RootNotFound));
    assert_eq!(ScanError::RootNotFound.message(), "選択したフォルダが見つかりません。");
}

#[test]
fn an_interrupted_scan_says_that_it_can_be_resumed() {
    assert_eq!(
        ScanError::Interrupted.message(),
        "スキャンをキャンセルしました。次回は保存済みの確認結果を使って再開します。"
    );
}

#[test]
fn parts_of_a_scan_have_messages() {
    let expected: [(ScanPart, &str); 8] = [
        (ScanPart::Searching, "画像ファイルを探しています"),
        (ScanPart::MatchingCache, "ローカルキャッシュを確認しています"),
        (ScanPart::HashingCandidates, "同じサイズの画像だけ内容を確認しています"),
        (ScanPart::GroupingDuplicates, "完全重複を確認しています"),
        (ScanPart::Analyzing, "未解析画像のブレ値と類似判定データを作成しています"),
        (ScanPart::GroupingSimilar, "類似画像をバケット方式で確認しています"),
        (ScanPart::ListingBlurry, "ブレの可能性がある画像をまとめています"),
        (ScanPart::Presenting, "スキャン結果を表示しています"),
    ];
    for (part, message) in expected {
        let progress = part_progress(part, 3, 7);
        assert_eq!(progress.message, message);
        assert_eq!(progress.current, 3);
        assert_eq!(progress.total, 7);
    }
}

#[test]
fn work_on_a_file_names_the_file() {
    let expected: [(FilePart, &str); 4] = [
        (FilePart::Hashing, "「a.png」の内容を確認中"),
        (FilePart::Reading, "「a.png」を読み込んでいます"),
        (FilePart::MeasuringBlur, "「a.png」のブレ値を計算中"),
        (FilePart::Describing, "「a.png」の類似判定用データを作成中"),
    ];
    for (part, message) in expected {
        let progress = file_progress(part, "dir/a.png", 1, 2);
        assert_eq!(progress.message, message);
        assert_eq!(progress.current, 1);
        assert_eq!(progress.total, 2);
    }
}

#[test]
fn a_file_is_reported_step_by_step() {
    let reading: Vec<FilePart> = vec![FilePart::Reading];
    assert_eq!(file_reports(true, false), reading);
    assert_eq!(file_reports(false, false), reading);
    assert_eq!(
        file_reports(true, true),
        vec![FilePart::Reading, FilePart::MeasuringBlur, FilePart::Describing]
    );
    assert_eq!(file_reports(false, true), vec![FilePart::Reading, FilePart::Describing]);
    assert!(file_reports(true, true).starts_with(&file_reports(true, false)));
}

#[test]
fn scores_below_the_threshold_are_blurry() {
    for score in [
        0.0f64, -0.0, 1.0, 79.0, 79.99999999999999, -1.0, -80.0, 5e-324, f64::MIN_POSITIVE,
        f64::NEG_INFINITY, f64::MIN,
    ] {
        assert!(score < 80.0);
        assert!(is_blurry(score.to_bits()), "{score}");
    }
}

#[test]
fn other_scores_are_not_blurry() {
    for score in [80.0f64, 80.00000000000001, 81.0, 1e300, f64::MAX, f64::INFINITY, f64::NAN, -f64::NAN] {
        assert!(!is_blurry(score.to_bits()), "{score}");
    }
}

#[test]
fn a_lower_score_is_blurry_if_a_higher_one_is() {
    let scores: [f64; 5] = [0.0, 20.0, 79.5, 80.0, 120.0];
    for low in scores {
        for high in scores {
            if low <= high && is_blurry(high.to_bits()) {
                assert!(is_blurry(low.to_bits()));
            }
        }
    }
}

#[test]
fn selected_files_are_moved_in_order() {
    let mut run: TrashRun = TrashRun::new(vec!["a".to_string(), "b".to_string()]);
    assert_eq!(run.next(), Some("a".to_string()));
    run = run.settle(Ok(())).unwrap();
    assert_eq!(run.next(), Some("b".to_string()));
    run = run.settle(Ok(())).unwrap();
    assert_eq!(run.next(), None);
    assert_eq!(run.finish(), vec!["a", "b"]);
}

#[test]
fn the_first_failure_ends_the_run() {
    let run: TrashRun = TrashRun::new(vec!["a".to_string(), "b".to_string()]);
    let run: TrashRun = run.settle(Ok(())).unwrap();
    let message: String = run.settle(Err("busy".to_string())).unwrap_err();
    assert_eq!(message, "ゴミ箱へ移動できませんでした: b (busy)");
}

#[test]
fn nothing_selected_moves_nothing() {
    let run: TrashRun = TrashRun::new(Vec::new());
    assert_eq!(run.next(), None);
    assert!(run.finish().is_empty());
}
