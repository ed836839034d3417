//! What is reported while a scan goes on.
use vstd::prelude::*;
use vstd::string::*;

use crate::paths::{display_file_name, shown_name};

verus! {

/// A report of how far a scan has come.
#[derive(Debug)]
pub struct ScanProgress {
    pub message: String,
    pub current: usize,
    pub total: usize,
}

/// The parts of a scan.
#[derive(Debug, Clone, Copy, PartialEq, Eq, Structural)]
pub enum ScanPart {
    Searching,
    MatchingCache,
    HashingCandidates,
    GroupingDuplicates,
    Analyzing,
    GroupingSimilar,
    ListingBlurry,
    Presenting,
}

/// What is done with a single file.
#[derive(Debug, Clone, Copy, PartialEq, Eq, Structural)]
pub enum FilePart {
    Hashing,
    Reading,
    MeasuringBlur,
    Describing,
}

/// The message for a part of a scan.
pub open spec fn part_message(part: ScanPart) -> Seq<char> {
    match part {
        ScanPart::Searching => "画像ファイルを探しています"@,
        ScanPart::MatchingCache => "ローカルキャッシュを確認しています"@,
        ScanPart::HashingCandidates => "同じサイズの画像だけ内容を確認しています"@,
        ScanPart::GroupingDuplicates => "完全重複を確認しています"@,
        ScanPart::Analyzing => "未解析画像のブレ値と類似判定データを作成しています"@,
        ScanPart::GroupingSimilar => "類似画像をバケット方式で確認しています"@,
        ScanPart::ListingBlurry => "ブレの可能性がある画像をまとめています"@,
        ScanPart::Presenting => "スキャン結果を表示しています"@,
    }
}

/// The end of the message for what is done with a file.
pub open spec fn file_part_message(part: FilePart) -> Seq<char> {
    match part {
        FilePart::Hashing => "」の内容を確認中"@,
        FilePart::Reading => "」を読み込んでいます"@,
        FilePart::MeasuringBlur => "」のブレ値を計算中"@,
        FilePart::Describing => "」の類似判定用データを作成中"@,
    }
}

/// Reports a part of a scan.
pub fn part_progress(part: ScanPart, current: usize, total: usize) -> (progress: ScanProgress)
    ensures
        progress.message@ == part_message(part),
        progress.current == current,
        progress.total == total,
{
    let message: String = match part {
        ScanPart::Searching => "画像ファイルを探しています".to_string(),
        ScanPart::MatchingCache => "ローカルキャッシュを確認しています".to_string(),
        ScanPart::HashingCandidates => "同じサイズの画像だけ内容を確認しています".to_string(),
        ScanPart::GroupingDuplicates => "完全重複を確認しています".to_string(),
        ScanPart::Analyzing => "未解析画像のブレ値と類似判定データを作成しています".to_string(),
        ScanPart::GroupingSimilar => "類似画像をバケット方式で確認しています".to_string(),
        ScanPart::ListingBlurry => "ブレの可能性がある画像をまとめています".to_string(),
        ScanPart::Presenting => "スキャン結果を表示しています".to_string(),
    };
    ScanProgress { message, current, total }
}

/// Reports what is done with the file at a path.
pub fn file_progress(
    part: FilePart,
    path: &str,
    current: usize,
    total: usize,
) -> (progress: ScanProgress)
    ensures
        progress.message@ == "「"@ + shown_name(path@) + file_part_message(part),
        progress.current == current,
        progress.total == total,
{
    let mut message: String = "「".to_string();
    message.append(display_file_name(path).as_str());
    match part {
        FilePart::Hashing => message.append("」の内容を確認中"),
        FilePart::Reading => message.append("」を読み込んでいます"),
        FilePart::MeasuringBlur => message.append("」のブレ値を計算中"),
        FilePart::Describing => message.append("」の類似判定用データを作成中"),
    }
    ScanProgress { message, current, total }
}

/// What is done with a file whose image is to be measured, in order: it is read, and if an
/// image came out of that, its blur is measured where that is asked for, and it is described.
pub open spec fn file_parts(include_blur_score: bool, decoded: bool) -> Seq<FilePart> {
    if !decoded {
        seq![FilePart::Reading]
    } else if include_blur_score {
        seq![FilePart::Reading, FilePart::MeasuringBlur, FilePart::Describing]
    } else {
        seq![FilePart::Reading, FilePart::Describing]
    }
}

/// What is reported of a file whose image is to be measured, in order.
pub fn file_reports(include_blur_score: bool, decoded: bool) -> (parts: Vec<FilePart>)
    ensures
        parts@ == file_parts(include_blur_score, decoded),
{
    let mut parts: Vec<FilePart> = Vec::new();
    parts.push(FilePart::Reading);
    if decoded {
        if include_blur_score {
            parts.push(FilePart::MeasuringBlur);
        }
        parts.push(FilePart::Describing);
    }
    parts
}

/// What is reported before it is known whether a file holds an image is reported either way.
pub proof fn law_first_reports_come_either_way(include_blur_score: bool)
    ensures
        file_parts(include_blur_score, false).is_prefix_of(file_parts(include_blur_score, true)),
{
}

/// The messages for the parts of a scan and for what is done with a file.
pub proof fn law_messages_of_parts()
    ensures
        part_message(ScanPart::Searching) == "画像ファイルを探しています"@,
        part_message(ScanPart::MatchingCache) == "ローカルキャッシュを確認しています"@,
        part_message(ScanPart::HashingCandidates) == "同じサイズの画像だけ内容を確認しています"@,
        part_message(ScanPart::GroupingDuplicates) == "完全重複を確認しています"@,
        part_message(ScanPart::Analyzing) == "未解析画像のブレ値と類似判定データを作成しています"@,
        part_message(ScanPart::GroupingSimilar) == "類似画像をバケット方式で確認しています"@,
        part_message(ScanPart::ListingBlurry) == "ブレの可能性がある画像をまとめています"@,
        part_message(ScanPart::Presenting) == "スキャン結果を表示しています"@,
        file_part_message(FilePart::Hashing) == "」の内容を確認中"@,
        file_part_message(FilePart::Reading) == "」を読み込んでいます"@,
        file_part_message(FilePart::MeasuringBlur) == "」のブレ値を計算中"@,
        file_part_message(FilePart::Describing) == "」の類似判定用データを作成中"@,
{
}

/// Reading is reported first and always. If an image came out of it, describing is reported
/// last, and measuring blur between the two exactly if it is asked for. Nothing is reported
/// twice.
pub proof fn law_reports_of_a_file(include_blur_score: bool, decoded: bool)
    ensures
        file_parts(include_blur_score, decoded)[0] == FilePart::Reading,
        file_parts(include_blur_score, decoded).no_duplicates(),
        file_parts(include_blur_score, decoded).contains(FilePart::MeasuringBlur)
            <==> include_blur_score && decoded,
        file_parts(include_blur_score, decoded).contains(FilePart::Describing) <==> decoded,
        !file_parts(include_blur_score, decoded).contains(FilePart::Hashing),
        decoded ==> file_parts(include_blur_score, decoded).last() == FilePart::Describing,
        file_parts(include_blur_score, decoded).len() >= 1,
{
    let parts = file_parts(include_blur_score, decoded);
    if decoded {
        assert(parts[parts.len() - 1] == FilePart::Describing);
        if include_blur_score {
            assert(parts[1] == FilePart::MeasuringBlur);
        }
    }
}

} // verus!
