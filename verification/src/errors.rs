//! Why a scan ends without a result.
use vstd::prelude::*;
use vstd::string::*;

verus! {

/// Why a scan ends without a result.
#[derive(Debug, Clone, Copy, PartialEq, Eq, Structural)]
pub enum ScanError {
    /// The scan was cancelled while its files were looked at.
    Cancelled,
    /// The folder to scan does not exist, or is no folder.
    RootNotFound,
    /// The scan was cancelled while files were read. What was found is kept.
    Interrupted,
}

/// The message for an error.
pub open spec fn error_message(error: ScanError) -> Seq<char> {
    match error {
        ScanError::Cancelled => "cancelled"@,
        ScanError::RootNotFound => "選択したフォルダが見つかりません。"@,
        ScanError::Interrupted =>
            "スキャンをキャンセルしました。次回は保存済みの確認結果を使って再開します。"@,
    }
}

impl ScanError {
    /// The message for the error.
    pub fn message(&self) -> (text: String)
        ensures
            text@ == error_message(*self),
    {
        match self {
            ScanError::Cancelled => "cancelled".to_string(),
            ScanError::RootNotFound => "選択したフォルダが見つかりません。".to_string(),
            ScanError::Interrupted =>
                "スキャンをキャンセルしました。次回は保存済みの確認結果を使って再開します。".to_string(),
        }
    }
}

/// What a check for cancelling gives, by the flag.
pub open spec fn checked(cancelled: bool) -> Result<(), ScanError> {
    if cancelled {
        Err(ScanError::Cancelled)
    } else {
        Ok(())
    }
}

/// Goes on unless the scan was cancelled.
pub fn check_cancelled(cancelled: bool) -> (outcome: Result<(), ScanError>)
    ensures
        outcome == checked(cancelled),
{
    if cancelled {
        Err(ScanError::Cancelled)
    } else {
        Ok(())
    }
}

/// Goes on only if the folder to scan exists and is a folder.
pub fn check_root(is_there: bool, is_dir: bool) -> (outcome: Result<(), ScanError>)
    ensures
        outcome == if is_there && is_dir {
            Ok::<(), ScanError>(())
        } else {
            Err(ScanError::RootNotFound)
        },
{
    if !is_there || !is_dir {
        Err(ScanError::RootNotFound)
    } else {
        Ok(())
    }
}

/// The messages, and what a check gives.
pub proof fn law_messages_of_errors()
    ensures
        error_message(ScanError::Cancelled) == "cancelled"@,
        error_message(ScanError::RootNotFound) == "選択したフォルダが見つかりません。"@,
        error_message(ScanError::Interrupted)
            == "スキャンをキャンセルしました。次回は保存済みの確認結果を使って再開します。"@,
        checked(true) == Err::<(), ScanError>(ScanError::Cancelled),
        checked(false) == Ok::<(), ScanError>(()),
{
}

} // verus!
