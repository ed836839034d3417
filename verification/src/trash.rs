//! Moving the selected files to the trash, one after the other.
use vstd::prelude::*;
use vstd::string::*;

use crate::text::text_views;

verus! {

/// A run over the selected files: those that were moved, and all that were selected.
#[derive(Debug)]
pub struct TrashRun {
    selected: Vec<String>,
    moved: usize,
}

impl TrashRun {
    /// The paths that were selected.
    pub closed spec fn selected(&self) -> Seq<Seq<char>> {
        text_views(self.selected@)
    }

    /// How many of them were moved: the first ones.
    pub closed spec fn moved(&self) -> nat {
        self.moved as nat
    }

    /// Not more files are moved than were selected.
    pub closed spec fn well_formed(&self) -> bool {
        self.moved <= self.selected@.len()
    }

    /// A run in which nothing was moved yet.
    pub fn new(paths: Vec<String>) -> (run: TrashRun)
        ensures
            run.well_formed(),
            run.selected() == text_views(paths@),
            run.moved() == 0,
    {
        TrashRun { selected: paths, moved: 0 }
    }

    /// The path of the file to move next, if one is left.
    pub fn next(&self) -> (path: Option<String>)
        requires
            self.well_formed(),
        ensures
            match path {
                Some(path) => self.moved() < self.selected().len() && path@
                    == self.selected()[self.moved() as int],
                None => self.moved() == self.selected().len(),
            },
    {
        if self.moved < self.selected.len() {
            assert(text_views(self.selected@)[self.moved as int] == self.selected@[self.moved as int]@);
            Some(self.selected[self.moved].clone())
        } else {
            None
        }
    }

    /// Goes on after the next file was moved, or ends the run with a message where it could
    /// not be. What was moved before stays moved.
    pub fn settle(self, outcome: Result<(), String>) -> (run: Result<TrashRun, String>)
        requires
            self.well_formed(),
            self.moved() < self.selected().len(),
        ensures
            match outcome {
                Ok(_) => run matches Ok(run) && run.well_formed() && run.selected()
                    == self.selected() && run.moved() == self.moved() + 1,
                Err(error) => run matches Err(message) && message@ == trash_failure(
                    self.selected()[self.moved() as int],
                    error@,
                ),
            },
    {
        match outcome {
            Ok(_) => {
                assert(self.selected@.len() == self.selected.len());
                Ok(TrashRun { selected: self.selected, moved: self.moved + 1 })
            },
            Err(error) => {
                assert(text_views(self.selected@)[self.moved as int]
                    == self.selected@[self.moved as int]@);
                let mut message: String = "ゴミ箱へ移動できませんでした: ".to_string();
                message.append(self.selected[self.moved].as_str());
                message.append(" (");
                message.append(error.as_str());
                message.append(")");
                Err(message)
            },
        }
    }

    /// The paths of the files, once all of them were moved.
    pub fn finish(self) -> (moved: Vec<String>)
        requires
            self.well_formed(),
            self.moved() == self.selected().len(),
        ensures
            text_views(moved@) == self.selected(),
    {
        self.selected
    }
}

/// The message for a file that could not be moved.
pub open spec fn trash_failure(path: Seq<char>, error: Seq<char>) -> Seq<char> {
    "ゴミ箱へ移動できませんでした: "@ + path + " ("@ + error + ")"@
}

/// The message for a file that could not be moved names the file and then the reason.
pub proof fn law_failure_names_file_and_reason(path: Seq<char>, error: Seq<char>)
    ensures
        trash_failure(path, error) == "ゴミ箱へ移動できませんでした: "@ + path + " ("@ + error
            + ")"@,
{
}

} // verus!
