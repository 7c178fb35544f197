//! The two states of a task and their names in the backing file.

use crate::text::same_text;
use vstd::prelude::*;

verus! {

/// Whether a task is done.
#[derive(Debug, Clone, Copy, PartialEq, Eq, Hash, Structural)]
pub enum TaskStatus {
    Complete,
    Incomplete,
}

impl TaskStatus {
    /// The token that stands for the status in a line of the backing file.
    pub open spec fn token(self) -> Seq<char> {
        match self {
            TaskStatus::Complete => "Complete"@,
            TaskStatus::Incomplete => "Incomplete"@,
        }
    }

    /// The status that `token` stands for, if it is the name of one.
    pub open spec fn of_token(token: Seq<char>) -> Option<TaskStatus> {
        if token == "Complete"@ {
            Some(TaskStatus::Complete)
        } else if token == "Incomplete"@ {
            Some(TaskStatus::Incomplete)
        } else {
            None
        }
    }

    /// The name of the status, as the backing file writes it.
    pub fn name(self) -> (s: &'static str)
        ensures
            s@ == self.token(),
    {
        match self {
            TaskStatus::Complete => "Complete",
            TaskStatus::Incomplete => "Incomplete",
        }
    }

    /// The status called `name`; `None` where `name` is neither name,
    /// letter for letter.
    pub fn from_name(name: &str) -> (r: Option<TaskStatus>)
        ensures
            r == TaskStatus::of_token(name@),
    {
        if same_text(name, "Complete") {
            Some(TaskStatus::Complete)
        } else if same_text(name, "Incomplete") {
            Some(TaskStatus::Incomplete)
        } else {
            None
        }
    }
}

/// The two names are different, so each status is found again by its name,
/// and a name leads to no status but its own.
pub proof fn lemma_status_token_round_trip(status: TaskStatus, token: Seq<char>)
    ensures
        TaskStatus::of_token(status.token()) == Some(status),
        TaskStatus::of_token(token) == Some(status) <==> token == status.token(),
{
    reveal_strlit("Complete");
    reveal_strlit("Incomplete");
    assert("Complete"@.len() != "Incomplete"@.len());
}

} // verus!
