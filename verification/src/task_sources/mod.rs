//! External task sources: the tasks they fetch, cross-source identity and
//! dedup, and how a task becomes a card on the `task-sources` board.

pub mod dedup;
pub mod route;

use vstd::prelude::*;

verus! {

/// What kind of upstream item a task is.
#[derive(Clone, Copy, Debug, PartialEq, Eq)]
pub enum TaskKind {
    Generic,
    Issue,
    PullRequest,
}

impl TaskKind {
    /// The kind's name as stamped on card metadata.
    pub fn as_str(&self) -> (s: &'static str)
        ensures
            s@ == kind_name(*self),
    {
        match self {
            TaskKind::Generic => "generic",
            TaskKind::Issue => "issue",
            TaskKind::PullRequest => "pull_request",
        }
    }
}

/// The name of a task kind.
pub open spec fn kind_name(k: TaskKind) -> Seq<char> {
    match k {
        TaskKind::Generic => "generic"@,
        TaskKind::Issue => "issue"@,
        TaskKind::PullRequest => "pull_request"@,
    }
}

/// A task as fetched from a provider.
#[derive(Clone, Debug)]
pub struct NormalizedTask {
    pub external_id: String,
    pub provider: String,
    pub title: String,
    pub url: Option<String>,
    pub kind: TaskKind,
}

} // verus!
