//! Task-board cards as the dispatcher and the task-source router read them.

use vstd::prelude::*;
use crate::text::{chars_eq_str, chars_of, trim, trim_chars};

verus! {

/// Lifecycle status of a task card.
#[derive(Clone, Copy, Debug, PartialEq, Eq)]
pub enum TaskCardStatus {
    Todo,
    Ready,
    InProgress,
    AwaitingApproval,
    Blocked,
    Done,
    Rejected,
}

/// The members of a card's `source_metadata` JSON object: each key with its
/// text when the value is a JSON string (`None` for any other value).
#[derive(Clone, Debug)]
pub struct SourceMetadata {
    pub fields: Vec<(String, Option<String>)>,
}

/// One card on a task board.
#[derive(Clone, Debug)]
pub struct TaskBoardCard {
    pub id: String,
    /// Display title (`[Provider] title` for ingested tasks).
    pub title: String,
    pub status: TaskCardStatus,
    /// The clean goal the executing agent works toward.
    pub objective: Option<String>,
    pub plan: Vec<String>,
    pub assigned_agent: Option<String>,
    pub acceptance_criteria: Vec<String>,
    pub source_metadata: Option<SourceMetadata>,
    /// Position on the board.
    pub order: u32,
}

/// `(key, string value)` view of the metadata members.
pub open spec fn meta_view(m: SourceMetadata) -> Seq<(Seq<char>, Option<Seq<char>>)> {
    m.fields@.map_values(
        |f: (String, Option<String>)| (f.0@, match f.1 {
            Some(s) => Some(s@),
            None => None,
        }),
    )
}

/// `meta.get(key).and_then(Value::as_str)`: the text of the first member
/// named `key` when it is a JSON string.
pub open spec fn meta_get(fields: Seq<(Seq<char>, Option<Seq<char>>)>, key: Seq<char>) -> Option<Seq<char>>
    decreases fields.len(),
{
    if fields.len() == 0 {
        None
    } else if fields[0].0 == key {
        fields[0].1
    } else {
        meta_get(fields.drop_first(), key)
    }
}

/// The trimmed text of member `key`, when it is a non-blank JSON string.
pub open spec fn meta_str(fields: Seq<(Seq<char>, Option<Seq<char>>)>, key: Seq<char>) -> Option<Seq<char>> {
    match meta_get(fields, key) {
        Some(s) => if trim(s).len() > 0 {
            Some(trim(s))
        } else {
            None
        },
        None => None,
    }
}

/// The text of member `key` of `meta`, when it is a JSON string.
pub fn meta_get_exec(meta: &SourceMetadata, key: &str) -> (r: Option<Vec<char>>)
    ensures
        match r {
            Some(v) => meta_get(meta_view(*meta), key@) == Some(v@),
            None => meta_get(meta_view(*meta), key@) is None,
        },
{
    let ghost fv = meta_view(*meta);
    let mut i: usize = 0;
    proof {
        assert(fv.skip(0) =~= fv);
    }
    while i < meta.fields.len()
        invariant
            fv == meta_view(*meta),
            i <= meta.fields@.len(),
            meta_get(fv, key@) == meta_get(fv.skip(i as int), key@),
        decreases meta.fields@.len() - i,
    {
        let f = &meta.fields[i];
        let k = chars_of(f.0.as_str());
        proof {
            assert(fv.skip(i as int)[0] == fv[i as int]);
            assert(fv.skip(i as int).drop_first() =~= fv.skip(i + 1));
        }
        if chars_eq_str(&k, key) {
            return match &f.1 {
                Some(s) => Some(chars_of(s.as_str())),
                None => None,
            };
        }
        i = i + 1;
    }
    None
}

/// The trimmed text of member `key` of `meta`, when it is a non-blank JSON
/// string.
pub fn meta_str_exec(meta: &SourceMetadata, key: &str) -> (r: Option<Vec<char>>)
    ensures
        match r {
            Some(v) => meta_str(meta_view(*meta), key@) == Some(v@),
            None => meta_str(meta_view(*meta), key@) is None,
        },
{
    match meta_get_exec(meta, key) {
        Some(v) => {
            let t = trim_chars(&v);
            if t.len() > 0 {
                Some(t)
            } else {
                None
            }
        },
        None => None,
    }
}

} // verus!
