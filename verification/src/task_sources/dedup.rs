//! Identity-based, status-aware dedup for task-source cards.
//!
//! A stable [`TaskIdentity`] independent of the source, a predicate that
//! recognises a board card representing the same upstream item, and the rule
//! for when such a card may be replaced: only while it is still an untouched
//! `Todo` (run claims are checked by the caller).

use vstd::prelude::*;
use crate::task_board::{meta_str, meta_str_exec, meta_view, TaskBoardCard, TaskCardStatus};
use crate::task_sources::NormalizedTask;
use crate::text::{chars_eq, chars_of, string_from_chars, trim, trim_chars, trimmed};

verus! {

/// Stable, source-independent identity for an upstream task.
#[derive(Debug, Clone, PartialEq, Eq)]
pub struct TaskIdentity {
    pub provider: String,
    pub external_id: String,
    pub url: Option<String>,
}

/// `(provider, external id, url)` of an identity.
pub open spec fn identity_view(id: TaskIdentity) -> (Seq<char>, Seq<char>, Option<Seq<char>>) {
    (id.provider@, id.external_id@, match id.url {
        Some(u) => Some(u@),
        None => None,
    })
}

/// A url trimmed, or `None` when it is absent or blank.
pub open spec fn clean_url(url: Option<String>) -> Option<Seq<char>> {
    match url {
        Some(u) => if trim(u@).len() > 0 {
            Some(trim(u@))
        } else {
            None
        },
        None => None,
    }
}

/// The identity of a task: trimmed provider and external id, and the
/// trimmed url unless it is blank.
pub open spec fn identity_of(task: NormalizedTask) -> (Seq<char>, Seq<char>, Option<Seq<char>>) {
    (trim(task.provider@), trim(task.external_id@), clean_url(task.url))
}

/// Derive the identity of a normalized task.
pub fn task_identity(task: &NormalizedTask) -> (id: TaskIdentity)
    ensures
        identity_view(id) == identity_of(*task),
{
    let provider = string_from_chars(&trimmed(task.provider.as_str()));
    let external_id = string_from_chars(&trimmed(task.external_id.as_str()));
    let url = match &task.url {
        Some(u) => {
            let t = trimmed(u.as_str());
            if t.len() > 0 {
                Some(string_from_chars(&t))
            } else {
                None
            }
        },
        None => None,
    };
    TaskIdentity { provider, external_id, url }
}

/// A card's metadata names the identity's provider and (non-empty)
/// external id.
pub open spec fn provider_external_match(fields: Seq<(Seq<char>, Option<Seq<char>>)>, id: (Seq<char>, Seq<char>, Option<Seq<char>>)) -> bool {
    &&& id.1.len() > 0
    &&& meta_str(fields, "provider"@) == Some(id.0)
    &&& meta_str(fields, "external_id"@) == Some(id.1)
}

/// A card's metadata carries the identity's url.
pub open spec fn url_match(fields: Seq<(Seq<char>, Option<Seq<char>>)>, id: (Seq<char>, Seq<char>, Option<Seq<char>>)) -> bool {
    match id.2 {
        Some(u) => meta_str(fields, "url"@) == Some(u),
        None => false,
    }
}

/// `card` represents the upstream item of `id`: same provider and external
/// id, or (across providers) the same non-empty url. Cards without source
/// metadata never match.
pub open spec fn matches_identity(card: TaskBoardCard, id: (Seq<char>, Seq<char>, Option<Seq<char>>)) -> bool {
    match card.source_metadata {
        Some(m) => provider_external_match(meta_view(m), id) || url_match(meta_view(m), id),
        None => false,
    }
}

fn opt_eq(a: &Option<Vec<char>>, b: &String) -> (r: bool)
    ensures
        r == match a {
            Some(v) => v@ == b@,
            None => false,
        },
{
    match a {
        Some(v) => {
            let bv = chars_of(b.as_str());
            chars_eq(v, &bv)
        },
        None => false,
    }
}

/// True when `card` already represents the same upstream item as `identity`.
pub fn card_matches_identity(card: &TaskBoardCard, identity: &TaskIdentity) -> (b: bool)
    ensures
        b == matches_identity(*card, identity_view(*identity)),
{
    let meta = match &card.source_metadata {
        Some(m) => m,
        None => {
            return false;
        },
    };
    let provider_external = if identity.external_id.as_str().is_empty() {
        false
    } else {
        opt_eq(&meta_str_exec(meta, "provider"), &identity.provider) && opt_eq(
            &meta_str_exec(meta, "external_id"),
            &identity.external_id,
        )
    };
    if provider_external {
        return true;
    }
    match &identity.url {
        Some(u) => opt_eq(&meta_str_exec(meta, "url"), u),
        None => false,
    }
}

/// A card may be replaced or removed by dedup only while still untouched.
pub fn is_replaceable_status(status: &TaskCardStatus) -> (b: bool)
    ensures
        b == (*status == TaskCardStatus::Todo),
{
    match status {
        TaskCardStatus::Todo => true,
        _ => false,
    }
}

} // verus!
