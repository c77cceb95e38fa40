//! Explicit user preferences: namespaces and the standing-preferences block.

use vstd::prelude::*;
use crate::text::{chars_of, string_from_chars, trim, trim_chars};

verus! {

/// Always-on preferences, injected into the system prompt every thread.
pub const USER_PREF_GENERAL_NAMESPACE: &'static str = "user_pref_general";
/// Topic-scoped preferences, recalled per query.
pub const USER_PREF_SITUATIONAL_NAMESPACE: &'static str = "user_pref_situational";
/// Default cap on general preferences injected into the system prompt.
pub const STANDING_PREFS_LIMIT: usize = 10;

/// The standing preferences among the bodies fetched for the first `upto`
/// listed entries (newest first): each trimmed, blank or unavailable ones
/// skipped.
pub open spec fn standing(fetched: Seq<Option<String>>, upto: int) -> Seq<Seq<char>>
    decreases upto,
{
    if upto <= 0 {
        seq![]
    } else {
        let prev = standing(fetched, upto - 1);
        match fetched[upto - 1] {
            Some(b) => if trim(b@).len() > 0 {
                prev.push(trim(b@))
            } else {
                prev
            },
            None => prev,
        }
    }
}

/// The Lane-A block: from the bodies fetched for the listed general
/// preferences (newest first; `None` where a body could not be read), the
/// non-blank ones among the first `limit` entries, trimmed.
pub fn general_preferences_from(fetched: &Vec<Option<String>>, limit: usize) -> (r: Vec<String>)
    ensures
        ({
            let n: int = if limit < fetched@.len() {
                limit as int
            } else {
                fetched@.len() as int
            };
            &&& r@.len() == standing(fetched@, n).len()
            &&& forall|k: int| 0 <= k < r@.len() ==> #[trigger] r@[k]@ == standing(fetched@, n)[k]
        }),
        r@.len() <= limit,
{
    let n = if limit < fetched.len() {
        limit
    } else {
        fetched.len()
    };
    let mut out: Vec<String> = Vec::new();
    let mut i: usize = 0;
    while i < n
        invariant
            n <= fetched@.len(),
            i <= n,
            n <= limit,
            out@.len() <= i,
            out@.len() == standing(fetched@, i as int).len(),
            forall|k: int| 0 <= k < out@.len() ==> #[trigger] out@[k]@ == standing(fetched@, i as int)[k],
        decreases n - i,
    {
        match &fetched[i] {
            Some(b) => {
                let t = trim_chars(&chars_of(b.as_str()));
                if t.len() > 0 {
                    out.push(string_from_chars(&t));
                }
            },
            None => {},
        }
        i = i + 1;
    }
    out
}

} // verus!
