//! Routing a fetched task onto the `task-sources` board.
//!
//! Dedup is scoped to the originating source: a source never adds a second
//! card for an item it already has. A card that has progressed past `Todo`,
//! or that a run claims, is never removed; untouched `Todo` duplicates are
//! swept and replaced by one fresh card.

use vstd::prelude::*;
use crate::task_board::{meta_get, meta_get_exec, meta_view, SourceMetadata, TaskBoardCard, TaskCardStatus};
use crate::task_sources::dedup::{card_matches_identity, identity_of, identity_view, is_replaceable_status, matches_identity, TaskIdentity};
use crate::task_sources::{kind_name, NormalizedTask, TaskKind};
use crate::text::{chars_eq, chars_eq_str, chars_of, join, push_chars, push_joined, push_str, string_from_chars, trim, trim_chars, trimmed, lemma_trim_idempotent};

verus! {

/// Stable thread id whose board collects every ingested task.
pub const TASK_SOURCES_THREAD_ID: &'static str = "task-sources";

/// Outcome of routing one fetched task.
#[derive(Debug, Clone, PartialEq, Eq)]
pub enum RouteOutcome {
    /// A fresh card was created with this id.
    Routed(String),
    /// An existing card already represents this upstream item; nothing was
    /// created.
    Deduped { existing_card_id: String },
}

// ── Provider labels ─────────────────────────────────────────────────────────

/// What `char::to_uppercase` yields for `c`.
pub uninterp spec fn char_upper(c: char) -> Seq<char>;

/// `char::to_uppercase`, collected: the uppercase mapping of `c`, which for
/// an ASCII lowercase letter is its ASCII uppercase letter. For other
/// characters the mapping is not stated.
#[verifier::external_body]
fn uppercase_char(c: char) -> (r: String)
    ensures
        r@ == char_upper(c),
        'a' <= c <= 'z' ==> r@ == seq![((c as u32) - 32) as char],
{
    c.to_uppercase().collect()
}

/// The display label of a provider slug: the known providers' brand
/// spelling, otherwise the slug with its first character uppercased.
pub open spec fn label_of(provider: Seq<char>) -> Seq<char> {
    if provider == "github"@ {
        "GitHub"@
    } else if provider == "notion"@ {
        "Notion"@
    } else if provider == "linear"@ {
        "Linear"@
    } else if provider == "clickup"@ {
        "ClickUp"@
    } else if provider.len() == 0 {
        seq![]
    } else {
        char_upper(provider[0]) + provider.drop_first()
    }
}

/// Title-case a provider slug for display on the card.
pub fn provider_label(provider: &str) -> (r: String)
    ensures
        r@ == label_of(provider@),
{
    let p = chars_of(provider);
    if chars_eq_str(&p, "github") {
        return "GitHub".to_owned();
    }
    if chars_eq_str(&p, "notion") {
        return "Notion".to_owned();
    }
    if chars_eq_str(&p, "linear") {
        return "Linear".to_owned();
    }
    if chars_eq_str(&p, "clickup") {
        return "ClickUp".to_owned();
    }
    if p.len() == 0 {
        return string_from_chars(&p);
    }
    let first = uppercase_char(p[0]);
    let mut out = chars_of(first.as_str());
    let mut i: usize = 1;
    let ghost head = out@;
    while i < p.len()
        invariant
            1 <= i <= p@.len(),
            out@ == head + p@.subrange(1, i as int),
        decreases p@.len() - i,
    {
        out.push(p[i]);
        i = i + 1;
        proof {
            assert(p@.subrange(1, i as int) =~= p@.subrange(1, i - 1).push(p@[i - 1]));
        }
    }
    proof {
        assert(p@.subrange(1, p@.len() as int) =~= p@.drop_first());
    }
    string_from_chars(&out)
}

// ── Which cards a source owns, and which may be replaced ────────────────────

/// `card` was ingested by source `source_id` (per its metadata).
pub open spec fn owned_by(card: TaskBoardCard, source_id: Seq<char>) -> bool {
    match card.source_metadata {
        Some(m) => meta_get(meta_view(m), "source_id"@) == Some(source_id),
        None => false,
    }
}

/// True when `card` was ingested by `source_id`.
pub fn card_owned_by(card: &TaskBoardCard, source_id: &str) -> (b: bool)
    ensures
        b == owned_by(*card, source_id@),
{
    match &card.source_metadata {
        Some(m) => match meta_get_exec(m, "source_id") {
            Some(v) => chars_eq_str(&v, source_id),
            None => false,
        },
        None => false,
    }
}

/// A run claims the card: one of the looked-up runs is active, or the lookup
/// failed.
pub open spec fn claims_from(lookup: Result<Vec<bool>, String>) -> bool {
    match lookup {
        Ok(active) => exists|i: int| 0 <= i < active@.len() && active@[i],
        Err(_) => true,
    }
}

/// Whether a run claims a card, from the outcome of looking its runs up:
/// any active run claims it, and a failed lookup counts as a claim so that a
/// card never provably idle is never removed.
pub fn run_claims_card(lookup: &Result<Vec<bool>, String>) -> (b: bool)
    ensures
        b == claims_from(*lookup),
{
    match lookup {
        Ok(active) => any_true(active),
        Err(_) => true,
    }
}

fn any_true(active: &Vec<bool>) -> (b: bool)
    ensures
        b == exists|i: int| 0 <= i < active@.len() && active@[i],
{
    let mut i: usize = 0;
    while i < active.len()
        invariant
            i <= active@.len(),
            forall|k: int| 0 <= k < i ==> !active@[k],
        decreases active@.len() - i,
    {
        if active[i] {
            assert(active@[i as int]);
            return true;
        }
        i = i + 1;
    }
    false
}

/// `card` may be removed or replaced: an untouched `Todo` no run claims.
pub open spec fn replaceable(card: TaskBoardCard, claimed: bool) -> bool {
    card.status == TaskCardStatus::Todo && !claimed
}

/// This source's cards for the item.
pub open spec fn relevant(card: TaskBoardCard, source_id: Seq<char>, id: (Seq<char>, Seq<char>, Option<Seq<char>>)) -> bool {
    owned_by(card, source_id) && matches_identity(card, id)
}

/// Ids of this source's untouched cards for the item, among the first `upto`.
pub open spec fn sweep_ids(cards: Seq<TaskBoardCard>, claimed: Seq<bool>, source_id: Seq<char>, id: (Seq<char>, Seq<char>, Option<Seq<char>>), upto: int) -> Seq<Seq<char>>
    decreases upto,
{
    if upto <= 0 {
        seq![]
    } else {
        let prev = sweep_ids(cards, claimed, source_id, id, upto - 1);
        let c = cards[upto - 1];
        if relevant(c, source_id, id) && replaceable(c, claimed[upto - 1]) {
            prev.push(c.id@)
        } else {
            prev
        }
    }
}

/// Id of this source's first in-flight or resolved card for the item, among
/// the first `upto`.
pub open spec fn blocking_id(cards: Seq<TaskBoardCard>, claimed: Seq<bool>, source_id: Seq<char>, id: (Seq<char>, Seq<char>, Option<Seq<char>>), upto: int) -> Option<Seq<char>>
    decreases upto,
{
    if upto <= 0 {
        None
    } else {
        let prev = blocking_id(cards, claimed, source_id, id, upto - 1);
        let c = cards[upto - 1];
        if prev is Some {
            prev
        } else if relevant(c, source_id, id) && !replaceable(c, claimed[upto - 1]) {
            Some(c.id@)
        } else {
            None
        }
    }
}

/// The dedup decision for one fetched task.
#[derive(Debug, Clone)]
pub struct DedupPlan {
    /// Untouched `Todo` cards of this source for the item, to remove.
    pub remove: Vec<String>,
    /// The in-flight or resolved card that already covers the item, if any:
    /// when present no card is created; otherwise one fresh card is.
    pub existing: Option<String>,
}

/// Decide how to route a fetched task given the board's cards and, for each
/// card, whether a run claims it.
pub fn decide_dedup(cards: &Vec<TaskBoardCard>, claimed: &Vec<bool>, source_id: &str, identity: &TaskIdentity) -> (plan: DedupPlan)
    requires
        claimed@.len() == cards@.len(),
    ensures
        plan.remove@.len() == sweep_ids(cards@, claimed@, source_id@, identity_view(*identity), cards@.len() as int).len(),
        forall|k: int| 0 <= k < plan.remove@.len() ==> #[trigger] plan.remove@[k]@ == sweep_ids(
            cards@,
            claimed@,
            source_id@,
            identity_view(*identity),
            cards@.len() as int,
        )[k],
        match plan.existing {
            Some(e) => blocking_id(cards@, claimed@, source_id@, identity_view(*identity), cards@.len() as int) == Some(e@),
            None => blocking_id(cards@, claimed@, source_id@, identity_view(*identity), cards@.len() as int) is None,
        },
{
    let ghost idv = identity_view(*identity);
    let mut remove: Vec<String> = Vec::new();
    let mut existing: Option<String> = None;
    let mut i: usize = 0;
    while i < cards.len()
        invariant
            claimed@.len() == cards@.len(),
            idv == identity_view(*identity),
            i <= cards@.len(),
            remove@.len() == sweep_ids(cards@, claimed@, source_id@, idv, i as int).len(),
            forall|k: int| 0 <= k < remove@.len() ==> #[trigger] remove@[k]@ == sweep_ids(cards@, claimed@, source_id@, idv, i as int)[k],
            match existing {
                Some(e) => blocking_id(cards@, claimed@, source_id@, idv, i as int) == Some(e@),
                None => blocking_id(cards@, claimed@, source_id@, idv, i as int) is None,
            },
        decreases cards@.len() - i,
    {
        let card = &cards[i];
        if card_owned_by(card, source_id) && card_matches_identity(card, identity) {
            if is_replaceable_status(&card.status) && !claimed[i] {
                remove.push(string_from_chars(&chars_of(card.id.as_str())));
            } else if existing.is_none() {
                existing = Some(string_from_chars(&chars_of(card.id.as_str())));
            }
        }
        i = i + 1;
    }
    DedupPlan { remove, existing }
}

/// Ids of this source's untouched cards, among the first `upto`.
pub open spec fn cleanup_ids(cards: Seq<TaskBoardCard>, claimed: Seq<bool>, source_id: Seq<char>, upto: int) -> Seq<Seq<char>>
    decreases upto,
{
    if upto <= 0 {
        seq![]
    } else {
        let prev = cleanup_ids(cards, claimed, source_id, upto - 1);
        let c = cards[upto - 1];
        if owned_by(c, source_id) && replaceable(c, claimed[upto - 1]) {
            prev.push(c.id@)
        } else {
            prev
        }
    }
}

/// Number of this source's cards that must be preserved, among the first
/// `upto`.
pub open spec fn preserved_count(cards: Seq<TaskBoardCard>, claimed: Seq<bool>, source_id: Seq<char>, upto: int) -> nat
    decreases upto,
{
    if upto <= 0 {
        0
    } else {
        preserved_count(cards, claimed, source_id, upto - 1) + if owned_by(cards[upto - 1], source_id)
            && !replaceable(cards[upto - 1], claimed[upto - 1]) {
            1nat
        } else {
            0nat
        }
    }
}

/// What to do with a deleted source's cards.
#[derive(Debug, Clone)]
pub struct SourceCleanup {
    /// Ids of the source's untouched `Todo` cards, to remove.
    pub remove: Vec<String>,
    /// Number of the source's cards that have progressed or are claimed and
    /// are therefore kept.
    pub preserved: usize,
}

/// Decide which of `source_id`'s cards to remove when the source is
/// deleted: every untouched, unclaimed `Todo` card goes; cards that have
/// progressed or that a run claims are preserved, so deleting a source never
/// destroys in-flight work.
pub fn remove_source_cards(cards: &Vec<TaskBoardCard>, claimed: &Vec<bool>, source_id: &str) -> (r: SourceCleanup)
    requires
        claimed@.len() == cards@.len(),
    ensures
        r.remove@.len() == cleanup_ids(cards@, claimed@, source_id@, cards@.len() as int).len(),
        forall|k: int| 0 <= k < r.remove@.len() ==> #[trigger] r.remove@[k]@ == cleanup_ids(
            cards@,
            claimed@,
            source_id@,
            cards@.len() as int,
        )[k],
        r.preserved as nat == preserved_count(cards@, claimed@, source_id@, cards@.len() as int),
{
    let mut remove: Vec<String> = Vec::new();
    let mut preserved: usize = 0;
    let mut i: usize = 0;
    while i < cards.len()
        invariant
            claimed@.len() == cards@.len(),
            i <= cards@.len(),
            preserved <= i,
            remove@.len() == cleanup_ids(cards@, claimed@, source_id@, i as int).len(),
            forall|k: int| 0 <= k < remove@.len() ==> #[trigger] remove@[k]@ == cleanup_ids(cards@, claimed@, source_id@, i as int)[k],
            preserved as nat == preserved_count(cards@, claimed@, source_id@, i as int),
        decreases cards@.len() - i,
    {
        let card = &cards[i];
        if card_owned_by(card, source_id) {
            if is_replaceable_status(&card.status) && !claimed[i] {
                remove.push(string_from_chars(&chars_of(card.id.as_str())));
            } else {
                preserved = preserved + 1;
            }
        }
        i = i + 1;
    }
    SourceCleanup { remove, preserved }
}

/// How many of the first `upto` removals succeeded.
pub open spec fn successes(ok: Seq<bool>, upto: int) -> nat
    decreases upto,
{
    if upto <= 0 {
        0
    } else {
        successes(ok, upto - 1) + if ok[upto - 1] {
            1nat
        } else {
            0nat
        }
    }
}

/// The `(removed, preserved)` counts a source deletion reports, once each
/// planned removal was attempted (`removed_ok[k]` for `plan.remove[k]`):
/// only the removals that succeeded count as removed.
pub fn cleanup_counts(plan: &SourceCleanup, removed_ok: &Vec<bool>) -> (r: (usize, usize))
    requires
        removed_ok@.len() == plan.remove@.len(),
    ensures
        r.0 as nat == successes(removed_ok@, removed_ok@.len() as int),
        r.1 == plan.preserved,
{
    let mut removed: usize = 0;
    let mut k: usize = 0;
    while k < removed_ok.len()
        invariant
            k <= removed_ok@.len(),
            removed <= k,
            removed as nat == successes(removed_ok@, k as int),
        decreases removed_ok@.len() - k,
    {
        if removed_ok[k] {
            removed = removed + 1;
        }
        k = k + 1;
    }
    (removed, plan.preserved)
}

// ── A fresh card for a fetched task ─────────────────────────────────────────

/// Whether a source's fetched tasks also start an agent turn.
#[derive(Clone, Copy, Debug, PartialEq, Eq)]
pub enum SourceTarget {
    /// Cards only.
    TodoOnly,
    /// Cards, plus a proactive triage turn for each fresh card.
    AgentTodoProactive,
}

/// A configured task source, as routing reads it.
#[derive(Clone, Debug)]
pub struct TaskSource {
    pub id: String,
    /// The repository of a GitHub filter (`None` for other providers, which
    /// have no repository concept).
    pub github_repo: Option<String>,
    /// Agent the source's cards are pre-assigned to.
    pub assigned_executor: Option<String>,
    pub target: SourceTarget,
}

/// A fetched task after enrichment, as routing reads it.
#[derive(Clone, Debug)]
pub struct EnrichedTask {
    pub task: NormalizedTask,
    pub summary: String,
    /// The intent-framed goal derived during enrichment.
    pub objective: Option<String>,
}

/// The fields of a card about to be added to the board.
#[derive(Clone, Debug)]
pub struct CardDraft {
    /// Display title: `[Provider] title`.
    pub content: String,
    pub notes: Option<String>,
    pub objective: Option<String>,
    pub assigned_agent: Option<String>,
    pub source_metadata: SourceMetadata,
}

/// An optional string's view.
pub open spec fn opt_view(o: Option<String>) -> Option<Seq<char>> {
    match o {
        Some(s) => Some(s@),
        None => None,
    }
}

/// A trimmed optional string, `None` when absent or blank.
pub open spec fn trimmed_opt(o: Option<String>) -> Option<Seq<char>> {
    match o {
        Some(s) => if trim(s@).len() > 0 {
            Some(trim(s@))
        } else {
            None
        },
        None => None,
    }
}

/// The card title: `[Provider] title`.
pub open spec fn card_content(e: EnrichedTask) -> Seq<char> {
    "["@ + label_of(e.task.provider@) + "] "@ + trim(e.task.title@)
}

/// The enrichment summary says more than the title: it differs from it and
/// is not blank (both trimmed).
pub open spec fn adds_summary(e: EnrichedTask) -> bool {
    trim(e.summary@) != trim(e.task.title@) && trim(e.summary@).len() > 0
}

/// The notes' parts: the summary when it adds to the title, then the url.
pub open spec fn note_parts(e: EnrichedTask) -> Seq<Seq<char>> {
    (if trim(e.summary@) != trim(e.task.title@) && trim(e.summary@).len() > 0 {
        seq![trim(e.summary@)]
    } else {
        seq![]
    }) + match trimmed_opt(e.task.url) {
        Some(u) => seq![u],
        None => seq![],
    }
}

/// The card notes: its parts on separate lines, or none.
pub open spec fn card_notes(e: EnrichedTask) -> Option<Seq<char>> {
    if note_parts(e).len() == 0 {
        None
    } else {
        Some(join(note_parts(e), "\n"@))
    }
}

/// The metadata stamped on the card: provider, source id and external id,
/// the (numeric) urgency, the kind unless generic, the url unless blank, and
/// for GitHub sources the repository unless blank.
pub open spec fn metadata_fields(source: TaskSource, e: EnrichedTask) -> Seq<(Seq<char>, Option<Seq<char>>)> {
    seq![
        ("provider"@, Some(e.task.provider@)),
        ("source_id"@, Some(source.id@)),
        ("external_id"@, Some(e.task.external_id@)),
        ("urgency"@, None),
    ] + (if e.task.kind != TaskKind::Generic {
        seq![("kind"@, Some(kind_name(e.task.kind)))]
    } else {
        seq![]
    }) + (match trimmed_opt(e.task.url) {
        Some(u) => seq![("url"@, Some(u))],
        None => seq![],
    }) + (match trimmed_opt(source.github_repo) {
        Some(r) => seq![("repo"@, Some(r))],
        None => seq![],
    })
}

fn trimmed_option(o: &Option<String>) -> (r: Option<String>)
    ensures
        opt_view(r) == trimmed_opt(*o),
{
    match o {
        Some(s) => {
            let t = trimmed(s.as_str());
            if t.len() > 0 {
                Some(string_from_chars(&t))
            } else {
                None
            }
        },
        None => None,
    }
}

fn copy_string(s: &String) -> (r: String)
    ensures
        r@ == s@,
{
    s.as_str().to_owned()
}

fn field(key: &str, value: Option<String>) -> (f: (String, Option<String>))
    ensures
        f.0@ == key@,
        f.1 == value,
{
    (key.to_owned(), value)
}

/// The card's source metadata.
pub fn build_source_metadata(source: &TaskSource, enriched: &EnrichedTask) -> (m: SourceMetadata)
    ensures
        meta_view(m) == metadata_fields(*source, *enriched),
{
    let task = &enriched.task;
    let mut fields: Vec<(String, Option<String>)> = Vec::new();
    fields.push(field("provider", Some(copy_string(&task.provider))));
    fields.push(field("source_id", Some(copy_string(&source.id))));
    fields.push(field("external_id", Some(copy_string(&task.external_id))));
    fields.push(field("urgency", None));
    match task.kind {
        TaskKind::Generic => {},
        _ => fields.push(field("kind", Some(task.kind.as_str().to_owned()))),
    }
    match trimmed_option(&task.url) {
        Some(u) => fields.push(field("url", Some(u))),
        None => {},
    }
    match trimmed_option(&source.github_repo) {
        Some(r) => fields.push(field("repo", Some(r))),
        None => {},
    }
    let m = SourceMetadata { fields };
    proof {
        assert(meta_view(m) =~= metadata_fields(*source, *enriched));
    }
    m
}

/// The fields of a fresh card for `enriched` from `source`: the
/// `[Provider] title` display title, notes, the enrichment objective, the
/// source's executor (trimmed, unless blank) and the source metadata.
pub fn card_draft(source: &TaskSource, enriched: &EnrichedTask) -> (d: CardDraft)
    ensures
        d.content@ == card_content(*enriched),
        opt_view(d.notes) == card_notes(*enriched),
        match trimmed_opt(enriched.task.url) {
            Some(u) => d.notes matches Some(n) && n@.len() >= u.len() && n@.subrange(
                n@.len() - u.len(),
                n@.len() as int,
            ) == u,
            None => true,
        },
        adds_summary(*enriched) ==> (d.notes matches Some(n) && n@.len() >= trim(enriched.summary@).len()
            && n@.take(trim(enriched.summary@).len() as int) == trim(enriched.summary@)),
        (adds_summary(*enriched) && trimmed_opt(enriched.task.url) is Some) ==> (d.notes matches Some(n) && n@
            == trim(enriched.summary@) + "\n"@ + trimmed_opt(enriched.task.url)->0),
        (!adds_summary(*enriched) && trimmed_opt(enriched.task.url) is None) ==> d.notes is None,
        opt_view(d.objective) == opt_view(enriched.objective),
        opt_view(d.assigned_agent) == trimmed_opt(source.assigned_executor),
        meta_view(d.source_metadata) == metadata_fields(*source, *enriched),
{
    let task = &enriched.task;
    let label = provider_label(task.provider.as_str());
    let title = trimmed(task.title.as_str());
    let mut content: Vec<char> = Vec::new();
    push_str(&mut content, "[");
    push_chars(&mut content, &chars_of(label.as_str()));
    push_str(&mut content, "] ");
    push_chars(&mut content, &title);

    let summary = trimmed(enriched.summary.as_str());
    let mut parts: Vec<Vec<char>> = Vec::new();
    let ghost mut pv: Seq<Seq<char>> = seq![];
    if !chars_eq(&summary, &title) && summary.len() > 0 {
        proof {
            pv = pv.push(summary@);
        }
        parts.push(summary);
    }
    match trimmed_option(&task.url) {
        Some(u) => {
            let uc = chars_of(u.as_str());
            proof {
                pv = pv.push(uc@);
            }
            parts.push(uc);
        },
        None => {},
    }
    proof {
        assert(pv =~= note_parts(*enriched));
    }
    let notes = if parts.len() == 0 {
        None
    } else {
        let mut n: Vec<char> = Vec::new();
        push_joined(&mut n, &parts, Ghost(pv), "\n");
        proof {
            assert(n@ =~= join(pv, "\n"@));
        }
        Some(string_from_chars(&n))
    };
    proof {
        let sep = "\n"@;
        if pv.len() == 2 {
            assert(pv.drop_last() =~= seq![pv[0]]);
            assert(join(pv, sep) == join(pv.drop_last(), sep) + sep + pv[1]);
            assert(join(pv.drop_last(), sep) == pv[0]);
            let j = join(pv, sep);
            assert(j.take(pv[0].len() as int) =~= pv[0]);
            assert(j.subrange(j.len() - pv[1].len(), j.len() as int) =~= pv[1]);
        }
        if pv.len() == 1 {
            assert(join(pv, sep) == pv[0]);
            assert(pv[0].take(pv[0].len() as int) =~= pv[0]);
            assert(pv[0].subrange(0, pv[0].len() as int) =~= pv[0]);
        }
    }
    let objective = match &enriched.objective {
        Some(o) => Some(copy_string(o)),
        None => None,
    };
    CardDraft {
        content: string_from_chars(&content),
        notes,
        objective,
        assigned_agent: trimmed_option(&source.assigned_executor),
        source_metadata: build_source_metadata(source, enriched),
    }
}


// ── Routing outcome ─────────────────────────────────────────────────────────

/// How the dedup step ended for a fetched task.
#[derive(Debug, Clone)]
pub enum Decision {
    /// A fresh card was created with this id.
    Created(String),
    /// This existing card already covers the item.
    Deduped(String),
}

/// The outcome of routing a task, and whether a proactive triage turn is to
/// be dispatched: only for a freshly created card of a proactive source.
pub fn route_outcome(decision: Decision, target: SourceTarget) -> (r: (RouteOutcome, bool))
    ensures
        match decision {
            Decision::Deduped(e) => r.0 == (RouteOutcome::Deduped { existing_card_id: e }) && !r.1,
            Decision::Created(c) => r.0 == RouteOutcome::Routed(c) && r.1 == (target
                == SourceTarget::AgentTodoProactive),
        },
{
    match decision {
        Decision::Deduped(existing_card_id) => (RouteOutcome::Deduped { existing_card_id }, false),
        Decision::Created(card_id) => {
            let triage = match target {
                SourceTarget::TodoOnly => false,
                SourceTarget::AgentTodoProactive => true,
            };
            (RouteOutcome::Routed(card_id), triage)
        },
    }
}

// ── Laws ────────────────────────────────────────────────────────────────────

/// Dedup only ever sweeps this source's own untouched, unclaimed `Todo`
/// cards for the item: a card that progressed, that a run claims, or that
/// another source ingested is never removed.
pub proof fn lemma_dedup_sweeps_only_untouched(
    cards: Seq<TaskBoardCard>,
    claimed: Seq<bool>,
    source_id: Seq<char>,
    id: (Seq<char>, Seq<char>, Option<Seq<char>>),
    upto: int,
)
    requires
        claimed.len() == cards.len(),
        0 <= upto <= cards.len(),
    ensures
        forall|k: int| 0 <= k < sweep_ids(cards, claimed, source_id, id, upto).len() ==> exists|i: int|
            0 <= i < upto && cards[i].id@ == #[trigger] sweep_ids(cards, claimed, source_id, id, upto)[k]
                && owned_by(cards[i], source_id) && matches_identity(cards[i], id) && cards[i].status
                == TaskCardStatus::Todo && !claimed[i],
    decreases upto,
{
    if upto > 0 {
        lemma_dedup_sweeps_only_untouched(cards, claimed, source_id, id, upto - 1);
        let prev = sweep_ids(cards, claimed, source_id, id, upto - 1);
        let cur = sweep_ids(cards, claimed, source_id, id, upto);
        assert forall|k: int| 0 <= k < cur.len() implies exists|i: int|
            0 <= i < upto && cards[i].id@ == #[trigger] cur[k] && owned_by(cards[i], source_id)
                && matches_identity(cards[i], id) && cards[i].status == TaskCardStatus::Todo && !claimed[i] by {
            if k < prev.len() {
                assert(cur[k] == prev[k]);
                let i = choose|i: int|
                    0 <= i < upto - 1 && cards[i].id@ == #[trigger] prev[k] && owned_by(cards[i], source_id)
                        && matches_identity(cards[i], id) && cards[i].status == TaskCardStatus::Todo && !claimed[i];
            } else {
                assert(cards[upto - 1].id@ == cur[k]);
            }
        }
    }
}

/// Number of this source's cards among the first `upto`.
pub open spec fn owned_count(cards: Seq<TaskBoardCard>, source_id: Seq<char>, upto: int) -> nat
    decreases upto,
{
    if upto <= 0 {
        0
    } else {
        owned_count(cards, source_id, upto - 1) + if owned_by(cards[upto - 1], source_id) {
            1nat
        } else {
            0nat
        }
    }
}

/// Deleting a source accounts for each of its cards exactly once: it is
/// either removed, being an untouched unclaimed `Todo` card of the source,
/// or preserved; no other source's card is removed.
pub proof fn lemma_cleanup_accounts_for_every_card(
    cards: Seq<TaskBoardCard>,
    claimed: Seq<bool>,
    source_id: Seq<char>,
    upto: int,
)
    requires
        claimed.len() == cards.len(),
        0 <= upto <= cards.len(),
    ensures
        cleanup_ids(cards, claimed, source_id, upto).len() + preserved_count(cards, claimed, source_id, upto)
            == owned_count(cards, source_id, upto),
        forall|k: int| 0 <= k < cleanup_ids(cards, claimed, source_id, upto).len() ==> exists|i: int|
            0 <= i < upto && cards[i].id@ == #[trigger] cleanup_ids(cards, claimed, source_id, upto)[k]
                && owned_by(cards[i], source_id) && cards[i].status == TaskCardStatus::Todo && !claimed[i],
    decreases upto,
{
    if upto > 0 {
        lemma_cleanup_accounts_for_every_card(cards, claimed, source_id, upto - 1);
        let prev = cleanup_ids(cards, claimed, source_id, upto - 1);
        let cur = cleanup_ids(cards, claimed, source_id, upto);
        assert forall|k: int| 0 <= k < cur.len() implies exists|i: int|
            0 <= i < upto && cards[i].id@ == #[trigger] cur[k] && owned_by(cards[i], source_id)
                && cards[i].status == TaskCardStatus::Todo && !claimed[i] by {
            if k < prev.len() {
                assert(cur[k] == prev[k]);
                let i = choose|i: int|
                    0 <= i < upto - 1 && cards[i].id@ == #[trigger] prev[k] && owned_by(cards[i], source_id)
                        && cards[i].status == TaskCardStatus::Todo && !claimed[i];
            } else {
                assert(cards[upto - 1].id@ == cur[k]);
            }
        }
    }
}

/// A card's notes end with the task's url whenever it has one, start with
/// the summary whenever it says more than the title, hold both on two lines
/// when both are there, and are absent when neither is.
pub proof fn lemma_notes_carry_summary_and_url(e: EnrichedTask)
    ensures
        match trimmed_opt(e.task.url) {
            Some(u) => card_notes(e) matches Some(n) && n.len() >= u.len() && n.subrange(
                n.len() - u.len(),
                n.len() as int,
            ) == u,
            None => true,
        },
        adds_summary(e) ==> (card_notes(e) matches Some(n) && n.len() >= trim(e.summary@).len() && n.take(
            trim(e.summary@).len() as int,
        ) == trim(e.summary@)),
        (adds_summary(e) && trimmed_opt(e.task.url) is Some) ==> card_notes(e) == Some(
            trim(e.summary@) + "\n"@ + trimmed_opt(e.task.url)->0,
        ),
        (!adds_summary(e) && trimmed_opt(e.task.url) is None) ==> card_notes(e) is None,
{
    let pv = note_parts(e);
    let sep = "\n"@;
    if pv.len() == 2 {
        assert(pv.drop_last() =~= seq![pv[0]]);
        assert(join(pv, sep) == join(pv.drop_last(), sep) + sep + pv[1]);
        assert(join(pv.drop_last(), sep) == pv[0]);
        let j = join(pv, sep);
        assert(j.take(pv[0].len() as int) =~= pv[0]);
        assert(j.subrange(j.len() - pv[1].len(), j.len() as int) =~= pv[1]);
    }
    if pv.len() == 1 {
        assert(join(pv, sep) == pv[0]);
        assert(pv[0].take(pv[0].len() as int) =~= pv[0]);
        assert(pv[0].subrange(0, pv[0].len() as int) =~= pv[0]);
    }
}

/// Looking a key up past members that carry other keys.
proof fn lemma_meta_get_past(
    a: Seq<(Seq<char>, Option<Seq<char>>)>,
    b: Seq<(Seq<char>, Option<Seq<char>>)>,
    key: Seq<char>,
)
    requires
        forall|i: int| 0 <= i < a.len() ==> #[trigger] a[i].0 != key,
    ensures
        meta_get(a + b, key) == meta_get(b, key),
    decreases a.len(),
{
    if a.len() > 0 {
        assert((a + b)[0] == a[0]);
        assert((a + b).drop_first() =~= a.drop_first() + b);
        lemma_meta_get_past(a.drop_first(), b, key);
    } else {
        assert(a + b =~= b);
    }
}

/// A card made for a task from a source is owned by that source, and dedup
/// recognises it as that task whenever the task has a non-blank url, or a
/// non-blank provider and external id: polling the same item again finds its
/// card instead of adding a second one.
pub proof fn lemma_drafted_card_matches(card: TaskBoardCard, source: TaskSource, e: EnrichedTask)
    requires
        card.source_metadata matches Some(m) && meta_view(m) == metadata_fields(source, e),
        (trim(e.task.provider@).len() > 0 && trim(e.task.external_id@).len() > 0) || trimmed_opt(
            e.task.url,
        ) is Some,
    ensures
        owned_by(card, source.id@),
        matches_identity(card, identity_of(e.task)),
{
    let m = match card.source_metadata {
        Some(m) => m,
        None => arbitrary(),
    };
    let f = meta_view(m);
    reveal_strlit("provider");
    reveal_strlit("source_id");
    reveal_strlit("external_id");
    reveal_strlit("urgency");
    reveal_strlit("kind");
    reveal_strlit("url");
    reveal_strlit("repo");
    assert("provider"@.len() == 8 && "source_id"@.len() == 9 && "external_id"@.len() == 11);
    assert("urgency"@.len() == 7 && "kind"@.len() == 4 && "url"@.len() == 3);
    let task = e.task;
    let base = seq![
        ("provider"@, Some(task.provider@)),
        ("source_id"@, Some(source.id@)),
        ("external_id"@, Some(task.external_id@)),
        ("urgency"@, None::<Seq<char>>),
    ];
    let kindp: Seq<(Seq<char>, Option<Seq<char>>)> = if task.kind != TaskKind::Generic {
        seq![("kind"@, Some(kind_name(task.kind)))]
    } else {
        seq![]
    };
    let urlp: Seq<(Seq<char>, Option<Seq<char>>)> = match trimmed_opt(task.url) {
        Some(u) => seq![("url"@, Some(u))],
        None => seq![],
    };
    let repop: Seq<(Seq<char>, Option<Seq<char>>)> = match trimmed_opt(source.github_repo) {
        Some(r) => seq![("repo"@, Some(r))],
        None => seq![],
    };
    assert(f == base + kindp + urlp + repop);
    // provider
    assert(f[0] == base[0]);
    // source id
    assert(f =~= f.take(1) + f.skip(1));
    assert forall|i: int| 0 <= i < f.take(1).len() implies #[trigger] f.take(1)[i].0 != "source_id"@ by {
        assert(f.take(1)[i] == base[i]);
    }
    lemma_meta_get_past(f.take(1), f.skip(1), "source_id"@);
    assert(f.skip(1)[0] == base[1]);
    // external id
    assert(f =~= f.take(2) + f.skip(2));
    assert forall|i: int| 0 <= i < f.take(2).len() implies #[trigger] f.take(2)[i].0 != "external_id"@ by {
        assert(f.take(2)[i] == base[i]);
    }
    lemma_meta_get_past(f.take(2), f.skip(2), "external_id"@);
    assert(f.skip(2)[0] == base[2]);
    lemma_trim_idempotent(task.provider@);
    lemma_trim_idempotent(task.external_id@);
    // url
    match trimmed_opt(task.url) {
        Some(u) => {
            let a = base + kindp;
            assert(f =~= a + (urlp + repop));
            assert forall|i: int| 0 <= i < a.len() implies #[trigger] a[i].0 != "url"@ by {
                if i < 4 {
                    assert(a[i] == base[i]);
                } else {
                    assert(a[i] == kindp[i - 4]);
                }
            }
            lemma_meta_get_past(a, urlp + repop, "url"@);
            assert((urlp + repop)[0] == ("url"@, Some(u)));
            let raw = match task.url {
                Some(x) => x@,
                None => arbitrary(),
            };
            lemma_trim_idempotent(raw);
        },
        None => {},
    }
}

} // verus!
