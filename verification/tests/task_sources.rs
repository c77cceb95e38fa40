use openhuman_core::task_board::{SourceMetadata, TaskBoardCard, TaskCardStatus};
use openhuman_core::task_sources::dedup::{card_matches_identity, is_replaceable_status, task_identity};
use openhuman_core::task_sources::route::{
    build_source_metadata, card_draft, decide_dedup, provider_label, remove_source_cards,
    cleanup_counts, route_outcome, run_claims_card, Decision, EnrichedTask, RouteOutcome, SourceTarget, TaskSource,
};
use openhuman_core::task_sources::{NormalizedTask, TaskKind};

fn task(provider: &str, external_id: &str, url: Option<&str>) -> NormalizedTask {
    NormalizedTask {
        external_id: external_id.into(),
        provider: provider.into(),
        title: String::new(),
        url: url.map(str::to_string),
        kind: TaskKind::Generic,
    }
}

fn meta(fields: &[(&str, &str)]) -> SourceMetadata {
    SourceMetadata {
        fields: fields.iter().map(|(k, v)| (k.to_string(), Some(v.to_string()))).collect(),
    }
}

fn card(status: TaskCardStatus, meta: Option<SourceMetadata>) -> TaskBoardCard {
    TaskBoardCard {
        id: "task-x".into(),
        title: "t".into(),
        status,
        objective: None,
        plan: vec![],
        assigned_agent: None,
        acceptance_criteria: vec![],
        source_metadata: meta,
        order: 0,
    }
}

#[test]
fn identity_trims_and_drops_blank_url() {
    let id = task_identity(&task(" github ", " 42 ", Some("   ")));
    assert_eq!(id.provider, "github");
    assert_eq!(id.external_id, "42");
    assert_eq!(id.url, None);
}

#[test]
fn matches_on_provider_and_external_id() {
    let id = task_identity(&task("github", "42", None));
    let c = card(TaskCardStatus::Todo, Some(meta(&[("provider", "github"), ("external_id", "42")])));
    assert!(card_matches_identity(&c, &id));
}

#[test]
fn different_external_id_does_not_match() {
    let id = task_identity(&task("github", "42", None));
    let c = card(TaskCardStatus::Todo, Some(meta(&[("provider", "github"), ("external_id", "99")])));
    assert!(!card_matches_identity(&c, &id));
}

#[test]
fn matches_cross_provider_on_identical_url() {
    let id = task_identity(&task("linear", "LIN-7", Some("https://x/issues/42")));
    let c = card(
        TaskCardStatus::Todo,
        Some(meta(&[("provider", "github"), ("external_id", "42"), ("url", "https://x/issues/42")])),
    );
    assert!(card_matches_identity(&c, &id));
}

#[test]
fn empty_external_id_without_url_never_matches() {
    let id = task_identity(&task("github", "  ", None));
    let c = card(TaskCardStatus::Todo, Some(meta(&[("provider", "github"), ("external_id", "")])));
    assert!(!card_matches_identity(&c, &id));
}

#[test]
fn card_without_metadata_never_matches() {
    let id = task_identity(&task("github", "42", None));
    let c = card(TaskCardStatus::Todo, None);
    assert!(!card_matches_identity(&c, &id));
}

#[test]
fn only_todo_is_replaceable() {
    assert!(is_replaceable_status(&TaskCardStatus::Todo));
    for s in [
        TaskCardStatus::Ready,
        TaskCardStatus::InProgress,
        TaskCardStatus::AwaitingApproval,
        TaskCardStatus::Blocked,
        TaskCardStatus::Done,
        TaskCardStatus::Rejected,
    ] {
        assert!(!is_replaceable_status(&s), "{s:?} must not be replaceable");
    }
}

#[test]
fn provider_label_titlecases_known_and_unknown() {
    assert_eq!(provider_label("github"), "GitHub");
    assert_eq!(provider_label("clickup"), "ClickUp");
    assert_eq!(provider_label("asana"), "Asana");
    assert_eq!(provider_label(""), "");
}

fn source(id: &str, repo: Option<&str>) -> TaskSource {
    TaskSource {
        id: id.into(),
        github_repo: repo.map(str::to_string),
        assigned_executor: None,
        target: SourceTarget::TodoOnly,
    }
}

fn enriched(external_id: &str, url: Option<&str>) -> EnrichedTask {
    EnrichedTask {
        task: NormalizedTask {
            external_id: external_id.into(),
            provider: "github".into(),
            title: "Fix the bug".into(),
            url: url.map(str::to_string),
            kind: TaskKind::Generic,
        },
        summary: "Fix the bug".into(),
        objective: Some("Fix the bug".into()),
    }
}

fn owned(id: &str, source_id: &str, external_id: &str, status: TaskCardStatus) -> TaskBoardCard {
    let mut c = card(status, Some(meta(&[("provider", "github"), ("source_id", source_id), ("external_id", external_id)])));
    c.id = id.into();
    c
}

#[test]
fn draft_stamps_title_objective_executor_and_metadata() {
    let mut src = source("ts-1", Some("octo/repo"));
    src.assigned_executor = Some("  agent-x  ".into());
    let e = enriched("123", Some("https://github.com/octo/repo/issues/123"));
    let d = card_draft(&src, &e);
    assert_eq!(d.content, "[GitHub] Fix the bug");
    assert_eq!(d.objective.as_deref(), Some("Fix the bug"));
    assert_eq!(d.assigned_agent.as_deref(), Some("agent-x"));
    assert_eq!(d.notes.as_deref(), Some("https://github.com/octo/repo/issues/123"));
    let keys: Vec<&str> = d.source_metadata.fields.iter().map(|f| f.0.as_str()).collect();
    assert_eq!(keys, ["provider", "source_id", "external_id", "urgency", "url", "repo"]);
    assert!(!keys.contains(&"kind"));
}

#[test]
fn draft_drops_whitespace_only_executor_and_stamps_kind() {
    let mut src = source("ts-1", None);
    src.assigned_executor = Some("   ".into());
    let mut e = enriched("55", None);
    e.task.kind = TaskKind::PullRequest;
    e.summary = "A longer summary".into();
    let d = card_draft(&src, &e);
    assert_eq!(d.assigned_agent, None);
    assert_eq!(d.notes.as_deref(), Some("A longer summary"));
    let m = build_source_metadata(&src, &e);
    assert!(m.fields.iter().any(|f| f.0 == "kind" && f.1.as_deref() == Some("pull_request")));
    assert!(!m.fields.iter().any(|f| f.0 == "repo"));
}

#[test]
fn dedup_replaces_untouched_todo_and_keeps_inflight() {
    let id = task_identity(&task("github", "9", None));
    let cards = vec![owned("c1", "source-a", "9", TaskCardStatus::Todo), owned("c2", "source-b", "9", TaskCardStatus::Todo)];
    let plan = decide_dedup(&cards, &vec![false, false], "source-a", &id);
    assert_eq!(plan.remove, vec!["c1".to_string()]);
    assert_eq!(plan.existing, None);

    let cards = vec![
        owned("c1", "source-a", "9", TaskCardStatus::Todo),
        owned("c2", "source-a", "9", TaskCardStatus::InProgress),
        owned("c3", "source-a", "9", TaskCardStatus::Todo),
    ];
    let plan = decide_dedup(&cards, &vec![false, false, true], "source-a", &id);
    assert_eq!(plan.remove, vec!["c1".to_string()]);
    assert_eq!(plan.existing.as_deref(), Some("c2"));
}

#[test]
fn cleanup_removes_todo_and_preserves_progressed() {
    let cards = vec![
        owned("c1", "source-a", "20", TaskCardStatus::Todo),
        owned("c2", "source-a", "21", TaskCardStatus::InProgress),
        owned("c3", "source-b", "22", TaskCardStatus::Todo),
        owned("c4", "source-a", "23", TaskCardStatus::Todo),
    ];
    let plan = remove_source_cards(&cards, &vec![false, false, false, true], "source-a");
    assert_eq!(plan.remove, vec!["c1".to_string()]);
    assert_eq!(plan.preserved, 2);
}

#[test]
fn failed_run_lookup_counts_as_claim() {
    assert!(run_claims_card(&Err("db".to_string())));
    assert!(!run_claims_card(&Ok(vec![false, false])));
    assert!(run_claims_card(&Ok(vec![false, true])));
}

/// A task-sources board held in memory: the cards, and for each whether a
/// run claims it.
struct Board {
    cards: Vec<TaskBoardCard>,
    claimed: Vec<bool>,
    next: u32,
}

impl Board {
    fn new() -> Self {
        Board { cards: vec![], claimed: vec![], next: 0 }
    }

    fn create_card(&mut self, src: &TaskSource, e: &EnrichedTask) -> String {
        let d = card_draft(src, e);
        self.next += 1;
        let id = format!("card-{}", self.next);
        self.cards.push(TaskBoardCard {
            id: id.clone(),
            title: d.content,
            status: TaskCardStatus::Todo,
            objective: d.objective,
            plan: vec![],
            assigned_agent: d.assigned_agent,
            acceptance_criteria: vec![],
            source_metadata: Some(d.source_metadata),
            order: self.next,
        });
        self.claimed.push(false);
        id
    }

    fn remove(&mut self, id: &str) -> bool {
        match self.cards.iter().position(|c| c.id == id) {
            Some(i) => {
                self.cards.remove(i);
                self.claimed.remove(i);
                true
            }
            None => false,
        }
    }

    fn decide_and_add(&mut self, src: &TaskSource, e: &EnrichedTask) -> Decision {
        let identity = task_identity(&e.task);
        let plan = decide_dedup(&self.cards, &self.claimed, &src.id, &identity);
        for id in &plan.remove {
            self.remove(id);
        }
        match plan.existing {
            Some(existing) => Decision::Deduped(existing),
            None => Decision::Created(self.create_card(src, e)),
        }
    }

    fn remove_source_cards(&mut self, source_id: &str) -> (usize, usize) {
        let plan = remove_source_cards(&self.cards, &self.claimed, source_id);
        let ok: Vec<bool> = plan.remove.iter().map(|id| self.remove(id)).collect();
        cleanup_counts(&plan, &ok)
    }

    fn set_status(&mut self, id: &str, status: TaskCardStatus) {
        for c in &mut self.cards {
            if c.id == id {
                c.status = status;
            }
        }
    }

    fn claim(&mut self, id: &str) {
        for (i, c) in self.cards.iter().enumerate() {
            if c.id == id {
                self.claimed[i] = true;
            }
        }
    }
}

fn github_source(repo: Option<&str>) -> TaskSource {
    TaskSource {
        id: "ts-1".into(),
        github_repo: repo.map(str::to_string),
        assigned_executor: None,
        target: SourceTarget::AgentTodoProactive,
    }
}

fn source_with_id(id: &str) -> TaskSource {
    let mut src = github_source(Some("octo/repo"));
    src.id = id.into();
    src.target = SourceTarget::TodoOnly;
    src
}

fn meta_value(m: &SourceMetadata, key: &str) -> Option<String> {
    m.fields.iter().find(|f| f.0 == key).and_then(|f| f.1.clone())
}

fn has_key(m: &SourceMetadata, key: &str) -> bool {
    m.fields.iter().any(|f| f.0 == key)
}

#[test]
fn add_card_stamps_objective_assigned_agent_and_metadata() {
    let mut board = Board::new();
    let mut src = github_source(Some("octo/repo"));
    src.assigned_executor = Some("  agent-x  ".into());
    let e = enriched("123", Some("https://github.com/octo/repo/issues/123"));
    board.create_card(&src, &e);
    assert_eq!(board.cards.len(), 1);
    let card = &board.cards[0];
    assert_eq!(card.title, "[GitHub] Fix the bug");
    assert_eq!(card.objective.as_deref(), Some("Fix the bug"));
    assert_eq!(card.assigned_agent.as_deref(), Some("agent-x"));
    let meta = card.source_metadata.as_ref().expect("source_metadata present");
    assert_eq!(meta_value(meta, "external_id").as_deref(), Some("123"));
    assert_eq!(meta_value(meta, "repo").as_deref(), Some("octo/repo"));
    assert!(!has_key(meta, "kind"));
}

#[test]
fn pull_request_card_carries_review_objective_and_kind_metadata() {
    let mut board = Board::new();
    let src = github_source(Some("octo/repo"));
    let e = EnrichedTask {
        task: NormalizedTask {
            external_id: "55".into(),
            provider: "github".into(),
            title: "Add retry".into(),
            url: None,
            kind: TaskKind::PullRequest,
        },
        summary: "Add retry".into(),
        objective: Some("Review pull request: Add retry".into()),
    };
    board.create_card(&src, &e);
    let card = &board.cards[0];
    assert_eq!(card.objective.as_deref(), Some("Review pull request: Add retry"));
    let meta = card.source_metadata.as_ref().expect("source_metadata present");
    assert_eq!(meta_value(meta, "kind").as_deref(), Some("pull_request"));
}

#[test]
fn add_card_drops_whitespace_only_assigned_executor() {
    let mut board = Board::new();
    let mut src = github_source(None);
    src.assigned_executor = Some("   ".into());
    board.create_card(&src, &enriched("9", None));
    assert_eq!(board.cards.len(), 1);
    assert!(board.cards[0].assigned_agent.is_none());
}

#[test]
fn source_metadata_has_no_repo_for_non_github_provider() {
    // A non-GitHub source has no repository concept.
    let src = github_source(None);
    let mut e = enriched("LIN-5", None);
    e.task.provider = "linear".into();
    let meta = build_source_metadata(&src, &e);
    assert!(!has_key(&meta, "repo"));
    assert_eq!(meta_value(&meta, "source_id").as_deref(), Some("ts-1"));
}

#[test]
fn same_source_unchanged_reingest_skips() {
    let mut board = Board::new();
    let src = source_with_id("source-a");
    let e = enriched("42", Some("https://github.com/octo/repo/issues/42"));
    let card1 = match board.decide_and_add(&src, &e) {
        Decision::Created(id) => id,
        Decision::Deduped(_) => panic!("first ingest should create"),
    };
    board.set_status(&card1, TaskCardStatus::AwaitingApproval);
    match board.decide_and_add(&src, &e) {
        Decision::Deduped(existing) => assert_eq!(existing, card1),
        Decision::Created(_) => panic!("source must not re-extract an item it already has"),
    }
    assert_eq!(board.cards.len(), 1, "exactly one card");
}

#[test]
fn different_sources_keep_independent_cards() {
    let mut board = Board::new();
    let src_a = source_with_id("source-a");
    let src_b = source_with_id("source-b");
    let e = enriched("7", Some("https://github.com/octo/repo/issues/7"));
    assert!(matches!(board.decide_and_add(&src_a, &e), Decision::Created(_)));
    assert!(matches!(board.decide_and_add(&src_b, &e), Decision::Created(_)));
    assert_eq!(board.cards.len(), 2, "each source keeps its own card");
}

#[test]
fn same_source_replaces_untouched_todo_card() {
    let mut board = Board::new();
    let src = source_with_id("source-a");
    let e = enriched("9", Some("https://github.com/octo/repo/issues/9"));
    let card1 = match board.decide_and_add(&src, &e) {
        Decision::Created(id) => id,
        Decision::Deduped(_) => panic!("first add creates"),
    };
    let card2 = match board.decide_and_add(&src, &e) {
        Decision::Created(id) => id,
        Decision::Deduped(_) => panic!("untouched todo should be replaced"),
    };
    assert_ne!(card1, card2, "a fresh card replaced the old one");
    assert_eq!(board.cards.len(), 1, "no accumulation");
}

#[test]
fn same_source_sweeps_leaked_todo_duplicates() {
    let mut board = Board::new();
    let src = source_with_id("source-a");
    let e = enriched("8", Some("https://github.com/octo/repo/issues/8"));
    for _ in 0..3 {
        board.create_card(&src, &e);
    }
    assert_eq!(board.cards.len(), 3);
    assert!(matches!(board.decide_and_add(&src, &e), Decision::Created(_)));
    assert_eq!(board.cards.len(), 1, "leaked Todo duplicates collapse to one");
}

#[test]
fn inflight_card_is_not_replaced_on_reingest() {
    let mut board = Board::new();
    let src = source_with_id("source-a");
    let e = enriched("11", Some("https://github.com/octo/repo/issues/11"));
    let card1 = match board.decide_and_add(&src, &e) {
        Decision::Created(id) => id,
        Decision::Deduped(_) => panic!("first add creates"),
    };
    board.set_status(&card1, TaskCardStatus::InProgress);
    match board.decide_and_add(&src, &e) {
        Decision::Deduped(existing) => assert_eq!(existing, card1),
        Decision::Created(_) => panic!("must not replace an in-flight card"),
    }
    assert_eq!(board.cards.len(), 1);
    assert_eq!(board.cards[0].status, TaskCardStatus::InProgress, "left untouched");
}

#[test]
fn rejected_card_does_not_resurface() {
    let mut board = Board::new();
    let src = source_with_id("source-a");
    let e = enriched("12", Some("https://github.com/octo/repo/issues/12"));
    let card1 = match board.decide_and_add(&src, &e) {
        Decision::Created(id) => id,
        Decision::Deduped(_) => unreachable!(),
    };
    board.set_status(&card1, TaskCardStatus::Rejected);
    assert!(matches!(board.decide_and_add(&src, &e), Decision::Deduped(_)), "rejected stays suppressed");
    assert_eq!(board.cards.len(), 1);
    assert_eq!(board.cards[0].status, TaskCardStatus::Rejected);
}

#[test]
fn active_run_blocks_replacement() {
    let mut board = Board::new();
    let src = source_with_id("source-a");
    let e = enriched("15", Some("https://github.com/octo/repo/issues/15"));
    let card1 = match board.decide_and_add(&src, &e) {
        Decision::Created(id) => id,
        Decision::Deduped(_) => unreachable!(),
    };
    // Still Todo, but a run claims it.
    board.claim(&card1);
    match board.decide_and_add(&src, &e) {
        Decision::Deduped(existing) => assert_eq!(existing, card1),
        Decision::Created(_) => panic!("claimed card must not be replaced"),
    }
    assert_eq!(board.cards.len(), 1);
}

#[test]
fn remove_source_cards_drops_todo_preserves_progressed() {
    let mut board = Board::new();
    let src = source_with_id("source-a");
    let todo = enriched("20", Some("https://github.com/octo/repo/issues/20"));
    let busy = enriched("21", Some("https://github.com/octo/repo/issues/21"));
    board.decide_and_add(&src, &todo);
    let busy_id = match board.decide_and_add(&src, &busy) {
        Decision::Created(id) => id,
        Decision::Deduped(_) => unreachable!(),
    };
    board.set_status(&busy_id, TaskCardStatus::InProgress);
    let (removed, preserved) = board.remove_source_cards("source-a");
    assert_eq!(removed, 1, "the untouched Todo card is removed");
    assert_eq!(preserved, 1, "the in-flight card is preserved");
    assert_eq!(board.cards.len(), 1);
    assert_eq!(board.cards[0].id, busy_id);
}

#[test]
fn remove_source_cards_ignores_other_sources() {
    let mut board = Board::new();
    let a = source_with_id("source-a");
    let b = source_with_id("source-b");
    board.decide_and_add(&a, &enriched("30", None));
    board.decide_and_add(&b, &enriched("31", None));
    let (removed, _) = board.remove_source_cards("source-a");
    assert_eq!(removed, 1);
    assert_eq!(board.cards.len(), 1);
    assert_eq!(
        meta_value(board.cards[0].source_metadata.as_ref().unwrap(), "source_id").as_deref(),
        Some("source-b")
    );
}

#[test]
fn drafted_card_is_recognised_by_its_identity() {
    let mut board = Board::new();
    let src = source_with_id("source-a");
    let e = enriched("77", None);
    board.create_card(&src, &e);
    assert!(card_matches_identity(&board.cards[0], &task_identity(&e.task)));
    let mut by_url = enriched("", Some(" https://x/1 "));
    by_url.task.provider = "notion".into();
    board.create_card(&src, &by_url);
    assert!(card_matches_identity(&board.cards[1], &task_identity(&by_url.task)));
}

#[test]
fn routing_outcome_dispatches_triage_only_for_fresh_proactive_cards() {
    assert_eq!(
        route_outcome(Decision::Created("c1".into()), SourceTarget::AgentTodoProactive),
        (RouteOutcome::Routed("c1".into()), true)
    );
    assert_eq!(
        route_outcome(Decision::Created("c1".into()), SourceTarget::TodoOnly),
        (RouteOutcome::Routed("c1".into()), false)
    );
    assert_eq!(
        route_outcome(Decision::Deduped("c0".into()), SourceTarget::AgentTodoProactive),
        (RouteOutcome::Deduped { existing_card_id: "c0".into() }, false)
    );
}

#[test]
fn source_metadata_carries_github_repo_and_identifiers() {
    let src = github_source(Some("octo/repo"));
    let e = enriched("123", Some("https://github.com/octo/repo/issues/123"));
    let meta = build_source_metadata(&src, &e);
    assert_eq!(meta_value(&meta, "provider").as_deref(), Some("github"));
    assert_eq!(meta_value(&meta, "source_id").as_deref(), Some("ts-1"));
    assert_eq!(meta_value(&meta, "external_id").as_deref(), Some("123"));
    assert_eq!(meta_value(&meta, "repo").as_deref(), Some("octo/repo"));
    assert_eq!(
        meta_value(&meta, "url").as_deref(),
        Some("https://github.com/octo/repo/issues/123")
    );
}

#[test]
fn source_metadata_omits_absent_repo_and_url() {
    let src = github_source(None);
    let e = enriched("9", None);
    let meta = build_source_metadata(&src, &e);
    assert!(!has_key(&meta, "repo"));
    assert!(!has_key(&meta, "url"));
    assert_eq!(meta_value(&meta, "external_id").as_deref(), Some("9"));
}
