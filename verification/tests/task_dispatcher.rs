use openhuman_core::task_board::{SourceMetadata, TaskBoardCard, TaskCardStatus};
use openhuman_core::task_dispatcher::{
    build_task_prompt, dispatch_candidates, egress_allow_list, task_agent_name, truncate_chars,
    write_back_patch, EVIDENCE_MAX_CHARS,
};

fn card(objective: Option<&str>) -> TaskBoardCard {
    TaskBoardCard {
        id: "task-1".into(),
        title: "[GitHub] Fix login bug".into(),
        status: TaskCardStatus::Todo,
        objective: objective.map(str::to_string),
        plan: vec![],
        assigned_agent: None,
        acceptance_criteria: vec![],
        source_metadata: None,
        order: 0,
    }
}

fn meta(fields: &[(&str, Option<&str>)]) -> SourceMetadata {
    SourceMetadata {
        fields: fields.iter().map(|(k, v)| (k.to_string(), v.map(str::to_string))).collect(),
    }
}

#[test]
fn prompt_uses_objective_then_falls_back_to_title() {
    let p = build_task_prompt(&card(Some("Fix the login bug")));
    assert!(p.contains("Fix the login bug"));
    assert!(!p.contains("[GitHub]"));

    let p2 = build_task_prompt(&card(None));
    assert!(p2.contains("[GitHub] Fix login bug"));
}

#[test]
fn prompt_includes_plan_and_acceptance_criteria() {
    let mut c = card(Some("Do it"));
    c.plan = vec!["step one".into(), "step two".into()];
    c.acceptance_criteria = vec!["tests pass".into()];
    let p = build_task_prompt(&c);
    assert!(p.contains("Plan:"));
    assert!(p.contains("1. step one"));
    assert!(p.contains("2. step two"));
    assert!(p.contains("Acceptance criteria"));
    assert!(p.contains("- tests pass"));
}

#[test]
fn prompt_points_at_source_and_memory_when_metadata_present() {
    let mut c = card(Some("Resolve issue"));
    c.source_metadata = Some(meta(&[
        ("provider", Some("github")),
        ("repo", Some("octo/repo")),
        ("external_id", Some("123")),
        ("url", Some("https://github.com/octo/repo/issues/123")),
    ]));
    let p = build_task_prompt(&c);
    assert!(p.contains("github octo/repo#123"));
    assert!(p.contains("memory_recall"));
    assert!(p.contains("https://github.com/octo/repo/issues/123"));
}

#[test]
fn prompt_omits_source_block_without_metadata() {
    let p = build_task_prompt(&card(Some("Do it")));
    assert!(!p.contains("memory_recall"));
}

#[test]
fn truncate_caps_long_strings() {
    let s = "x".repeat(5_000);
    let out = truncate_chars(&s, EVIDENCE_MAX_CHARS);
    assert!(out.chars().count() <= EVIDENCE_MAX_CHARS);
    assert!(out.ends_with('…'));
}

#[test]
fn truncate_keeps_short_strings_and_counts_chars() {
    assert_eq!(truncate_chars("héllo", 5), "héllo");
    assert_eq!(truncate_chars("héllo", 4), "hél…");
    assert_eq!(truncate_chars("abc", 0), "…");
}

#[test]
fn prompt_exact_text() {
    let mut c = card(Some("  Ship it  "));
    c.plan = vec![" build ".into()];
    c.source_metadata = Some(meta(&[("provider", Some("linear")), ("urgency", None)]));
    let p = build_task_prompt(&c);
    assert_eq!(
        p,
        "You are autonomously executing one task to completion. Objective:\nShip it\n\
\nPlan:\n1. build\n\
\nThis task originates from linear. Its activity has been ingested into memory — use your memory_recall tool to pull related context (prior discussion, linked items) before and while you work.\n\
\nWork the task to completion. Do not pick up unrelated work. When finished, your final message should summarise what you did and the evidence (commits, PRs, results)."
    );
}

#[test]
fn write_back_marks_done_or_blocked() {
    let done = write_back_patch(&Ok("  merged PR #7  ".to_string()));
    assert_eq!(done.status, Some(TaskCardStatus::Done));
    assert_eq!(done.evidence, Some(vec!["merged PR #7".to_string()]));
    assert_eq!(done.blocker, None);

    let blocked = write_back_patch(&Err("load config: missing".to_string()));
    assert_eq!(blocked.status, Some(TaskCardStatus::Blocked));
    assert_eq!(blocked.evidence, None);
    assert_eq!(blocked.blocker.as_deref(), Some("load config: missing"));
}

fn with_status(status: TaskCardStatus) -> TaskBoardCard {
    let mut c = card(None);
    c.status = status;
    c
}

#[test]
fn poller_considers_todo_cards_only_while_nothing_runs() {
    let cards = vec![
        with_status(TaskCardStatus::Done),
        with_status(TaskCardStatus::Todo),
        with_status(TaskCardStatus::Blocked),
        with_status(TaskCardStatus::Todo),
    ];
    assert_eq!(dispatch_candidates(&cards), vec![1, 3]);
    let mut busy = cards.clone();
    busy.push(with_status(TaskCardStatus::InProgress));
    assert!(dispatch_candidates(&busy).is_empty());
    assert!(dispatch_candidates(&vec![with_status(TaskCardStatus::Done)]).is_empty());
}

#[test]
fn task_run_agent_name_uses_first_eight_bytes_of_run_id() {
    assert_eq!(task_agent_name("0123456789abcdef"), "orchestrator-task-01234567");
    assert_eq!(task_agent_name("short"), "orchestrator-task-short");
    // Eight bytes would split the two-byte `é`: the whole id is used.
    assert_eq!(task_agent_name("abcdefgé-rest"), "orchestrator-task-abcdefgé-rest");
    assert_eq!(task_agent_name("abcdefé-rest"), "orchestrator-task-abcdefé");
}

#[test]
fn egress_defaults_to_every_domain_only_when_unconfigured() {
    assert_eq!(egress_allow_list(vec![]), vec!["*".to_string()]);
    assert_eq!(egress_allow_list(vec!["api.github.com".to_string()]), vec!["api.github.com".to_string()]);
}
