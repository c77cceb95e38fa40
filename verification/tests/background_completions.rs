use openhuman_core::background_completions::{
    build_batched_notice, has_pending, pending_count, record_completion, take_pending,
    CompletedBackgroundAgent, CompletionQueue,
};

fn c(task: &str, agent: &str, summary: &str) -> CompletedBackgroundAgent {
    CompletedBackgroundAgent {
        task_id: task.into(),
        agent_id: agent.into(),
        summary: summary.into(),
    }
}

#[test]
fn record_and_drain_is_session_scoped_and_batches() {
    let mut q = CompletionQueue::new();
    let s = "sess-batch-A";
    record_completion(&mut q, s, "sub-1", "researcher", "eiffel summary");
    record_completion(&mut q, s, "sub-2", "researcher", "liberty summary");
    record_completion(&mut q, "sess-other", "sub-9", "researcher", "unrelated");

    assert_eq!(pending_count(&q, s), 2);
    assert!(has_pending(&q, s));

    let drained = take_pending(&mut q, s);
    assert_eq!(drained.iter().map(|c| c.task_id.as_str()).collect::<Vec<_>>(), ["sub-1", "sub-2"]);
    assert!(!has_pending(&q, s));
    assert_eq!(take_pending(&mut q, s), vec![]);
    assert_eq!(pending_count(&q, "sess-other"), 1);
    take_pending(&mut q, "sess-other");
}

#[test]
fn record_is_idempotent_on_task_id() {
    let mut q = CompletionQueue::new();
    let s = "sess-dupe";
    record_completion(&mut q, s, "sub-1", "researcher", "first");
    record_completion(&mut q, s, "sub-1", "researcher", "second");
    assert_eq!(pending_count(&q, s), 1);
    let drained = take_pending(&mut q, s);
    assert_eq!(drained, vec![c("sub-1", "researcher", "first")]);
}

#[test]
fn batched_notice_tags_each_with_process_id() {
    let notice = build_batched_notice(&[
        c("sub-abc", "researcher", "Eiffel Tower: built 1889 …"),
        c("sub-def", "researcher", "Colosseum: AD 70–80 …"),
    ])
    .expect("non-empty batch");

    assert!(notice.contains("2 background sub-agents finished"));
    assert!(notice.contains("<background_agent_result id=\"sub-abc\" agent=\"researcher\">"));
    assert!(notice.contains("Eiffel Tower: built 1889"));
    assert!(notice.contains("<background_agent_result id=\"sub-def\" agent=\"researcher\">"));
    assert!(notice.contains("Colosseum: AD 70–80"));
    assert!(notice.contains("</background_agent_result>"));
}

#[test]
fn singular_wording_and_empty_summary_fallback() {
    let notice = build_batched_notice(&[c("sub-x", "researcher", "   ")]).unwrap();
    assert!(notice.contains("1 background sub-agent finished"));
    assert!(notice.contains("(no output reported)"));
}

#[test]
fn empty_batch_is_none() {
    assert_eq!(build_batched_notice(&[]), None);
}

#[test]
fn notice_exact_text() {
    let notice = build_batched_notice(&[c("sub-1", "coder", "  done  \n")]).unwrap();
    assert_eq!(
        notice,
        "[1 background sub-agent finished while you were busy. Review each result below and present what is relevant to the user. Each is tagged with its sub-agent process id.]\n\
\n<background_agent_result id=\"sub-1\" agent=\"coder\">\ndone\n</background_agent_result>\n"
    );
}

#[test]
fn sessions_are_independent_and_drain_once() {
    let mut q = CompletionQueue::new();
    record_completion(&mut q, "a", "t1", "x", "one");
    record_completion(&mut q, "b", "t1", "x", "other session, same task id");
    record_completion(&mut q, "a", "t2", "x", "two");
    assert_eq!(pending_count(&q, "a"), 2);
    assert_eq!(pending_count(&q, "b"), 1);
    assert_eq!(pending_count(&q, "c"), 0);
    let a = take_pending(&mut q, "a");
    assert_eq!(a, vec![c("t1", "x", "one"), c("t2", "x", "two")]);
    assert!(take_pending(&mut q, "a").is_empty());
    assert!(has_pending(&q, "b"));
}
