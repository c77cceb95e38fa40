use openhuman_core::archivist::{
    extract_lesson_from_tools, extract_profile_key, profile_facet, record_id, recap_endpoints,
    choose_recap, segment_next, segment_text, strip_tool_calls_from_response, tree_batch,
    turn_plan, turn_records, BoundaryDecision, EpisodicTurn, EventType, FacetType, RecapChoice,
    SegmentAction, SegmentEvent, ToolCallRecord,
};

#[test]
fn extract_profile_key_works() {
    let key = extract_profile_key("I prefer dark mode for coding", "preference");
    assert!(key.starts_with("preference_"));
    assert!(key.contains("prefer"));
}

#[test]
fn profile_key_exact() {
    assert_eq!(extract_profile_key("I prefer Dark-Mode for coding", "preference"), "preference_prefer_darkmode_for_coding");
    assert_eq!(extract_profile_key("a b", "fact"), "fact_unknown");
    assert_eq!(extract_profile_key("", "fact"), "fact_unknown");
}

#[test]
fn strip_leaves_plain_prose_alone() {
    let s = "Just prose.\n\n\n\nMore.";
    assert_eq!(strip_tool_calls_from_response(s), s);
}

#[test]
fn strip_removes_tool_call_blocks_and_collapses_blanks() {
    let s = "Before\n<tool_call>{\"name\":\"x\"}</tool_call>\n\n\n\nAfter   \n<tool_call>unclosed";
    assert_eq!(strip_tool_calls_from_response(s), "Before\n\n\nAfter");
}

#[test]
fn lesson_lists_failed_tools() {
    let calls = vec![
        ToolCallRecord { name: "shell".into(), success: false, output_summary: String::new(), duration_ms: 3000 },
        ToolCallRecord { name: "read".into(), success: true, output_summary: String::new(), duration_ms: 1 },
        ToolCallRecord { name: "grep".into(), success: false, output_summary: String::new(), duration_ms: 1 },
    ];
    assert_eq!(extract_lesson_from_tools(&calls).as_deref(), Some("Tools that failed in this turn: shell, grep"));
    assert_eq!(extract_lesson_from_tools(&calls[1..2].to_vec()), None);
}

#[test]
fn segment_helpers() {
    let entries = vec![
        EpisodicTurn { role: "user".into(), content: "Tell me about Rust".into() },
        EpisodicTurn { role: "assistant".into(), content: "Rust is great.".into() },
        EpisodicTurn { role: "user".into(), content: "I prefer dark mode".into() },
    ];
    assert_eq!(segment_text(&entries), "Tell me about Rust. I prefer dark mode");
    let (first, last) = recap_endpoints(&entries);
    assert_eq!(first, "Tell me about Rust");
    assert_eq!(last, "I prefer dark mode");
    assert_eq!(profile_facet(EventType::Preference).map(|f| f.1), Some("preference"));
    assert_eq!(profile_facet(EventType::Fact).map(|f| f.0), Some(FacetType::Context));
    assert_eq!(profile_facet(EventType::Decision), None);
}

#[test]
fn record_id_is_hex() {
    assert_eq!(record_id(0x1f, 0xab), "1f000000ab");
    assert_eq!(record_id(0, 0xffffffff), "0ffffffff");
}

fn call(name: &str, success: bool) -> ToolCallRecord {
    ToolCallRecord { name: name.into(), success, output_summary: String::new(), duration_ms: 1 }
}

#[test]
fn turn_records_file_user_then_assistant_with_lesson() {
    let r = turn_records(None, "hello", "hi back", &vec![call("shell", false), call("read", true)]);
    assert_eq!(r.session_id, "unknown");
    assert_eq!((r.user.role.as_str(), r.user.content.as_str()), ("user", "hello"));
    assert_eq!((r.assistant.role.as_str(), r.assistant.content.as_str()), ("assistant", "hi back"));
    assert_eq!(r.lesson.as_deref(), Some("Tools that failed in this turn: shell"));
    assert!(r.records_tool_calls);

    let r = turn_records(Some("s-1".into()), "q", "a", &vec![]);
    assert_eq!(r.session_id, "s-1");
    assert_eq!(r.lesson, None);
    assert!(!r.records_tool_calls);
}

#[test]
fn tree_batch_strips_tool_calls_from_assistant_prose() {
    let b = tree_batch("s-9", "what is up", "Sure.\n<tool_call>{\"name\":\"x\"}</tool_call>\nDone.");
    assert_eq!(b.platform, "agent");
    assert_eq!(b.channel_label, "s-9");
    assert_eq!(b.owner, "s-9");
    assert_eq!(b.source_id, "conversations:agent");
    assert_eq!(b.tags, vec!["agent_chat".to_string()]);
    assert_eq!(b.messages.len(), 2);
    assert_eq!(b.messages[0].author, "user");
    assert_eq!(b.messages[0].text, "what is up");
    assert_eq!(b.messages[0].source_ref, "agent://session/s-9");
    assert_eq!(b.messages[1].author, "assistant");
    assert!(!b.messages[1].text.contains("tool_call"));
    assert!(b.messages[1].text.contains("Sure."));
    assert!(b.messages[1].text.contains("Done."));
}

#[test]
fn segment_bookkeeping_steps() {
    match segment_next("s-1", 7, "abc", SegmentEvent::NoOpenSegment) {
        SegmentAction::Create { segment, closed } => {
            assert_eq!(segment.segment_id, "seg-abc");
            assert_eq!(segment.session_id, "s-1");
            assert_eq!(segment.namespace, "global");
            assert_eq!(segment.start_episodic_id, 7);
            assert_eq!(closed, None);
        }
        other => panic!("expected a first segment, got {other:?}"),
    }
    let cont = SegmentEvent::Open { segment_id: "seg-old".into(), verdict: BoundaryDecision::Continue };
    match segment_next("s-1", 7, "abc", cont) {
        SegmentAction::Append { segment_id, episodic_id } => {
            assert_eq!((segment_id.as_str(), episodic_id), ("seg-old", 7));
        }
        other => panic!("expected an append, got {other:?}"),
    }
    let boundary = SegmentEvent::Open { segment_id: "seg-old".into(), verdict: BoundaryDecision::Boundary };
    assert!(matches!(segment_next("s-1", 7, "abc", boundary), SegmentAction::Close { segment_id } if segment_id == "seg-old"));
    match segment_next("s-1", 7, "abc", SegmentEvent::Closed { segment_id: "seg-old".into(), ok: true }) {
        SegmentAction::Create { segment, closed } => {
            assert_eq!(segment.segment_id, "seg-abc");
            assert_eq!(segment.start_episodic_id, 7);
            assert_eq!(closed.as_deref(), Some("seg-old"));
        }
        other => panic!("expected a new segment, got {other:?}"),
    }
    assert!(matches!(
        segment_next("s-1", 7, "abc", SegmentEvent::Closed { segment_id: "seg-old".into(), ok: false }),
        SegmentAction::Finish(None)
    ));
    assert!(matches!(segment_next("s-1", 7, "abc", SegmentEvent::LookupFailed), SegmentAction::Finish(None)));
    assert!(matches!(segment_next("s-1", 7, "abc", SegmentEvent::Appended), SegmentAction::Finish(None)));
    assert!(matches!(
        segment_next("s-1", 7, "abc", SegmentEvent::Created { closed: Some("seg-old".into()) }),
        SegmentAction::Finish(Some(id)) if id == "seg-old"
    ));
}

#[test]
fn recap_prefers_non_empty_model_summary() {
    let entries = vec![
        EpisodicTurn { role: "user".into(), content: "first".into() },
        EpisodicTurn { role: "assistant".into(), content: "last".into() },
    ];
    assert_eq!(choose_recap(Some(Ok("model recap".into())), &entries), RecapChoice::Model("model recap".into()));
    let fallback = RecapChoice::Fallback { first: "first".into(), last: "last".into() };
    assert_eq!(choose_recap(Some(Ok(String::new())), &entries), fallback);
    assert_eq!(choose_recap(Some(Err("down".into())), &entries), fallback);
    assert_eq!(choose_recap(None, &entries), fallback);
}

#[test]
fn turn_is_indexed_and_piped_only_when_enabled() {
    let p = turn_plan(true, true, Some(true));
    assert!(p.index && p.pipe_to_tree);
    let p = turn_plan(true, true, Some(false));
    assert!(p.index && !p.pipe_to_tree);
    let p = turn_plan(true, true, None);
    assert!(p.index && !p.pipe_to_tree);
    let p = turn_plan(false, true, Some(true));
    assert!(!p.index && !p.pipe_to_tree);
    let p = turn_plan(true, false, Some(true));
    assert!(!p.index && !p.pipe_to_tree);
}

#[test]
fn raw_tool_call_json_is_stripped() {
    assert_eq!(strip_tool_calls_from_response("Done.\n{\"tool_calls\":[]}"), "Done.");
    assert_eq!(
        strip_tool_calls_from_response("Before {\"tool_calls\":[{\"name\":\"x\",\"args\":\"{}}\"}]} after"),
        "Before  after"
    );
    // An object that never closes cuts the rest.
    assert_eq!(strip_tool_calls_from_response("Text\n{\"tool_calls\": [ {"), "Text");
}

#[test]
fn markup_joined_by_a_removal_is_removed_too() {
    assert_eq!(strip_tool_calls_from_response("<tool_{\"tool_calls\":1}call>x</tool_call>"), "");
    assert_eq!(
        strip_tool_calls_from_response("a <tool_{\"tool_calls\":1}call>x</tool_call> b"),
        "a  b"
    );
}
