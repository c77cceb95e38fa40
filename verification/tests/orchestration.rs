use openhuman_core::orchestration::ingest::{
    classify_message, ingest_next, ingest_records, is_dm_stream, ChatKind, IngestAction, IngestEvent,
    SessionEnvelope,
};
use openhuman_core::orchestration::tools::{
    is_pinned_window, preview_line, ArgValue, DeferToOrchestratorTool, ListSessionsTool, ParamType,
    ReadSessionTool, ReplyToChannelTool, ToolArgs, PREVIEW_MAX_CHARS,
};

fn args(fields: Vec<(&str, ArgValue)>) -> ToolArgs {
    ToolArgs { fields: fields.into_iter().map(|(k, v)| (k.to_string(), v)).collect() }
}

#[test]
fn dm_stream_filter() {
    assert!(is_dm_stream("conversation", "conversation:abc"));
    assert!(is_dm_stream("DM", "x"));
    assert!(is_dm_stream("other", "conversation:abc"));
    assert!(!is_dm_stream("inbox", "inbox"));
}

#[test]
fn reply_tool_echoes_text_and_rejects_empty() {
    let t = ReplyToChannelTool;
    assert_eq!(t.name(), "reply_to_channel");
    let ok = t.execute(&args(vec![("text", ArgValue::Str("all done".into()))]));
    assert!(ok.output.contains("all done"));
    let bad = t.execute(&args(vec![("text", ArgValue::Str("  ".into()))]));
    assert!(bad.is_error);
}

#[test]
fn defer_tool_echoes_instructions_and_rejects_missing() {
    let t = DeferToOrchestratorTool;
    assert_eq!(t.name(), "defer_to_orchestrator");
    let ok = t.execute(&args(vec![("instructions", ArgValue::Str("research X then summarize".into()))]));
    assert!(ok.output.contains("research X"));
    let bad = t.execute(&args(vec![]));
    assert!(bad.is_error);
    assert_eq!(bad.output, "`instructions` is required");
}

#[test]
fn read_session_tool_rejects_missing_id_and_pinned_window() {
    let tool = ReadSessionTool::new("/tmp/ws".into());
    assert!(tool.read_request(&args(vec![])).unwrap_err().is_error);
    let pinned = tool.read_request(&args(vec![("sessionId", ArgValue::Str("master".into()))]));
    assert!(pinned.unwrap_err().is_error);
}

#[test]
fn read_request_limits_and_cursor() {
    let tool = ReadSessionTool::new("/tmp/ws".into());
    let q = tool.read_request(&args(vec![("sessionId", ArgValue::Str("s-1".into()))])).unwrap();
    assert_eq!(q.session_id, "s-1");
    assert_eq!(q.limit, 50);
    assert_eq!(q.before, None);
    let q = tool
        .read_request(&args(vec![
            ("sessionId", ArgValue::Str("s-1".into())),
            ("limit", ArgValue::UInt(1000)),
            ("before", ArgValue::Str("2026-07-02T00:02:00Z".into())),
        ]))
        .unwrap();
    assert_eq!(q.limit, 200);
    assert_eq!(q.before.as_deref(), Some("2026-07-02T00:02:00Z"));
}

#[test]
fn list_sessions_hides_pinned_and_caps() {
    let tool = ListSessionsTool::new("/tmp/ws".into());
    assert_eq!(tool.list_limit(&args(vec![])), 100);
    assert_eq!(tool.list_limit(&args(vec![("limit", ArgValue::UInt(3))])), 3);
    let ids: Vec<String> = ["s-1", "master", "s-2", "subconscious", "s-3"].iter().map(|s| s.to_string()).collect();
    assert_eq!(tool.select_sessions(&ids, 100), vec![0, 2, 4]);
    assert_eq!(tool.select_sessions(&ids, 2), vec![0, 2]);
    assert!(is_pinned_window("master"));
    assert!(!is_pinned_window("s-1"));
}

#[test]
fn preview_is_one_line_and_capped() {
    assert_eq!(preview_line("  how do I\nship it?  "), "how do I ship it?");
    let long = "y".repeat(300);
    let p = preview_line(&long);
    assert_eq!(p.chars().count(), 120);
    assert!(p.ends_with('…'));
}

#[test]
fn classify_routes_envelopes_and_plaintext() {
    let env = SessionEnvelope {
        scope_type: "folder".into(),
        scope_key: "proj".into(),
        cwd: "".into(),
        harness_session_id: "h-1".into(),
        role: "agent".into(),
        provider: "cursor".into(),
        line: 4,
        text: "hello".into(),
        timestamp: "".into(),
    };
    let m = classify_message(Some(env), "ignored".into(), "T0".into());
    assert_eq!(m.chat_kind, ChatKind::Session);
    assert_eq!(m.session_id, "h-1");
    assert_eq!(m.label.as_deref(), Some("proj"));
    assert_eq!(m.workspace, None);
    assert_eq!(m.timestamp, "T0");
    let m = classify_message(None, "hi there".into(), "T1".into());
    assert_eq!(m.chat_kind, ChatKind::Master);
    assert_eq!(m.session_id, "master");
    assert_eq!(m.role, "user");
    assert_eq!(m.body, "hi there");
}

fn envelope() -> SessionEnvelope {
    SessionEnvelope {
        scope_type: "folder".into(),
        scope_key: "proj".into(),
        cwd: "/work/proj".into(),
        harness_session_id: "h-7".into(),
        role: "assistant".into(),
        provider: "cursor".into(),
        line: 12,
        text: "done".into(),
        timestamp: "".into(),
    }
}

#[test]
fn ingest_dedupes_before_decrypting_and_acks_only_landed() {
    assert!(matches!(
        ingest_next("m1", "peer", "T0", "NOW", IngestEvent::Looked { already: true }),
        IngestAction::Skip
    ));
    assert!(matches!(
        ingest_next("m1", "peer", "T0", "NOW", IngestEvent::Looked { already: false }),
        IngestAction::Decrypt
    ));
    let m = classify_message(None, "hi".into(), "T0".into());
    let (_, message) = ingest_records("m1", "peer", "NOW", &m);
    match ingest_next("m1", "peer", "T0", "NOW", IngestEvent::Persisted { landed: true, message: message.clone() }) {
        IngestAction::AcknowledgeAndPublish { message_id, agent_id, session_id, chat_kind } => {
            assert_eq!(message_id, "m1");
            assert_eq!(agent_id, "peer");
            assert_eq!(session_id, "master");
            assert_eq!(chat_kind, ChatKind::Master);
        }
        other => panic!("expected acknowledge and publish, got {other:?}"),
    }
    assert!(matches!(
        ingest_next("m1", "peer", "T0", "NOW", IngestEvent::Persisted { landed: false, message }),
        IngestAction::Finish
    ));
}

#[test]
fn ingest_persists_session_and_message_rows() {
    let event = IngestEvent::Decrypted { envelope: Some(envelope()), plaintext: "ignored".into() };
    match ingest_next("m1", "peer", "T0", "NOW", event) {
        IngestAction::Persist(session, message) => {
            assert_eq!(session.session_id, "h-7");
            assert_eq!(session.agent_id, "peer");
            assert_eq!(session.source, "cursor");
            assert_eq!(session.label.as_deref(), Some("proj"));
            assert_eq!(session.workspace.as_deref(), Some("/work/proj"));
            assert_eq!(session.last_seq, 12);
            assert_eq!(session.created_at, "NOW");
            assert_eq!(session.last_message_at, "T0");
            assert_eq!(message.id, "m1");
            assert_eq!(message.session_id, "h-7");
            assert_eq!(message.chat_kind, ChatKind::Session);
            assert_eq!(message.role, "assistant");
            assert_eq!(message.body, "done");
            assert_eq!(message.timestamp, "T0");
            assert_eq!(message.seq, 12);
        }
        other => panic!("expected rows to persist, got {other:?}"),
    }
    let m = classify_message(None, "hi there".into(), "T1".into());
    let (session, message) = ingest_records("m2", "peer", "NOW", &m);
    assert_eq!(session.session_id, "master");
    assert_eq!(message.chat_kind, ChatKind::Master);
    assert_eq!(message.role, "user");
    assert_eq!(message.body, "hi there");
    assert_eq!(session.label, None);
    assert_eq!(session.last_seq, 0);
}

#[test]
fn tool_parameter_schemas() {
    let r = ReplyToChannelTool.parameters_schema();
    assert_eq!(r.properties.len(), 1);
    assert_eq!(r.properties[0].name, "text");
    assert_eq!(r.properties[0].ty, ParamType::String);
    assert_eq!(r.required, vec!["text"]);
    assert_eq!(r.additional_properties, None);

    let d = DeferToOrchestratorTool.parameters_schema();
    assert_eq!(d.required, vec!["instructions"]);

    let l = ListSessionsTool::new("/ws".into()).parameters_schema();
    assert_eq!(l.properties[0].name, "limit");
    assert_eq!(l.properties[0].ty, ParamType::Integer);
    assert_eq!((l.properties[0].minimum, l.properties[0].maximum), (Some(1), Some(100)));
    assert!(l.required.is_empty());
    assert_eq!(l.additional_properties, Some(false));

    let rs = ReadSessionTool::new("/ws".into()).parameters_schema();
    let names: Vec<&str> = rs.properties.iter().map(|p| p.name).collect();
    assert_eq!(names, ["sessionId", "limit", "before"]);
    assert_eq!(rs.properties[1].maximum, Some(200));
    assert_eq!(rs.required, vec!["sessionId"]);
    assert!(ReadSessionTool::new("/ws".into()).description().contains("orchestration_list_sessions"));
}

#[test]
fn preview_is_one_short_line() {
    let body = format!("  first\nsecond {}  ", "z".repeat(300));
    let p = preview_line(&body);
    assert!(p.chars().count() <= PREVIEW_MAX_CHARS);
    assert!(!p.contains('\n'));
    assert!(p.starts_with("first second"));
}
