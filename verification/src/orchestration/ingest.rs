//! DM ingest: which streams carry DM envelopes, how a decrypted message is
//! classified into a session window, and the ingest protocol: dedupe before
//! decrypting, decrypt once, persist, and acknowledge only what landed.

use vstd::prelude::*;
use crate::text::{ascii_lower, ascii_lower_char, chars_eq, chars_eq_str, chars_of};

verus! {

/// `s` in ASCII lowercase.
pub open spec fn lower_ascii(s: Seq<char>) -> Seq<char> {
    s.map_values(|c: char| ascii_lower(c))
}

/// `a.eq_ignore_ascii_case(b)`.
pub open spec fn eq_ignore_ascii_case(a: Seq<char>, b: Seq<char>) -> bool {
    lower_ascii(a) == lower_ascii(b)
}

/// `s.starts_with(p)`.
pub open spec fn starts_with(s: Seq<char>, p: Seq<char>) -> bool {
    p.len() <= s.len() && s.take(p.len() as int) == p
}

/// Streams that carry ciphertext DM envelopes: conversation or DM streams
/// (by kind, ASCII case ignored) and `conversation:` stream ids.
pub open spec fn dm_stream(kind: Seq<char>, stream_id: Seq<char>) -> bool {
    eq_ignore_ascii_case(kind, "conversation"@) || eq_ignore_ascii_case(kind, "dm"@) || starts_with(
        stream_id,
        "conversation:"@,
    )
}

fn lower_ascii_exec(v: &Vec<char>) -> (r: Vec<char>)
    ensures
        r@ == lower_ascii(v@),
{
    let mut r: Vec<char> = Vec::new();
    let mut i: usize = 0;
    while i < v.len()
        invariant
            i <= v@.len(),
            r@ == lower_ascii(v@).take(i as int),
        decreases v@.len() - i,
    {
        r.push(ascii_lower_char(v[i]));
        i = i + 1;
        proof {
            assert(lower_ascii(v@).take(i as int) =~= lower_ascii(v@).take(i - 1).push(ascii_lower(v@[i - 1])));
        }
    }
    proof {
        assert(lower_ascii(v@).take(v@.len() as int) =~= lower_ascii(v@));
    }
    r
}

fn eq_ignore_ascii_case_exec(a: &str, b: &str) -> (r: bool)
    ensures
        r == eq_ignore_ascii_case(a@, b@),
{
    let la = lower_ascii_exec(&chars_of(a));
    let lb = lower_ascii_exec(&chars_of(b));
    chars_eq(&la, &lb)
}

fn starts_with_exec(s: &str, p: &str) -> (r: bool)
    ensures
        r == starts_with(s@, p@),
{
    let sv = chars_of(s);
    let pv = chars_of(p);
    if pv.len() > sv.len() {
        return false;
    }
    let mut i: usize = 0;
    while i < pv.len()
        invariant
            sv@ == s@,
            pv@ == p@,
            pv@.len() <= sv@.len(),
            i <= pv@.len(),
            forall|k: int| 0 <= k < i ==> sv@[k] == pv@[k],
        decreases pv@.len() - i,
    {
        if sv[i] != pv[i] {
            proof {
                assert(sv@.take(pv@.len() as int)[i as int] != pv@[i as int]);
            }
            return false;
        }
        i = i + 1;
    }
    proof {
        assert(sv@.take(pv@.len() as int) =~= pv@);
    }
    true
}

/// True for streams that carry ciphertext DM envelopes worth ingesting.
pub fn is_dm_stream(kind: &str, stream_id: &str) -> (b: bool)
    ensures
        b == dm_stream(kind@, stream_id@),
        eq_ignore_ascii_case(kind@, "conversation"@) ==> b,
        eq_ignore_ascii_case(kind@, "dm"@) ==> b,
        starts_with(stream_id@, "conversation:"@) ==> b,
        b ==> eq_ignore_ascii_case(kind@, "conversation"@) || eq_ignore_ascii_case(kind@, "dm"@) || starts_with(
            stream_id@,
            "conversation:"@,
        ),
{
    eq_ignore_ascii_case_exec(kind, "conversation") || eq_ignore_ascii_case_exec(kind, "dm")
        || starts_with_exec(stream_id, "conversation:")
}

/// Which window a message lands in.
#[derive(Clone, Copy, Debug, PartialEq, Eq)]
pub enum ChatKind {
    /// A harness session transcript.
    Session,
    /// The peer's master window.
    Master,
}

/// The fields of a parsed harness session envelope that ingest reads.
#[derive(Clone, Debug)]
pub struct SessionEnvelope {
    pub scope_type: String,
    pub scope_key: String,
    pub cwd: String,
    pub harness_session_id: String,
    pub role: String,
    pub provider: String,
    pub line: i64,
    pub text: String,
    pub timestamp: String,
}

/// Where and how a decrypted message is stored.
#[derive(Clone, Debug)]
pub struct ClassifiedMessage {
    pub chat_kind: ChatKind,
    pub session_id: String,
    pub role: String,
    pub source: String,
    pub label: Option<String>,
    pub workspace: Option<String>,
    pub seq: i64,
    pub body: String,
    pub timestamp: String,
}

/// A harness envelope goes to its session window (labelled by its folder
/// scope, with its working directory as workspace, stamped with its own
/// timestamp or else the envelope's); any other plaintext goes to the peer's
/// master window as a user message.
pub open spec fn classified(envelope: Option<SessionEnvelope>, plaintext: Seq<char>, envelope_timestamp: Seq<char>, m: ClassifiedMessage) -> bool {
    match envelope {
        Some(env) => {
            &&& m.chat_kind == ChatKind::Session
            &&& m.session_id@ == env.harness_session_id@
            &&& m.role@ == env.role@
            &&& m.source@ == env.provider@
            &&& m.label matches Some(l) ==> l@ == env.scope_key@
            &&& (m.label is Some <==> env.scope_type@ == "folder"@)
            &&& m.workspace matches Some(w) ==> w@ == env.cwd@
            &&& (m.workspace is Some <==> env.cwd@.len() > 0)
            &&& m.seq == env.line
            &&& m.body@ == env.text@
            &&& m.timestamp@ == if env.timestamp@.len() == 0 {
                envelope_timestamp
            } else {
                env.timestamp@
            }
        },
        None => {
            &&& m.chat_kind == ChatKind::Master
            &&& m.session_id@ == "master"@
            &&& m.role@ == "user"@
            &&& m.source@.len() == 0
            &&& m.label is None
            &&& m.workspace is None
            &&& m.seq == 0
            &&& m.body@ == plaintext
            &&& m.timestamp@ == envelope_timestamp
        },
    }
}

/// Classify a decrypted message: a harness envelope lands in its session,
/// anything else in the peer's master window.
pub fn classify_message(envelope: Option<SessionEnvelope>, plaintext: String, envelope_timestamp: String) -> (m: ClassifiedMessage)
    ensures
        classified(envelope, plaintext@, envelope_timestamp@, m),
{
    match envelope {
        Some(env) => {
            let label = if chars_eq_str(&chars_of(env.scope_type.as_str()), "folder") {
                Some(env.scope_key)
            } else {
                None
            };
            let workspace = if !env.cwd.as_str().is_empty() {
                Some(env.cwd)
            } else {
                None
            };
            let timestamp = if env.timestamp.as_str().is_empty() {
                envelope_timestamp
            } else {
                env.timestamp
            };
            ClassifiedMessage {
                chat_kind: ChatKind::Session,
                session_id: env.harness_session_id,
                role: env.role,
                source: env.provider,
                label,
                workspace,
                seq: env.line,
                body: env.text,
                timestamp,
            }
        },
        None => ClassifiedMessage {
            chat_kind: ChatKind::Master,
            session_id: "master".to_owned(),
            role: "user".to_owned(),
            source: String::new(),
            label: None,
            workspace: None,
            seq: 0,
            body: plaintext,
            timestamp: envelope_timestamp,
        },
    }
}


/// A session row as persisted.
#[derive(Clone, Debug)]
pub struct SessionRecord {
    pub session_id: String,
    pub agent_id: String,
    pub source: String,
    pub label: Option<String>,
    pub workspace: Option<String>,
    pub last_seq: i64,
    pub created_at: String,
    pub last_message_at: String,
}

/// A message row as persisted.
#[derive(Clone, Debug)]
pub struct MessageRecord {
    pub id: String,
    pub agent_id: String,
    pub session_id: String,
    pub chat_kind: ChatKind,
    pub role: String,
    pub body: String,
    pub timestamp: String,
    pub seq: i64,
}

/// An optional string's view.
pub open spec fn opt_chars(o: Option<String>) -> Option<Seq<char>> {
    match o {
        Some(s) => Some(s@),
        None => None,
    }
}

/// The rows stored for message `msg_id` from `agent_id`, classified as `m`,
/// at time `now`: the session (created now, last active at the message's
/// timestamp, at its sequence number) and the message itself.
pub open spec fn records_of(
    msg_id: Seq<char>,
    agent_id: Seq<char>,
    now: Seq<char>,
    m: ClassifiedMessage,
    session: SessionRecord,
    message: MessageRecord,
) -> bool {
    &&& session.session_id@ == m.session_id@
    &&& session.agent_id@ == agent_id
    &&& session.source@ == m.source@
    &&& opt_chars(session.label) == opt_chars(m.label)
    &&& opt_chars(session.workspace) == opt_chars(m.workspace)
    &&& session.last_seq == m.seq
    &&& session.created_at@ == now
    &&& session.last_message_at@ == m.timestamp@
    &&& message.id@ == msg_id
    &&& message.agent_id@ == agent_id
    &&& message.session_id@ == m.session_id@
    &&& message.chat_kind == m.chat_kind
    &&& message.role@ == m.role@
    &&& message.body@ == m.body@
    &&& message.timestamp@ == m.timestamp@
    &&& message.seq == m.seq
}

fn copy(s: &String) -> (r: String)
    ensures
        r@ == s@,
{
    s.as_str().to_owned()
}

fn copy_opt(o: &Option<String>) -> (r: Option<String>)
    ensures
        opt_chars(r) == opt_chars(*o),
{
    match o {
        Some(s) => Some(copy(s)),
        None => None,
    }
}

/// The session and message rows for a classified message.
pub fn ingest_records(msg_id: &str, agent_id: &str, now: &str, m: &ClassifiedMessage) -> (r: (SessionRecord, MessageRecord))
    ensures
        records_of(msg_id@, agent_id@, now@, *m, r.0, r.1),
{
    let session = SessionRecord {
        session_id: copy(&m.session_id),
        agent_id: agent_id.to_owned(),
        source: copy(&m.source),
        label: copy_opt(&m.label),
        workspace: copy_opt(&m.workspace),
        last_seq: m.seq,
        created_at: now.to_owned(),
        last_message_at: copy(&m.timestamp),
    };
    let message = MessageRecord {
        id: msg_id.to_owned(),
        agent_id: agent_id.to_owned(),
        session_id: copy(&m.session_id),
        chat_kind: m.chat_kind,
        role: copy(&m.role),
        body: copy(&m.body),
        timestamp: copy(&m.timestamp),
        seq: m.seq,
    };
    (session, message)
}

/// What ingest learned from the step it last took.
#[derive(Clone, Debug)]
pub enum IngestEvent {
    /// The store was asked whether the message id is already stored.
    Looked { already: bool },
    /// The envelope was decrypted; `envelope` is the harness envelope its
    /// plaintext parses as, if any.
    Decrypted { envelope: Option<SessionEnvelope>, plaintext: String },
    /// These rows were written; `landed` when the message was new to the
    /// store.
    Persisted { landed: bool, message: MessageRecord },
}

/// The next step of ingesting one envelope.
#[derive(Clone, Debug)]
pub enum IngestAction {
    /// Already stored: stop without decrypting (the ratchet is not
    /// idempotent).
    Skip,
    /// Decrypt the envelope, exactly once.
    Decrypt,
    /// Write these rows.
    Persist(SessionRecord, MessageRecord),
    /// The message landed: acknowledge message `message_id` upstream, and
    /// announce a new message from `agent_id` in session `session_id` of
    /// kind `chat_kind`.
    AcknowledgeAndPublish { message_id: String, agent_id: String, session_id: String, chat_kind: ChatKind },
    /// Nothing more to do.
    Finish,
}

/// Decide the next step of ingesting message `msg_id` from `agent_id`
/// (envelope timestamp `envelope_timestamp`), given what the last step
/// learned; `now` stamps a newly stored session.
pub fn ingest_next(msg_id: &str, agent_id: &str, envelope_timestamp: &str, now: &str, event: IngestEvent) -> (a: IngestAction)
    ensures
        match event {
            IngestEvent::Looked { already } => if already {
                a is Skip
            } else {
                a is Decrypt
            },
            IngestEvent::Decrypted { envelope, plaintext } => a matches IngestAction::Persist(s, m) && exists|c: ClassifiedMessage|
                classified(envelope, plaintext@, envelope_timestamp@, c) && records_of(msg_id@, agent_id@, now@, c, s, m),
            IngestEvent::Persisted { landed, message } => if landed {
                a matches IngestAction::AcknowledgeAndPublish { message_id, agent_id: from, session_id, chat_kind }
                    && message_id@ == msg_id@ && from@ == agent_id@ && session_id@ == message.session_id@
                    && chat_kind == message.chat_kind
            } else {
                a is Finish
            },
        },
{
    match event {
        IngestEvent::Looked { already } => if already {
            IngestAction::Skip
        } else {
            IngestAction::Decrypt
        },
        IngestEvent::Decrypted { envelope, plaintext } => {
            let c = classify_message(envelope, plaintext, envelope_timestamp.to_owned());
            let (s, m) = ingest_records(msg_id, agent_id, now, &c);
            IngestAction::Persist(s, m)
        },
        IngestEvent::Persisted { landed, message } => if landed {
            IngestAction::AcknowledgeAndPublish {
                message_id: msg_id.to_owned(),
                agent_id: agent_id.to_owned(),
                session_id: message.session_id,
                chat_kind: message.chat_kind,
            }
        } else {
            IngestAction::Finish
        },
    }
}


/// A stream is a DM stream exactly when its kind is `conversation` or `dm`
/// (ASCII case ignored), or its id starts with `conversation:`; in
/// particular a conversation stream is one whatever its id.
pub proof fn lemma_dm_streams(kind: Seq<char>, stream_id: Seq<char>)
    ensures
        eq_ignore_ascii_case(kind, "conversation"@) ==> dm_stream(kind, stream_id),
        eq_ignore_ascii_case(kind, "dm"@) ==> dm_stream(kind, stream_id),
        starts_with(stream_id, "conversation:"@) ==> dm_stream(kind, stream_id),
        dm_stream(kind, stream_id) ==> eq_ignore_ascii_case(kind, "conversation"@) || eq_ignore_ascii_case(
            kind,
            "dm"@,
        ) || starts_with(stream_id, "conversation:"@),
{
}

} // verus!
