//! Orchestration front-end tools.
//!
//! `reply_to_channel` and `defer_to_orchestrator` record the front end's
//! routing decision by echoing their payload; the session-history tools
//! browse persisted agent session transcripts, hiding the pinned windows.

use vstd::prelude::*;
use crate::text::{ascii_lower, chars_eq_str, chars_of, push_chars, push_str, string_from_chars, trim, trim_chars};

verus! {

/// A tool call's argument value, as the tools read it.
#[derive(Clone, Debug)]
pub enum ArgValue {
    /// A JSON string.
    Str(String),
    /// A JSON number that is a non-negative integer fitting in a `u64`.
    UInt(u64),
    /// Any other JSON value.
    Other,
}

/// A tool call's arguments: the members of the JSON object.
#[derive(Clone, Debug)]
pub struct ToolArgs {
    pub fields: Vec<(String, ArgValue)>,
}

/// The outcome of a tool call.
#[derive(Clone, Debug)]
pub struct ToolResult {
    pub output: String,
    pub is_error: bool,
}

impl ToolResult {
    /// A successful result carrying `output`.
    pub fn success(output: String) -> (r: ToolResult)
        ensures
            r.output == output,
            !r.is_error,
    {
        ToolResult { output, is_error: false }
    }

    /// An error result carrying `message`.
    pub fn error(message: String) -> (r: ToolResult)
        ensures
            r.output == message,
            r.is_error,
    {
        ToolResult { output: message, is_error: true }
    }
}

/// The first member named `key`.
pub open spec fn arg_get(fields: Seq<(String, ArgValue)>, key: Seq<char>) -> Option<ArgValue>
    decreases fields.len(),
{
    if fields.len() == 0 {
        None
    } else if fields[0].0@ == key {
        Some(fields[0].1)
    } else {
        arg_get(fields.drop_first(), key)
    }
}

/// `args.get(key).and_then(Value::as_str)`.
pub open spec fn arg_str(args: ToolArgs, key: Seq<char>) -> Option<Seq<char>> {
    match arg_get(args.fields@, key) {
        Some(ArgValue::Str(s)) => Some(s@),
        _ => None,
    }
}

/// `args.get(key).and_then(Value::as_u64)`.
pub open spec fn arg_u64(args: ToolArgs, key: Seq<char>) -> Option<u64> {
    match arg_get(args.fields@, key) {
        Some(ArgValue::UInt(n)) => Some(n),
        _ => None,
    }
}

fn arg_get_exec(args: &ToolArgs, key: &str) -> (r: Option<usize>)
    ensures
        match r {
            Some(i) => i < args.fields@.len() && arg_get(args.fields@, key@) == Some(args.fields@[i as int].1),
            None => arg_get(args.fields@, key@) is None,
        },
{
    let ghost fv = args.fields@;
    let mut i: usize = 0;
    proof {
        assert(fv.skip(0) =~= fv);
    }
    while i < args.fields.len()
        invariant
            fv == args.fields@,
            i <= fv.len(),
            arg_get(fv, key@) == arg_get(fv.skip(i as int), key@),
        decreases fv.len() - i,
    {
        proof {
            assert(fv.skip(i as int)[0] == fv[i as int]);
            assert(fv.skip(i as int).drop_first() =~= fv.skip(i + 1));
        }
        let k = chars_of(args.fields[i].0.as_str());
        if chars_eq_str(&k, key) {
            return Some(i);
        }
        i = i + 1;
    }
    None
}

/// The string argument `key`, if present and a string.
pub fn arg_str_exec(args: &ToolArgs, key: &str) -> (r: Option<String>)
    ensures
        match r {
            Some(s) => arg_str(*args, key@) == Some(s@),
            None => arg_str(*args, key@) is None,
        },
{
    match arg_get_exec(args, key) {
        Some(i) => match &args.fields[i].1 {
            ArgValue::Str(s) => Some(s.as_str().to_owned()),
            _ => None,
        },
        None => None,
    }
}

/// The unsigned-integer argument `key`, if present and such a number.
pub fn arg_u64_exec(args: &ToolArgs, key: &str) -> (r: Option<u64>)
    ensures
        r == arg_u64(*args, key@),
{
    match arg_get_exec(args, key) {
        Some(i) => match &args.fields[i].1 {
            ArgValue::UInt(n) => Some(*n),
            _ => None,
        },
        None => None,
    }
}

/// The required string field `field`: present, a string, and not blank.
pub open spec fn required(args: ToolArgs, field: Seq<char>) -> Option<Seq<char>> {
    match arg_str(args, field) {
        Some(s) => if trim(s).len() > 0 {
            Some(s)
        } else {
            None
        },
        None => None,
    }
}

/// The error text for a missing required field.
pub open spec fn required_message(field: Seq<char>) -> Seq<char> {
    "`"@ + field + "` is required"@
}

/// Extract a required string field, or the error result naming it.
pub fn required_str(args: &ToolArgs, field: &str) -> (r: Result<String, ToolResult>)
    ensures
        match r {
            Ok(s) => required(*args, field@) == Some(s@),
            Err(e) => required(*args, field@) is None && e.is_error && e.output@ == required_message(field@),
        },
{
    match arg_str_exec(args, field) {
        Some(s) => {
            let t = trim_chars(&chars_of(s.as_str()));
            if t.len() > 0 {
                return Ok(s);
            }
        },
        None => {},
    }
    let mut m: Vec<char> = Vec::new();
    push_str(&mut m, "`");
    push_str(&mut m, field);
    push_str(&mut m, "` is required");
    Err(ToolResult::error(string_from_chars(&m)))
}

/// The JSON type of a tool parameter.
#[derive(Clone, Copy, Debug, PartialEq, Eq)]
pub enum ParamType {
    String,
    Integer,
}

/// One parameter of a tool: its name, type and description, and for
/// integers the inclusive bounds.
#[derive(Clone, Debug)]
pub struct ParamSpec {
    pub name: &'static str,
    pub ty: ParamType,
    pub description: &'static str,
    pub minimum: Option<u64>,
    pub maximum: Option<u64>,
}

/// A tool's parameter schema: a JSON object with these properties. An
/// empty `required` list means the schema names no required member;
/// `additional_properties` is `Some(false)` when other members are refused.
#[derive(Clone, Debug)]
pub struct ParametersSchema {
    pub properties: Vec<ParamSpec>,
    pub required: Vec<&'static str>,
    pub additional_properties: Option<bool>,
}

/// `(name, type, description, minimum, maximum)` of a parameter.
pub open spec fn param_view(p: ParamSpec) -> (Seq<char>, ParamType, Seq<char>, Option<u64>, Option<u64>) {
    (p.name@, p.ty, p.description@, p.minimum, p.maximum)
}

/// `(properties, required, additional properties)` of a schema.
pub open spec fn params_view(s: ParametersSchema) -> (
    Seq<(Seq<char>, ParamType, Seq<char>, Option<u64>, Option<u64>)>,
    Seq<Seq<char>>,
    Option<bool>,
) {
    (
        s.properties@.map_values(|p: ParamSpec| param_view(p)),
        s.required@.map_values(|r: &'static str| r@),
        s.additional_properties,
    )
}

fn param(name: &'static str, ty: ParamType, description: &'static str, minimum: Option<u64>, maximum: Option<u64>) -> (p: ParamSpec)
    ensures
        param_view(p) == (name@, ty, description@, minimum, maximum),
{
    ParamSpec { name, ty, description, minimum, maximum }
}

/// A schema with the given properties, one required member (or none) and
/// the given policy on other members.
fn object_schema(properties: Vec<ParamSpec>, required: Option<&'static str>, additional_properties: Option<bool>) -> (s: ParametersSchema)
    ensures
        params_view(s) == (
            properties@.map_values(|p: ParamSpec| param_view(p)),
            match required {
                Some(r) => seq![r@],
                None => Seq::<Seq<char>>::empty(),
            },
            additional_properties,
        ),
{
    let mut req: Vec<&'static str> = Vec::new();
    match required {
        Some(r) => req.push(r),
        None => {},
    }
    let s = ParametersSchema { properties, required: req, additional_properties };
    proof {
        assert(s.required@.map_values(|r: &'static str| r@) =~= match required {
            Some(r) => seq![r@],
            None => Seq::<Seq<char>>::empty(),
        });
    }
    s
}

/// `reply_to_channel` — the front end's terminal decision: the finished
/// reply sent back over the session's DM channel.
pub struct ReplyToChannelTool;

/// `defer_to_orchestrator` — the front end's hand-off decision: the
/// macro-instructions for the reasoning core.
pub struct DeferToOrchestratorTool;

/// Echo the required field `field` as a success, or report it missing.
pub open spec fn echo_result(args: ToolArgs, field: Seq<char>, r: ToolResult) -> bool {
    match required(args, field) {
        Some(s) => !r.is_error && r.output@ == s,
        None => r.is_error && r.output@ == required_message(field),
    }
}

impl ReplyToChannelTool {
    pub fn name(&self) -> (s: &'static str)
        ensures
            s@ == "reply_to_channel"@,
    {
        "reply_to_channel"
    }

    pub fn description(&self) -> (s: &'static str)
        ensures
            s@ == "Send the finished reply back to the session over its tiny.place DM channel. Call this once you have a complete answer for the counterpart."@,
    {
        "Send the finished reply back to the session over its tiny.place DM channel. Call this once you have a complete answer for the counterpart."
    }

    /// One required string parameter, `text`.
    pub fn parameters_schema(&self) -> (s: ParametersSchema)
        ensures
            params_view(s) == (
                seq![("text"@, ParamType::String, "The finished reply to send back to the session."@, None::<u64>, None::<u64>)],
                seq!["text"@],
                None::<bool>,
            ),
    {
        let mut props: Vec<ParamSpec> = Vec::new();
        props.push(param("text", ParamType::String, "The finished reply to send back to the session.", None, None));
        let s = object_schema(props, Some("text"), None);
        proof {
            assert(params_view(s).0 =~= seq![("text"@, ParamType::String, "The finished reply to send back to the session."@, None::<u64>, None::<u64>)]);
        }
        s
    }

    /// Echo the `text` argument as the decision payload.
    pub fn execute(&self, args: &ToolArgs) -> (r: ToolResult)
        ensures
            echo_result(*args, "text"@, r),
    {
        match required_str(args, "text") {
            Ok(text) => ToolResult::success(text),
            Err(e) => e,
        }
    }
}

impl DeferToOrchestratorTool {
    pub fn name(&self) -> (s: &'static str)
        ensures
            s@ == "defer_to_orchestrator"@,
    {
        "defer_to_orchestrator"
    }

    pub fn description(&self) -> (s: &'static str)
        ensures
            s@ == "Hand this turn down to the reasoning core with macro-instructions. Call this when the request needs real work (tools, sub-agents, multi-step reasoning) rather than an immediate reply."@,
    {
        "Hand this turn down to the reasoning core with macro-instructions. Call this when the request needs real work (tools, sub-agents, multi-step reasoning) rather than an immediate reply."
    }

    /// One required string parameter, `instructions`.
    pub fn parameters_schema(&self) -> (s: ParametersSchema)
        ensures
            params_view(s) == (
                seq![("instructions"@, ParamType::String, "Concise macro-instructions describing what the reasoning core should do."@, None::<u64>, None::<u64>)],
                seq!["instructions"@],
                None::<bool>,
            ),
    {
        let mut props: Vec<ParamSpec> = Vec::new();
        props.push(param("instructions", ParamType::String, "Concise macro-instructions describing what the reasoning core should do.", None, None));
        let s = object_schema(props, Some("instructions"), None);
        proof {
            assert(params_view(s).0 =~= seq![("instructions"@, ParamType::String, "Concise macro-instructions describing what the reasoning core should do."@, None::<u64>, None::<u64>)]);
        }
        s
    }

    /// Echo the `instructions` argument as the decision payload.
    pub fn execute(&self, args: &ToolArgs) -> (r: ToolResult)
        ensures
            echo_result(*args, "instructions"@, r),
    {
        match required_str(args, "instructions") {
            Ok(text) => ToolResult::success(text),
            Err(e) => e,
        }
    }
}

// ── Session-history read tools ──────────────────────────────────────────────

/// Default number of messages a transcript read returns.
pub const READ_SESSION_DEFAULT_LIMIT: u32 = 50;
/// Cap on the messages a transcript read returns.
pub const READ_SESSION_MAX_LIMIT: u32 = 200;
/// Cap on how many sessions a listing returns.
pub const LIST_SESSIONS_MAX: usize = 100;
/// One-line preview length for the session list.
pub const PREVIEW_MAX_CHARS: usize = 120;

/// The pinned sentinel windows, hidden from the history tools.
pub open spec fn pinned(session_id: Seq<char>) -> bool {
    session_id == "master"@ || session_id == "subconscious"@
}

/// The pinned sentinel windows are not agent-to-agent transcripts.
pub fn is_pinned_window(session_id: &str) -> (b: bool)
    ensures
        b == pinned(session_id@),
{
    let v = chars_of(session_id);
    chars_eq_str(&v, "master") || chars_eq_str(&v, "subconscious")
}

/// `s` with every newline replaced by a space.
pub open spec fn newlines_to_spaces(s: Seq<char>) -> Seq<char> {
    s.map_values(|c: char| if c == '\n' { ' ' } else { c })
}

/// The one-line preview of a message: trimmed, newlines as spaces, cut to
/// `PREVIEW_MAX_CHARS` characters with a trailing `…` when longer.
pub open spec fn preview_of(body: Seq<char>) -> Seq<char> {
    let line = newlines_to_spaces(trim(body));
    if line.len() <= PREVIEW_MAX_CHARS {
        line
    } else {
        line.take(PREVIEW_MAX_CHARS - 1).push('…')
    }
}

/// A preview is one line of at most `PREVIEW_MAX_CHARS` characters.
pub proof fn lemma_preview_is_one_short_line(body: Seq<char>)
    ensures
        preview_of(body).len() <= PREVIEW_MAX_CHARS,
        forall|i: int| 0 <= i < preview_of(body).len() ==> #[trigger] preview_of(body)[i] != '\n',
{
    let line = newlines_to_spaces(trim(body));
    assert forall|i: int| 0 <= i < line.len() implies #[trigger] line[i] != '\n' by {}
    if line.len() > PREVIEW_MAX_CHARS {
        let p = line.take(PREVIEW_MAX_CHARS - 1).push('…');
        assert forall|i: int| 0 <= i < p.len() implies #[trigger] p[i] != '\n' by {
            if i < PREVIEW_MAX_CHARS - 1 {
                assert(p[i] == line[i]);
            }
        }
    }
}

/// One-line preview of a message body.
pub fn preview_line(body: &str) -> (r: String)
    ensures
        r@ == preview_of(body@),
{
    let t = trim_chars(&chars_of(body));
    let mut line: Vec<char> = Vec::new();
    let mut i: usize = 0;
    while i < t.len()
        invariant
            i <= t@.len(),
            line@ == newlines_to_spaces(t@).take(i as int),
        decreases t@.len() - i,
    {
        let c = t[i];
        line.push(if c == '\n' {
            ' '
        } else {
            c
        });
        i = i + 1;
        proof {
            assert(newlines_to_spaces(t@).take(i as int) =~= newlines_to_spaces(t@).take(i - 1).push(
                if c == '\n' {
                    ' '
                } else {
                    c
                },
            ));
        }
    }
    proof {
        assert(newlines_to_spaces(t@).take(t@.len() as int) =~= newlines_to_spaces(t@));
    }
    if line.len() <= PREVIEW_MAX_CHARS {
        return string_from_chars(&line);
    }
    let mut out: Vec<char> = Vec::new();
    let mut k: usize = 0;
    while k < PREVIEW_MAX_CHARS - 1
        invariant
            k <= PREVIEW_MAX_CHARS - 1,
            line@.len() > PREVIEW_MAX_CHARS,
            out@ == line@.take(k as int),
        decreases PREVIEW_MAX_CHARS - 1 - k,
    {
        out.push(line[k]);
        k = k + 1;
        proof {
            assert(line@.take(k as int) =~= line@.take(k - 1).push(line@[k - 1]));
        }
    }
    out.push('…');
    string_from_chars(&out)
}

/// `orchestration_list_sessions` — enumerate the persisted agent session
/// windows with a one-line preview each.
pub struct ListSessionsTool {
    /// Workspace whose orchestration store is read.
    pub workspace_dir: String,
}

/// How many sessions a listing returns: the `limit` argument capped at
/// `LIST_SESSIONS_MAX`, or `LIST_SESSIONS_MAX` when absent.
pub open spec fn list_limit_of(args: ToolArgs) -> usize {
    match arg_u64(args, "limit"@) {
        Some(n) => if (n as usize) < LIST_SESSIONS_MAX {
            n as usize
        } else {
            LIST_SESSIONS_MAX
        },
        None => LIST_SESSIONS_MAX,
    }
}

/// Indices of the sessions listed among the first `upto`: the non-pinned
/// ones in order, stopping once `limit` are listed (at least one is listed
/// when any exists).
pub open spec fn listed(ids: Seq<Seq<char>>, limit: nat, upto: int) -> Seq<int>
    decreases upto,
{
    if upto <= 0 {
        seq![]
    } else {
        let prev = listed(ids, limit, upto - 1);
        if prev.len() > 0 && prev.len() >= limit {
            prev
        } else if pinned(ids[upto - 1]) {
            prev
        } else {
            prev.push(upto - 1)
        }
    }
}

impl ListSessionsTool {
    pub fn new(workspace_dir: String) -> (t: ListSessionsTool)
        ensures
            t.workspace_dir == workspace_dir,
    {
        ListSessionsTool { workspace_dir }
    }

    pub fn name(&self) -> (s: &'static str)
        ensures
            s@ == "orchestration_list_sessions"@,
    {
        "orchestration_list_sessions"
    }

    pub fn description(&self) -> (s: &'static str)
        ensures
            s@ == "List your saved chat sessions with other agents (the persisted OpenHuman↔agent transcripts), newest activity first. Use this to find which past conversation to read before answering a question. Returns each session's id, the peer agent, the source harness, an optional label, the last activity time, the message count, and a one-line preview. Read a session's full transcript with `orchestration_read_session`."@,
    {
        "List your saved chat sessions with other agents (the persisted OpenHuman↔agent transcripts), newest activity first. Use this to find which past conversation to read before answering a question. Returns each session's id, the peer agent, the source harness, an optional label, the last activity time, the message count, and a one-line preview. Read a session's full transcript with `orchestration_read_session`."
    }

    /// One optional integer parameter, `limit`, in `1..=LIST_SESSIONS_MAX`;
    /// no other member is accepted.
    pub fn parameters_schema(&self) -> (s: ParametersSchema)
        ensures
            params_view(s) == (
                seq![("limit"@, ParamType::Integer, "Max sessions to return (default all, capped at 100)."@, Some(1u64), Some(LIST_SESSIONS_MAX as u64))],
                Seq::<Seq<char>>::empty(),
                Some(false),
            ),
    {
        let mut props: Vec<ParamSpec> = Vec::new();
        props.push(param("limit", ParamType::Integer, "Max sessions to return (default all, capped at 100).", Some(1), Some(LIST_SESSIONS_MAX as u64)));
        let s = object_schema(props, None, Some(false));
        proof {
            assert(params_view(s).0 =~= seq![("limit"@, ParamType::Integer, "Max sessions to return (default all, capped at 100)."@, Some(1u64), Some(LIST_SESSIONS_MAX as u64))]);
        }
        s
    }

    /// How many sessions to list for `args`.
    pub fn list_limit(&self, args: &ToolArgs) -> (n: usize)
        ensures
            n == list_limit_of(*args),
    {
        match arg_u64_exec(args, "limit") {
            Some(n) => {
                let m = n as usize;
                if m < LIST_SESSIONS_MAX {
                    m
                } else {
                    LIST_SESSIONS_MAX
                }
            },
            None => LIST_SESSIONS_MAX,
        }
    }

    /// The indices of the sessions (by id, newest activity first) to list.
    pub fn select_sessions(&self, session_ids: &Vec<String>, limit: usize) -> (r: Vec<usize>)
        ensures
            r@.len() == listed(session_ids@.map_values(|s: String| s@), limit as nat, session_ids@.len() as int).len(),
            forall|k: int| 0 <= k < r@.len() ==> #[trigger] r@[k] as int == listed(
                session_ids@.map_values(|s: String| s@),
                limit as nat,
                session_ids@.len() as int,
            )[k],
    {
        let ghost ids = session_ids@.map_values(|s: String| s@);
        let mut r: Vec<usize> = Vec::new();
        let mut i: usize = 0;
        while i < session_ids.len()
            invariant
                ids == session_ids@.map_values(|s: String| s@),
                i <= session_ids@.len(),
                r@.len() == listed(ids, limit as nat, i as int).len(),
                forall|k: int| 0 <= k < r@.len() ==> #[trigger] r@[k] as int == listed(ids, limit as nat, i as int)[k],
            decreases session_ids@.len() - i,
        {
            let full = r.len() > 0 && r.len() >= limit;
            if !full && !is_pinned_window(session_ids[i].as_str()) {
                r.push(i);
            }
            i = i + 1;
        }
        r
    }
}

/// `orchestration_read_session` — read one session's transcript by id.
pub struct ReadSessionTool {
    /// Workspace whose orchestration store is read.
    pub workspace_dir: String,
}

/// A validated transcript read.
#[derive(Clone, Debug)]
pub struct ReadRequest {
    pub session_id: String,
    pub limit: u32,
    /// Exclusive timestamp to page backwards from.
    pub before: Option<String>,
}

/// How many messages a read returns: the `limit` argument (as a `u32`)
/// capped at `READ_SESSION_MAX_LIMIT`, or the default when absent.
pub open spec fn read_limit_of(args: ToolArgs) -> u32 {
    match arg_u64(args, "limit"@) {
        Some(n) => if (n as u32) < READ_SESSION_MAX_LIMIT {
            n as u32
        } else {
            READ_SESSION_MAX_LIMIT
        },
        None => READ_SESSION_DEFAULT_LIMIT,
    }
}

/// The `before` argument when it is a non-blank string.
pub open spec fn before_of(args: ToolArgs) -> Option<Seq<char>> {
    match arg_str(args, "before"@) {
        Some(b) => if trim(b).len() > 0 {
            Some(b)
        } else {
            None
        },
        None => None,
    }
}

/// The error text for a read of a pinned window.
pub open spec fn pinned_message() -> Seq<char> {
    "`sessionId` must be an agent session, not a pinned window"@
}

impl ReadSessionTool {
    pub fn new(workspace_dir: String) -> (t: ReadSessionTool)
        ensures
            t.workspace_dir == workspace_dir,
    {
        ReadSessionTool { workspace_dir }
    }

    pub fn name(&self) -> (s: &'static str)
        ensures
            s@ == "orchestration_read_session"@,
    {
        "orchestration_read_session"
    }

    pub fn description(&self) -> (s: &'static str)
        ensures
            s@ == "Read the transcript of one of your saved agent chat sessions (from `orchestration_list_sessions`). Returns the messages in chronological order with role, body, and timestamp. Use `before` to page backwards through a long history."@,
    {
        "Read the transcript of one of your saved agent chat sessions (from `orchestration_list_sessions`). Returns the messages in chronological order with role, body, and timestamp. Use `before` to page backwards through a long history."
    }

    /// The required string `sessionId`, an optional integer `limit` in
    /// `1..=READ_SESSION_MAX_LIMIT` and an optional string `before`; no
    /// other member is accepted.
    pub fn parameters_schema(&self) -> (s: ParametersSchema)
        ensures
            params_view(s) == (
                seq![
                    ("sessionId"@, ParamType::String, "The session id to read (from orchestration_list_sessions)."@, None::<u64>, None::<u64>),
                    ("limit"@, ParamType::Integer, "Max messages to return (default 50, capped at 200)."@, Some(1u64), Some(READ_SESSION_MAX_LIMIT as u64)),
                    ("before"@, ParamType::String, "Exclusive ISO-8601 timestamp to page backwards from."@, None::<u64>, None::<u64>),
                ],
                seq!["sessionId"@],
                Some(false),
            ),
    {
        let mut props: Vec<ParamSpec> = Vec::new();
        props.push(param("sessionId", ParamType::String, "The session id to read (from orchestration_list_sessions).", None, None));
        props.push(param("limit", ParamType::Integer, "Max messages to return (default 50, capped at 200).", Some(1), Some(READ_SESSION_MAX_LIMIT as u64)));
        props.push(param("before", ParamType::String, "Exclusive ISO-8601 timestamp to page backwards from.", None, None));
        let s = object_schema(props, Some("sessionId"), Some(false));
        proof {
            assert(params_view(s).0 =~= seq![
                ("sessionId"@, ParamType::String, "The session id to read (from orchestration_list_sessions)."@, None::<u64>, None::<u64>),
                ("limit"@, ParamType::Integer, "Max messages to return (default 50, capped at 200)."@, Some(1u64), Some(READ_SESSION_MAX_LIMIT as u64)),
                ("before"@, ParamType::String, "Exclusive ISO-8601 timestamp to page backwards from."@, None::<u64>, None::<u64>),
            ]);
        }
        s
    }

    /// Validate a read: `sessionId` is required and must not be a pinned
    /// window; the limit and the paging cursor come from the arguments.
    pub fn read_request(&self, args: &ToolArgs) -> (r: Result<ReadRequest, ToolResult>)
        ensures
            match r {
                Ok(q) => required(*args, "sessionId"@) == Some(q.session_id@) && !pinned(q.session_id@)
                    && q.limit == read_limit_of(*args) && match q.before {
                    Some(b) => before_of(*args) == Some(b@),
                    None => before_of(*args) is None,
                },
                Err(e) => e.is_error && match required(*args, "sessionId"@) {
                    None => e.output@ == required_message("sessionId"@),
                    Some(s) => pinned(s) && e.output@ == pinned_message(),
                },
            },
    {
        let session_id = match required_str(args, "sessionId") {
            Ok(s) => s,
            Err(e) => {
                return Err(e);
            },
        };
        if is_pinned_window(session_id.as_str()) {
            return Err(ToolResult::error(
                "`sessionId` must be an agent session, not a pinned window".to_owned(),
            ));
        }
        let limit = match arg_u64_exec(args, "limit") {
            Some(n) => {
                let m = n as u32;
                if m < READ_SESSION_MAX_LIMIT {
                    m
                } else {
                    READ_SESSION_MAX_LIMIT
                }
            },
            None => READ_SESSION_DEFAULT_LIMIT,
        };
        let before = match arg_str_exec(args, "before") {
            Some(b) => {
                let t = trim_chars(&chars_of(b.as_str()));
                if t.len() > 0 {
                    Some(b)
                } else {
                    None
                }
            },
            None => None,
        };
        Ok(ReadRequest { session_id, limit, before })
    }
}

} // verus!
