//! Controller schemas of the gameplay-review RPC namespace.

use vstd::prelude::*;
use crate::text::{chars_eq_str, chars_of};

verus! {

/// The type of a controller input or output.
#[derive(Debug)]
pub enum TypeSchema {
    String,
    Json,
    /// A named input type.
    Ref(&'static str),
    Option(Box<TypeSchema>),
}

/// One controller input or output.
#[derive(Debug)]
pub struct FieldSchema {
    pub name: &'static str,
    pub ty: TypeSchema,
    pub comment: &'static str,
    pub required: bool,
}

/// The schema of one controller function.
#[derive(Debug)]
pub struct ControllerSchema {
    pub namespace: &'static str,
    pub function: &'static str,
    pub description: &'static str,
    pub inputs: Vec<FieldSchema>,
    pub outputs: Vec<FieldSchema>,
}

/// A type rendered as text: `string`, `json`, `ref:Name`, `option:T`.
pub open spec fn type_view(t: TypeSchema) -> Seq<char>
    decreases t,
{
    match t {
        TypeSchema::String => "string"@,
        TypeSchema::Json => "json"@,
        TypeSchema::Ref(name) => "ref:"@ + name@,
        TypeSchema::Option(inner) => "option:"@ + type_view(*inner),
    }
}

/// `(name, type, comment, required)` of a field.
pub open spec fn field_view(f: FieldSchema) -> (Seq<char>, Seq<char>, Seq<char>, bool) {
    (f.name@, type_view(f.ty), f.comment@, f.required)
}

/// `(namespace, function, description, inputs, outputs)` of a schema.
pub open spec fn schema_view(s: ControllerSchema) -> (
    Seq<char>,
    Seq<char>,
    Seq<char>,
    Seq<(Seq<char>, Seq<char>, Seq<char>, bool)>,
    Seq<(Seq<char>, Seq<char>, Seq<char>, bool)>,
) {
    (
        s.namespace@,
        s.function@,
        s.description@,
        s.inputs@.map_values(|f: FieldSchema| field_view(f)),
        s.outputs@.map_values(|f: FieldSchema| field_view(f)),
    )
}

/// A required JSON output.
pub open spec fn json_out(name: Seq<char>, comment: Seq<char>) -> (Seq<char>, Seq<char>, Seq<char>, bool) {
    (name, "json"@, comment, true)
}

/// The schema table of the namespace: each known function with its inputs
/// and outputs; any other name maps to the `unknown` entry.
pub open spec fn schema_of(function: Seq<char>) -> (
    Seq<char>,
    Seq<char>,
    Seq<char>,
    Seq<(Seq<char>, Seq<char>, Seq<char>, bool)>,
    Seq<(Seq<char>, Seq<char>, Seq<char>, bool)>,
) {
    if function == "register_session"@ {
        ("gameplay_review"@, "register_session"@, "Register a gameplay session from imported keyframes."@,
            seq![("session"@, "ref:"@ + "GameplayReviewSessionInput"@, "Imported gameplay session metadata and frames."@, true)],
            seq![json_out("session"@, "Stored gameplay review session."@)])
    } else if function == "analyze_session"@ {
        ("gameplay_review"@, "analyze_session"@, "Analyze a gameplay session, generate highlights, and draft clip metadata."@,
            seq![("analysis"@, "ref:"@ + "GameplayReviewAnalysisInput"@, "Analysis request with optional highlight cap and platform targets."@, true)],
            seq![json_out("session"@, "Analyzed gameplay review session."@)])
    } else if function == "get_session"@ {
        ("gameplay_review"@, "get_session"@, "Fetch one gameplay review session by id."@,
            seq![("session_id"@, "string"@, "Session identifier."@, true)],
            seq![json_out("session"@, "Gameplay review session."@)])
    } else if function == "list_sessions"@ {
        ("gameplay_review"@, "list_sessions"@, "List gameplay review sessions stored in the workspace."@,
            seq![("game_id"@, "option:"@ + "string"@, "Optional game filter."@, false)],
            seq![json_out("sessions"@, "Gameplay review sessions."@)])
    } else if function == "set_preset"@ {
        ("gameplay_review"@, "set_preset"@, "Save a game-specific coaching preset."@,
            seq![("preset"@, "ref:"@ + "GameplayPresetInput"@, "Game preset definition."@, true)],
            seq![json_out("preset"@, "Saved gameplay review preset."@)])
    } else if function == "list_presets"@ {
        ("gameplay_review"@, "list_presets"@, "List stored gameplay coaching presets."@,
            seq![],
            seq![json_out("presets"@, "Gameplay review presets."@)])
    } else if function == "ask_session"@ {
        ("gameplay_review"@, "ask_session"@, "Ask a question against a stored gameplay session."@,
            seq![("question"@, "ref:"@ + "GameplayReviewQuestionInput"@, "Question and session id."@, true)],
            seq![json_out("answer"@, "Question answer with matched highlights."@)])
    } else if function == "draft_clip_metadata"@ {
        ("gameplay_review"@, "draft_clip_metadata"@, "Draft clip titles, descriptions, and tags for one gameplay highlight."@,
            seq![("clip"@, "ref:"@ + "GameplayReviewClipInput"@, "Clip draft request."@, true)],
            seq![json_out("drafts"@, "Draft metadata for clip publishing."@)])
    } else {
        ("gameplay_review"@, "unknown"@, "Unknown gameplay_review controller function."@,
            seq![],
            seq![json_out("error"@, "Lookup error details."@)])
    }
}

fn json_output(name: &'static str, comment: &'static str) -> (f: FieldSchema)
    ensures
        field_view(f) == json_out(name@, comment@),
{
    FieldSchema { name, ty: TypeSchema::Json, comment, required: true }
}

fn input(name: &'static str, ty: TypeSchema, comment: &'static str, required: bool) -> (f: FieldSchema)
    ensures
        field_view(f) == (name@, type_view(ty), comment@, required),
{
    FieldSchema { name, ty, comment, required }
}

fn schema(function: &'static str, description: &'static str, inputs: Vec<FieldSchema>, output: FieldSchema) -> (s: ControllerSchema)
    ensures
        schema_view(s) == (
            "gameplay_review"@,
            function@,
            description@,
            inputs@.map_values(|f: FieldSchema| field_view(f)),
            seq![field_view(output)],
        ),
{
    let ghost ov = field_view(output);
    let mut outputs: Vec<FieldSchema> = Vec::new();
    outputs.push(output);
    proof {
        assert(outputs@.map_values(|f: FieldSchema| field_view(f)) =~= seq![ov]);
    }
    ControllerSchema { namespace: "gameplay_review", function, description, inputs, outputs }
}

fn one(f: FieldSchema) -> (v: Vec<FieldSchema>)
    ensures
        v@.map_values(|g: FieldSchema| field_view(g)) == seq![field_view(f)],
{
    let ghost fv = field_view(f);
    let mut v: Vec<FieldSchema> = Vec::new();
    v.push(f);
    proof {
        assert(v@.map_values(|g: FieldSchema| field_view(g)) =~= seq![fv]);
    }
    v
}

fn none() -> (v: Vec<FieldSchema>)
    ensures
        v@.map_values(|g: FieldSchema| field_view(g)) == Seq::<(Seq<char>, Seq<char>, Seq<char>, bool)>::empty(),
{
    let v: Vec<FieldSchema> = Vec::new();
    proof {
        assert(v@.map_values(|g: FieldSchema| field_view(g)) =~= Seq::<(Seq<char>, Seq<char>, Seq<char>, bool)>::empty());
    }
    v
}

/// The schema of one gameplay-review controller function (the `unknown`
/// entry for any other name).
pub fn schemas(function: &str) -> (s: ControllerSchema)
    ensures
        schema_view(s) == schema_of(function@),
{
    let f = chars_of(function);
    let s = if chars_eq_str(&f, "register_session") {
        schema("register_session", "Register a gameplay session from imported keyframes.",
            one(input("session", TypeSchema::Ref("GameplayReviewSessionInput"), "Imported gameplay session metadata and frames.", true)),
            json_output("session", "Stored gameplay review session."))
    } else if chars_eq_str(&f, "analyze_session") {
        schema("analyze_session", "Analyze a gameplay session, generate highlights, and draft clip metadata.",
            one(input("analysis", TypeSchema::Ref("GameplayReviewAnalysisInput"), "Analysis request with optional highlight cap and platform targets.", true)),
            json_output("session", "Analyzed gameplay review session."))
    } else if chars_eq_str(&f, "get_session") {
        schema("get_session", "Fetch one gameplay review session by id.",
            one(input("session_id", TypeSchema::String, "Session identifier.", true)),
            json_output("session", "Gameplay review session."))
    } else if chars_eq_str(&f, "list_sessions") {
        schema("list_sessions", "List gameplay review sessions stored in the workspace.",
            one(input("game_id", TypeSchema::Option(Box::new(TypeSchema::String)), "Optional game filter.", false)),
            json_output("sessions", "Gameplay review sessions."))
    } else if chars_eq_str(&f, "set_preset") {
        schema("set_preset", "Save a game-specific coaching preset.",
            one(input("preset", TypeSchema::Ref("GameplayPresetInput"), "Game preset definition.", true)),
            json_output("preset", "Saved gameplay review preset."))
    } else if chars_eq_str(&f, "list_presets") {
        schema("list_presets", "List stored gameplay coaching presets.", none(),
            json_output("presets", "Gameplay review presets."))
    } else if chars_eq_str(&f, "ask_session") {
        schema("ask_session", "Ask a question against a stored gameplay session.",
            one(input("question", TypeSchema::Ref("GameplayReviewQuestionInput"), "Question and session id.", true)),
            json_output("answer", "Question answer with matched highlights."))
    } else if chars_eq_str(&f, "draft_clip_metadata") {
        schema("draft_clip_metadata", "Draft clip titles, descriptions, and tags for one gameplay highlight.",
            one(input("clip", TypeSchema::Ref("GameplayReviewClipInput"), "Clip draft request.", true)),
            json_output("drafts", "Draft metadata for clip publishing."))
    } else {
        schema("unknown", "Unknown gameplay_review controller function.", none(),
            json_output("error", "Lookup error details."))
    };
    s
}

/// The functions of the namespace, in registration order.
pub open spec fn function_names() -> Seq<Seq<char>> {
    seq![
        "register_session"@,
        "analyze_session"@,
        "get_session"@,
        "list_sessions"@,
        "set_preset"@,
        "list_presets"@,
        "ask_session"@,
        "draft_clip_metadata"@,
    ]
}

/// The schemas of every function of the namespace, in registration order.
pub fn all_controller_schemas() -> (v: Vec<ControllerSchema>)
    ensures
        v@.len() == function_names().len(),
        forall|i: int| 0 <= i < v@.len() ==> schema_view(#[trigger] v@[i]) == schema_of(function_names()[i]),
{
    let mut v: Vec<ControllerSchema> = Vec::new();
    v.push(schemas("register_session"));
    v.push(schemas("analyze_session"));
    v.push(schemas("get_session"));
    v.push(schemas("list_sessions"));
    v.push(schemas("set_preset"));
    v.push(schemas("list_presets"));
    v.push(schemas("ask_session"));
    v.push(schemas("draft_clip_metadata"));
    v
}


/// The handler a controller function dispatches to.
#[derive(Clone, Copy, Debug, PartialEq, Eq)]
pub enum ControllerHandler {
    RegisterSession,
    AnalyzeSession,
    GetSession,
    ListSessions,
    SetPreset,
    ListPresets,
    AskSession,
    DraftClipMetadata,
}

/// The function name a handler serves.
pub open spec fn handler_function(h: ControllerHandler) -> Seq<char> {
    match h {
        ControllerHandler::RegisterSession => "register_session"@,
        ControllerHandler::AnalyzeSession => "analyze_session"@,
        ControllerHandler::GetSession => "get_session"@,
        ControllerHandler::ListSessions => "list_sessions"@,
        ControllerHandler::SetPreset => "set_preset"@,
        ControllerHandler::ListPresets => "list_presets"@,
        ControllerHandler::AskSession => "ask_session"@,
        ControllerHandler::DraftClipMetadata => "draft_clip_metadata"@,
    }
}

/// A controller function: its schema and its handler.
#[derive(Debug)]
pub struct RegisteredController {
    pub schema: ControllerSchema,
    pub handler: ControllerHandler,
}

fn registered(function: &'static str, handler: ControllerHandler) -> (c: RegisteredController)
    ensures
        schema_view(c.schema) == schema_of(function@),
        c.handler == handler,
{
    RegisteredController { schema: schemas(function), handler }
}

/// Every function of the namespace with its handler, in registration order;
/// each entry's schema is the one of the function its handler serves.
pub fn all_registered_controllers() -> (v: Vec<RegisteredController>)
    ensures
        v@.len() == function_names().len(),
        forall|i: int| 0 <= i < v@.len() ==> handler_function(#[trigger] v@[i].handler) == function_names()[i],
        forall|i: int| 0 <= i < v@.len() ==> schema_view(#[trigger] v@[i].schema) == schema_of(function_names()[i]),
{
    let mut v: Vec<RegisteredController> = Vec::new();
    v.push(registered("register_session", ControllerHandler::RegisterSession));
    v.push(registered("analyze_session", ControllerHandler::AnalyzeSession));
    v.push(registered("get_session", ControllerHandler::GetSession));
    v.push(registered("list_sessions", ControllerHandler::ListSessions));
    v.push(registered("set_preset", ControllerHandler::SetPreset));
    v.push(registered("list_presets", ControllerHandler::ListPresets));
    v.push(registered("ask_session", ControllerHandler::AskSession));
    v.push(registered("draft_clip_metadata", ControllerHandler::DraftClipMetadata));
    v
}

} // verus!
