//! The tool server: line-delimited JSON-RPC 2.0 requests and their answers.
//!
//! Requests are handled one at a time. Reading and writing lines is left to the
//! caller.

use crate::adaptive;
use crate::chunking::{self, is_whitespace};
use crate::extractor::{self, Extractor};
use crate::fact::{self, Fact};
use crate::hlb::{self, HlbError};
use crate::json::{self, Json};
use crate::kernel::Kernel;
use crate::personal;
use crate::service::{self, MemoryService};
use crate::text::{self, chars_of, same_text, slice_to_string};
use std::sync::Arc;
use vstd::prelude::*;

verus! {

broadcast use vstd::string::group_string_axioms;

/// The version of the protocol that the server speaks.
pub const PROTOCOL_VERSION: &'static str = "2025-03-26";

/// The name that the server gives itself.
pub const SERVER_NAME: &'static str = "memory-plant-rs";

/// The version that the server gives itself.
pub const SERVER_VERSION: &'static str = "0.1.0";

/// The code for a method or a tool that is not there.
pub const METHOD_NOT_FOUND: i32 = -32601;

/// The code for parameters that are missing or of the wrong kind.
pub const INVALID_PARAMS: i32 = -32602;

/// The code for a failure of the store.
pub const INTERNAL: i32 = -32603;

// ---------------------------------------------------------------------
// Errors
// ---------------------------------------------------------------------

/// What a request is refused with.
#[derive(Debug)]
pub struct McpError {
    pub code: i32,
    pub message: String,
}

/// What a refusal says.
#[verifier::ext_equal]
pub struct Fault {
    pub code: int,
    pub message: Seq<char>,
}

impl View for McpError {
    type V = Fault;

    open spec fn view(&self) -> Fault {
        Fault { code: self.code as int, message: self.message@ }
    }
}

/// The refusal of a method or a tool that is not there.
pub open spec fn not_found(method: Seq<char>) -> Fault {
    Fault { code: METHOD_NOT_FOUND as int, message: "method not found: "@ + method }
}

/// The refusal of parameters.
pub open spec fn bad_params(message: Seq<char>) -> Fault {
    Fault { code: INVALID_PARAMS as int, message }
}

/// The refusal for a failure of the store.
pub open spec fn failure(e: HlbError) -> Fault {
    Fault { code: INTERNAL as int, message: hlb::error_text(e) }
}

impl McpError {
    /// The refusal of a method or a tool that is not there.
    pub fn method_not_found(method: &str) -> (r: Self)
        ensures
            r@ == not_found(method@),
    {
        let mut message = String::new();
        message.append("method not found: ");
        message.append(method);
        McpError { code: METHOD_NOT_FOUND, message }
    }

    /// The refusal of parameters.
    pub fn invalid_params(msg: &str) -> (r: Self)
        ensures
            r@ == bad_params(msg@),
    {
        McpError { code: INVALID_PARAMS, message: msg.to_string() }
    }

    /// The refusal for a failure of the store.
    pub fn internal(e: HlbError) -> (r: Self)
        ensures
            r@ == failure(e),
    {
        McpError { code: INTERNAL, message: e.message() }
    }
}

/// The value or the refusal in a result.
pub open spec fn outcome(r: Result<Json, McpError>) -> Result<json::Tree, Fault> {
    match r {
        Ok(j) => Ok(j@),
        Err(e) => Err(e@),
    }
}

// ---------------------------------------------------------------------
// Handshake and tool catalog
// ---------------------------------------------------------------------

/// What the server says of itself.
pub open spec fn initialize_value() -> json::Tree {
    json::Tree::Object(
        seq![
            ("protocolVersion"@, json::Tree::Text(PROTOCOL_VERSION@)),
            (
                "capabilities"@,
                json::Tree::Object(seq![("tools"@, json::Tree::Object(Seq::empty()))]),
            ),
            (
                "serverInfo"@,
                json::Tree::Object(
                    seq![
                        ("name"@, json::Tree::Text(SERVER_NAME@)),
                        ("version"@, json::Tree::Text(SERVER_VERSION@)),
                    ],
                ),
            ),
        ],
    )
}

/// What the server says of itself.
pub fn initialize_result() -> (r: Json)
    ensures
        r@ == initialize_value(),
{
    Json::object3(
        "protocolVersion",
        Json::text(PROTOCOL_VERSION),
        "capabilities",
        Json::object1("tools", Json::empty()),
        "serverInfo",
        Json::object2("name", Json::text(SERVER_NAME), "version", Json::text(SERVER_VERSION)),
    )
}

/// The type of a text.
pub open spec fn plain_text() -> json::Tree {
    json::Tree::Object(seq![("type"@, json::Tree::Text("string"@))])
}

/// The type of a text with a remark.
pub open spec fn described_text(remark: Seq<char>) -> json::Tree {
    json::Tree::Object(
        seq![
            ("type"@, json::Tree::Text("string"@)),
            ("description"@, json::Tree::Text(remark)),
        ],
    )
}

/// The type of an object with the given properties, of which some are required.
pub open spec fn schema_value(
    properties: Seq<(Seq<char>, json::Tree)>,
    required: Seq<Seq<char>>,
) -> json::Tree {
    let kind = ("type"@, json::Tree::Text("object"@));
    let props = ("properties"@, json::Tree::Object(properties));
    if required.len() == 0 {
        json::Tree::Object(seq![kind, props])
    } else {
        json::Tree::Object(
            seq![kind, props, ("required"@, json::Tree::Array(json::text_values(required)))],
        )
    }
}

/// A tool of the catalog.
pub open spec fn tool_value(
    name: Seq<char>,
    description: Seq<char>,
    schema: json::Tree,
) -> json::Tree {
    json::Tree::Object(
        seq![
            ("name"@, json::Tree::Text(name)),
            ("description"@, json::Tree::Text(description)),
            ("inputSchema"@, schema),
        ],
    )
}

/// The tools.
pub open spec fn catalog() -> Seq<json::Tree> {
    seq![
        tool_value(
            "mp_stats"@,
            "Service-wide statistics — number of users, total facts."@,
            schema_value(seq![], seq![]),
        ),
        tool_value(
            "mp_recall_fact"@,
            "Look up a stored fact by predicate. Returns null if missing."@,
            schema_value(seq![("predicate"@, plain_text()), ("subject"@, described_text("default 'user'"@)), ("user_id"@, plain_text())], seq!["predicate"@]),
        ),
        tool_value(
            "mp_store_fact"@,
            "Direct (predicate, value) write, no LLM extraction."@,
            schema_value(seq![("predicate"@, plain_text()), ("value"@, plain_text()), ("subject"@, plain_text()), ("user_id"@, plain_text())], seq!["predicate"@, "value"@]),
        ),
        tool_value(
            "mp_ingest_message"@,
            "Extract facts from natural language via configured extractor."@,
            schema_value(seq![("message"@, plain_text()), ("user_id"@, plain_text())], seq!["message"@]),
        ),
        tool_value(
            "mp_forget_fact"@,
            "Algebraic forget for a single (subject, predicate) — provable, residual ≈ 0."@,
            schema_value(seq![("predicate"@, plain_text()), ("subject"@, plain_text()), ("user_id"@, plain_text())], seq!["predicate"@]),
        ),
        tool_value(
            "mp_forget_user"@,
            "GDPR Article 17 — erase every fact for a user."@,
            schema_value(seq![("user_id"@, plain_text())], seq![]),
        ),
        tool_value(
            "mp_export_user"@,
            "GDPR Article 15 — return everything we know about a user."@,
            schema_value(seq![("user_id"@, plain_text())], seq![]),
        ),
    ]
}

/// What the tools are listed as.
pub open spec fn tools_value() -> json::Tree {
    json::Tree::Object(seq![("tools"@, json::Tree::Array(catalog()))])
}

fn text_type() -> (r: Json)
    ensures
        r@ == plain_text(),
{
    Json::object1("type", Json::text("string"))
}

fn described_type(remark: &str) -> (r: Json)
    ensures
        r@ == described_text(remark@),
{
    Json::object2("type", Json::text("string"), "description", Json::text(remark))
}

fn schema(properties: Vec<(String, Json)>, required: Vec<String>) -> (r: Json)
    ensures
        r@ == schema_value(json::members(properties@), text::texts(required@)),
{
    let props = Json::object(properties);
    if required.len() == 0 {
        Json::object2("type", Json::text("object"), "properties", props)
    } else {
        Json::object3(
            "type",
            Json::text("object"),
            "properties",
            props,
            "required",
            Json::text_array(&required),
        )
    }
}

/// A tool of the catalog.
pub fn tool_def(name: &str, description: &str, schema: Json) -> (r: Json)
    ensures
        r@ == tool_value(name@, description@, schema@),
{
    Json::object3(
        "name",
        Json::text(name),
        "description",
        Json::text(description),
        "inputSchema",
        schema,
    )
}

fn schema_stats() -> (r: Json)
    ensures
        r@ == schema_value(seq![], seq![]),
{
    let props: Vec<(String, Json)> = Vec::new();
    let required: Vec<String> = Vec::new();
    assert(json::members(props@) =~= seq![]);
    assert(text::texts(required@) =~= seq![]);
    schema(props, required)
}

fn schema_recall_fact() -> (r: Json)
    ensures
        r@ == schema_value(seq![("predicate"@, plain_text()), ("subject"@, described_text("default 'user'"@)), ("user_id"@, plain_text())], seq!["predicate"@]),
{
    let mut props: Vec<(String, Json)> = Vec::new();
    props.push(("predicate".to_string(), text_type()));
    props.push(("subject".to_string(), described_type("default 'user'")));
    props.push(("user_id".to_string(), text_type()));
    let mut required: Vec<String> = Vec::new();
    required.push("predicate".to_string());
    assert(json::members(props@) =~= seq![("predicate"@, plain_text()), ("subject"@, described_text("default 'user'"@)), ("user_id"@, plain_text())]);
    assert(text::texts(required@) =~= seq!["predicate"@]);
    schema(props, required)
}

fn schema_store_fact() -> (r: Json)
    ensures
        r@ == schema_value(seq![("predicate"@, plain_text()), ("value"@, plain_text()), ("subject"@, plain_text()), ("user_id"@, plain_text())], seq!["predicate"@, "value"@]),
{
    let mut props: Vec<(String, Json)> = Vec::new();
    props.push(("predicate".to_string(), text_type()));
    props.push(("value".to_string(), text_type()));
    props.push(("subject".to_string(), text_type()));
    props.push(("user_id".to_string(), text_type()));
    let mut required: Vec<String> = Vec::new();
    required.push("predicate".to_string());
    required.push("value".to_string());
    assert(json::members(props@) =~= seq![("predicate"@, plain_text()), ("value"@, plain_text()), ("subject"@, plain_text()), ("user_id"@, plain_text())]);
    assert(text::texts(required@) =~= seq!["predicate"@, "value"@]);
    schema(props, required)
}

fn schema_ingest_message() -> (r: Json)
    ensures
        r@ == schema_value(seq![("message"@, plain_text()), ("user_id"@, plain_text())], seq!["message"@]),
{
    let mut props: Vec<(String, Json)> = Vec::new();
    props.push(("message".to_string(), text_type()));
    props.push(("user_id".to_string(), text_type()));
    let mut required: Vec<String> = Vec::new();
    required.push("message".to_string());
    assert(json::members(props@) =~= seq![("message"@, plain_text()), ("user_id"@, plain_text())]);
    assert(text::texts(required@) =~= seq!["message"@]);
    schema(props, required)
}

fn schema_forget_fact() -> (r: Json)
    ensures
        r@ == schema_value(seq![("predicate"@, plain_text()), ("subject"@, plain_text()), ("user_id"@, plain_text())], seq!["predicate"@]),
{
    let mut props: Vec<(String, Json)> = Vec::new();
    props.push(("predicate".to_string(), text_type()));
    props.push(("subject".to_string(), text_type()));
    props.push(("user_id".to_string(), text_type()));
    let mut required: Vec<String> = Vec::new();
    required.push("predicate".to_string());
    assert(json::members(props@) =~= seq![("predicate"@, plain_text()), ("subject"@, plain_text()), ("user_id"@, plain_text())]);
    assert(text::texts(required@) =~= seq!["predicate"@]);
    schema(props, required)
}

fn schema_forget_user() -> (r: Json)
    ensures
        r@ == schema_value(seq![("user_id"@, plain_text())], seq![]),
{
    let mut props: Vec<(String, Json)> = Vec::new();
    props.push(("user_id".to_string(), text_type()));
    let required: Vec<String> = Vec::new();
    assert(json::members(props@) =~= seq![("user_id"@, plain_text())]);
    assert(text::texts(required@) =~= seq![]);
    schema(props, required)
}

fn schema_export_user() -> (r: Json)
    ensures
        r@ == schema_value(seq![("user_id"@, plain_text())], seq![]),
{
    let mut props: Vec<(String, Json)> = Vec::new();
    props.push(("user_id".to_string(), text_type()));
    let required: Vec<String> = Vec::new();
    assert(json::members(props@) =~= seq![("user_id"@, plain_text())]);
    assert(text::texts(required@) =~= seq![]);
    schema(props, required)
}

/// The list of tools.
pub fn tools_list_result() -> (r: Json)
    ensures
        r@ == tools_value(),
{
    let mut tools: Vec<Json> = Vec::new();
    tools.push(tool_def(
        "mp_stats",
        "Service-wide statistics — number of users, total facts.",
        schema_stats(),
    ));
    tools.push(tool_def(
        "mp_recall_fact",
        "Look up a stored fact by predicate. Returns null if missing.",
        schema_recall_fact(),
    ));
    tools.push(tool_def(
        "mp_store_fact",
        "Direct (predicate, value) write, no LLM extraction.",
        schema_store_fact(),
    ));
    tools.push(tool_def(
        "mp_ingest_message",
        "Extract facts from natural language via configured extractor.",
        schema_ingest_message(),
    ));
    tools.push(tool_def(
        "mp_forget_fact",
        "Algebraic forget for a single (subject, predicate) — provable, residual ≈ 0.",
        schema_forget_fact(),
    ));
    tools.push(tool_def(
        "mp_forget_user",
        "GDPR Article 17 — erase every fact for a user.",
        schema_forget_user(),
    ));
    tools.push(tool_def(
        "mp_export_user",
        "GDPR Article 15 — return everything we know about a user.",
        schema_export_user(),
    ));
    assert(json::values(tools@) =~= catalog());
    Json::object1("tools", Json::array(tools))
}

// ---------------------------------------------------------------------
// What the tools do
// ---------------------------------------------------------------------

/// The server's state. Answers are saved below the state directory.
pub struct ServerCtx<K, X, F> {
    pub service: MemoryService<K, X, F>,
    pub default_user: String,
    pub state_dir: String,
}

/// The arguments of a tool call. Missing arguments are an object without
/// members.
pub open spec fn arguments(params: json::Tree) -> json::Tree {
    match json::field(params, "arguments"@) {
        Some(a) => a,
        None => json::Tree::Object(Seq::empty()),
    }
}

/// The user that a tool call is about.
pub open spec fn addressee(args: json::Tree, default_user: Seq<char>) -> Seq<char> {
    match json::text_field(args, "user_id"@) {
        Some(u) => u,
        None => default_user,
    }
}

/// The subject that a tool call is about.
pub open spec fn subject_of(args: json::Tree) -> Seq<char> {
    match json::text_field(args, "subject"@) {
        Some(s) => s,
        None => personal::SELF_SUBJECT@,
    }
}

/// The counters of a service.
pub open spec fn stats_value(v: service::ServiceState) -> json::Tree {
    json::Tree::Object(
        seq![
            ("n_users"@, json::Tree::Number(text::decimal(v.users.len()))),
            ("total_facts"@, json::Tree::Number(text::decimal(service::fact_total(v.users)))),
            ("dim"@, json::Tree::Number(text::decimal(v.dim))),
            ("vocab_cap"@, json::Tree::Number(text::decimal(v.vocab_cap))),
            (
                "user_ids"@,
                json::Tree::Array(
                    json::text_values(v.users.map_values(|u: service::UserState| u.id)),
                ),
            ),
        ],
    )
}

/// The memory of a new user cannot be made, and nothing changes.
pub open spec fn unopened<K: Kernel>(
    k: K,
    v: service::ServiceState,
    uid: Seq<char>,
    w: service::ServiceState,
    r: Result<json::Tree, Fault>,
) -> bool {
    &&& !service::has_user(v.users, uid)
    &&& adaptive::some_row_vanishes(k, v.vocab_cap, v.dim, service::VOCAB_SEED)
    &&& w == v
    &&& r == Err::<json::Tree, Fault>(failure(HlbError::ZeroNorm))
}

/// `value` is what a memory tells under a key, if anything.
pub open spec fn recalled<K: Kernel>(
    k: K,
    m: personal::PersonalState,
    key: Seq<char>,
    value: Option<Seq<char>>,
) -> bool {
    match value {
        Some(t) => m.store.knows(key) && adaptive::read_gives(k, m.store, key, t),
        None => !m.store.knows(key),
    }
}

/// A text, or null.
pub open spec fn text_or_null(value: Option<Seq<char>>) -> json::Tree {
    match value {
        Some(t) => json::Tree::Text(t),
        None => json::Tree::Null,
    }
}

/// A relation with its value, or with null.
pub open spec fn recall_value(predicate: Seq<char>, value: Option<Seq<char>>) -> json::Tree {
    json::Tree::Object(
        seq![
            ("predicate"@, json::Tree::Text(predicate)),
            ("value"@, text_or_null(value)),
        ],
    )
}

/// What looking up a fact in a memory comes to.
pub open spec fn recall_in_memory<K: Kernel>(
    k: K,
    subject: Seq<char>,
    predicate: Seq<char>,
    uid: Seq<char>,
    v: service::ServiceState,
    w: service::ServiceState,
    r: Result<json::Tree, Fault>,
) -> bool {
    exists|u: service::UserState, value: Option<Seq<char>>|
        #![trigger service::at_hand(k, v, uid, u), recall_value(predicate, value)]
        {
            &&& service::at_hand(k, v, uid, u)
            &&& recalled(
                k,
                u.memory,
                fact::fact_key(u.memory.user, subject, predicate),
                value,
            )
            &&& w == service::memory_put(v, u, u.memory)
            &&& r == Ok::<json::Tree, Fault>(recall_value(predicate, value))
        }
}

/// What looking up a fact comes to.
pub open spec fn recall_gives<K: Kernel>(
    k: K,
    args: json::Tree,
    uid: Seq<char>,
    v: service::ServiceState,
    w: service::ServiceState,
    r: Result<json::Tree, Fault>,
) -> bool {
    match json::text_field(args, "predicate"@) {
        None => w == v && r == Err::<json::Tree, Fault>(bad_params("predicate required"@)),
        Some(predicate) => {
            ||| unopened(k, v, uid, w, r)
            ||| recall_in_memory(k, subject_of(args), predicate, uid, v, w, r)
        },
    }
}

/// The fact that a tool call states.
pub open spec fn stated_fact(
    subject: Seq<char>,
    predicate: Seq<char>,
    value: Seq<char>,
) -> fact::FactState {
    fact::FactState {
        subject: text::lowered(subject),
        predicate: text::lowered(predicate),
        obj: text::lowered(value),
        source: text::prefix("direct"@, fact::SOURCE_CHARS as nat),
    }
}

/// What is answered where a step of the store went well.
pub open spec fn done_or_failure(
    step: Result<(), HlbError>,
    value: json::Tree,
) -> Result<json::Tree, Fault> {
    match step {
        Ok(_) => Ok(value),
        Err(e) => Err(failure(e)),
    }
}

/// What storing a fact in a memory comes to.
pub open spec fn store_in_memory<K: Kernel>(
    k: K,
    f: fact::FactState,
    uid: Seq<char>,
    v: service::ServiceState,
    w: service::ServiceState,
    r: Result<json::Tree, Fault>,
) -> bool {
    exists|
        u: service::UserState,
        m: personal::PersonalState,
        step: Result<(), HlbError>,
    |
        #![trigger service::at_hand(k, v, uid, u), personal::fact_stored(k, u.memory, f, m, step)]
        {
            &&& service::at_hand(k, v, uid, u)
            &&& personal::fact_stored(
                k,
                u.memory,
                f,
                m,
                step,
            )
            &&& w == service::memory_put(v, u, m)
            &&& r == done_or_failure(
                step,
                json::Tree::Object(seq![("status"@, json::Tree::Text("stored"@))]),
            )
        }
}

/// What storing a fact comes to.
pub open spec fn store_gives<K: Kernel>(
    k: K,
    args: json::Tree,
    uid: Seq<char>,
    v: service::ServiceState,
    w: service::ServiceState,
    r: Result<json::Tree, Fault>,
) -> bool {
    match (json::text_field(args, "predicate"@), json::text_field(args, "value"@)) {
        (None, _) => w == v && r == Err::<json::Tree, Fault>(bad_params("predicate required"@)),
        (Some(_), None) => w == v && r == Err::<json::Tree, Fault>(bad_params("value required"@)),
        (Some(predicate), Some(value)) => {
            ||| unopened(k, v, uid, w, r)
            ||| store_in_memory(k, stated_fact(subject_of(args), predicate, value), uid, v, w, r)
        },
    }
}

/// A fact that was read in a message.
pub open spec fn fact_value(f: fact::FactState) -> json::Tree {
    json::Tree::Object(
        seq![
            ("subject"@, json::Tree::Text(f.subject)),
            ("predicate"@, json::Tree::Text(f.predicate)),
            ("obj"@, json::Tree::Text(f.obj)),
        ],
    )
}

/// The facts that were read in a message, with their number.
pub open spec fn ingest_value(facts: Seq<fact::FactState>) -> json::Tree {
    json::Tree::Object(
        seq![
            ("extracted"@, json::Tree::Number(text::decimal(facts.len()))),
            (
                "facts"@,
                json::Tree::Array(facts.map_values(|f: fact::FactState| fact_value(f))),
            ),
        ],
    )
}

/// What reading a message into a memory comes to.
pub open spec fn ingest_in_memory<K: Kernel, X: Extractor, F: Fn() -> Arc<X>>(
    k: K,
    factory: F,
    message: Seq<char>,
    uid: Seq<char>,
    v: service::ServiceState,
    w: service::ServiceState,
    r: Result<json::Tree, Fault>,
) -> bool {
    exists|
        u: service::UserState,
        x: X,
        facts: Seq<fact::FactState>,
        m: personal::PersonalState,
        step: Result<(), HlbError>,
    |
        #![trigger service::at_hand(k, v, uid, u), extractor::extracted(x, message, facts), personal::facts_stored(k, u.memory, facts, m, step)]
        {
            &&& service::at_hand(k, v, uid, u)
            &&& service::is_made(factory, x)
            &&& extractor::extracted(x, message, facts)
            &&& personal::facts_stored(k, u.memory, facts, m, step)
            &&& w == service::memory_put(v, u, m)
            &&& r == done_or_failure(
                step,
                ingest_value(personal::new_facts(u.memory.schema, facts)),
            )
        }
}

/// What reading a message comes to.
pub open spec fn ingest_gives<K: Kernel, X: Extractor, F: Fn() -> Arc<X>>(
    k: K,
    factory: F,
    args: json::Tree,
    uid: Seq<char>,
    v: service::ServiceState,
    w: service::ServiceState,
    r: Result<json::Tree, Fault>,
) -> bool {
    match json::text_field(args, "message"@) {
        None => w == v && r == Err::<json::Tree, Fault>(bad_params("message required"@)),
        Some(message) => {
            ||| unopened(k, v, uid, w, r)
            ||| ingest_in_memory(k, factory, message, uid, v, w, r)
        },
    }
}

/// Whether a fact was forgotten.
pub open spec fn forget_value(removed: bool) -> json::Tree {
    json::Tree::Object(
        seq![
            ("removed"@, json::Tree::Bool(removed)),
            ("residual_note"@, json::Tree::Text("~0.001 (HLB algebraic)"@)),
        ],
    )
}

/// What forgetting a fact in a memory comes to.
pub open spec fn forget_in_memory<K: Kernel>(
    k: K,
    subject: Seq<char>,
    predicate: Seq<char>,
    uid: Seq<char>,
    v: service::ServiceState,
    w: service::ServiceState,
    r: Result<json::Tree, Fault>,
) -> bool {
    exists|
        u: service::UserState,
        after: adaptive::StoreState,
        step: Result<bool, HlbError>,
    |
        #![trigger service::at_hand(k, v, uid, u), adaptive::forgotten_gives(k, u.memory.store, fact::fact_key(u.memory.user, subject, predicate), after, step)]
        {
            &&& service::at_hand(k, v, uid, u)
            &&& adaptive::forgotten_gives(
                k,
                u.memory.store,
                fact::fact_key(u.memory.user, subject, predicate),
                after,
                step,
            )
            &&& w == service::memory_put(
                v,
                u,
                personal::PersonalState { store: after, ..u.memory },
            )
            &&& r == match step {
                Ok(removed) => Ok::<json::Tree, Fault>(forget_value(removed)),
                Err(e) => Err::<json::Tree, Fault>(failure(e)),
            }
        }
}

/// What forgetting a fact comes to.
pub open spec fn forget_gives<K: Kernel>(
    k: K,
    args: json::Tree,
    uid: Seq<char>,
    v: service::ServiceState,
    w: service::ServiceState,
    r: Result<json::Tree, Fault>,
) -> bool {
    match json::text_field(args, "predicate"@) {
        None => w == v && r == Err::<json::Tree, Fault>(bad_params("predicate required"@)),
        Some(predicate) => {
            ||| unopened(k, v, uid, w, r)
            ||| forget_in_memory(k, subject_of(args), predicate, uid, v, w, r)
        },
    }
}

/// Whether a user was taken out.
pub open spec fn removal_value(uid: Seq<char>, dropped: bool) -> json::Tree {
    json::Tree::Object(
        seq![("user_id"@, json::Tree::Text(uid)), ("dropped"@, json::Tree::Bool(dropped))],
    )
}

/// The service without a user.
pub open spec fn user_removed(v: service::ServiceState, uid: Seq<char>) -> service::ServiceState {
    if service::has_user(v.users, uid) {
        service::ServiceState {
            users: v.users.remove(service::seat(v.users, uid) as int),
            ..v
        }
    } else {
        v
    }
}

/// Pairs of texts as the members of an object.
pub open spec fn pair_members(v: Seq<(Seq<char>, Seq<char>)>) -> Seq<(Seq<char>, json::Tree)> {
    v.map_values(|p: (Seq<char>, Seq<char>)| (p.0, json::Tree::Text(p.1)))
}

/// A schema as the members of an object.
pub open spec fn schema_members(v: Seq<(Seq<char>, Seq<Seq<char>>)>) -> Seq<
    (Seq<char>, json::Tree),
> {
    v.map_values(
        |p: (Seq<char>, Seq<Seq<char>>)| (p.0, json::Tree::Array(json::text_values(p.1))),
    )
}

/// Everything that is known about a user.
pub open spec fn export_value(
    uid: Seq<char>,
    facts: Seq<(Seq<char>, Seq<char>)>,
    schema: Seq<(Seq<char>, Seq<Seq<char>>)>,
) -> json::Tree {
    json::Tree::Object(
        seq![
            ("user_id"@, json::Tree::Text(uid)),
            ("facts"@, json::Tree::Object(pair_members(facts))),
            ("schema"@, json::Tree::Object(schema_members(schema))),
        ],
    )
}

/// What exporting a user comes to.
pub open spec fn export_gives<K: Kernel>(
    k: K,
    uid: Seq<char>,
    v: service::ServiceState,
    w: service::ServiceState,
    r: Result<json::Tree, Fault>,
) -> bool {
    ||| unopened(k, v, uid, w, r)
    ||| exists|u: service::UserState, p: Seq<Seq<int>>|
        #![trigger service::at_hand(k, v, uid, u), personal::shards_decoded(k, u.memory.store, u.memory.store.shards.len(), p)]
        {
            &&& service::at_hand(k, v, uid, u)
            &&& personal::shards_decoded(k, u.memory.store, u.memory.store.shards.len(), p)
            &&& w == service::memory_put(v, u, u.memory)
            &&& r == Ok::<json::Tree, Fault>(
                export_value(
                    uid,
                    personal::listing_of(
                        u.memory.store,
                        p,
                        personal::user_prefix(u.memory.user),
                        u.memory.store.shards.len(),
                    ),
                    u.memory.schema,
                ),
            )
        }
}

/// What calling a tool by its name comes to.
pub open spec fn tool_gives<K: Kernel, X: Extractor, F: Fn() -> Arc<X>>(
    k: K,
    factory: F,
    name: Seq<char>,
    args: json::Tree,
    uid: Seq<char>,
    v: service::ServiceState,
    w: service::ServiceState,
    r: Result<json::Tree, Fault>,
) -> bool {
    if name == "mp_stats"@ {
        w == v && r == Ok::<json::Tree, Fault>(stats_value(v))
    } else if name == "mp_recall_fact"@ {
        recall_gives(k, args, uid, v, w, r)
    } else if name == "mp_store_fact"@ {
        store_gives(k, args, uid, v, w, r)
    } else if name == "mp_ingest_message"@ {
        ingest_gives(k, factory, args, uid, v, w, r)
    } else if name == "mp_forget_fact"@ {
        forget_gives(k, args, uid, v, w, r)
    } else if name == "mp_forget_user"@ {
        w == user_removed(v, uid) && r == Ok::<json::Tree, Fault>(
            removal_value(uid, service::has_user(v.users, uid)),
        )
    } else if name == "mp_export_user"@ {
        export_gives(k, uid, v, w, r)
    } else {
        w == v && r == Err::<json::Tree, Fault>(not_found(name))
    }
}

/// What a tool call comes to.
pub open spec fn call_gives<K: Kernel, X: Extractor, F: Fn() -> Arc<X>>(
    k: K,
    factory: F,
    default_user: Seq<char>,
    params: Option<json::Tree>,
    v: service::ServiceState,
    w: service::ServiceState,
    r: Result<json::Tree, Fault>,
) -> bool {
    match params {
        None => w == v && r == Err::<json::Tree, Fault>(bad_params("missing params"@)),
        Some(p) => match json::text_field(p, "name"@) {
            None => w == v && r == Err::<json::Tree, Fault>(bad_params("missing tool name"@)),
            Some(name) => tool_gives(
                k,
                factory,
                name,
                arguments(p),
                addressee(arguments(p), default_user),
                v,
                w,
                r,
            ),
        },
    }
}

/// The counters of a service.
fn stats_tool<K: Kernel, X: Extractor, F: Fn() -> Arc<X>>(svc: &MemoryService<K, X, F>) -> (r: Json)
    requires
        svc.wf(),
        service::fact_total(svc@.users) <= usize::MAX,
    ensures
        r@ == stats_value(svc@),
{
    let mut m: Vec<(String, Json)> = Vec::new();
    m.push(("n_users".to_string(), Json::number(svc.n_users() as u64)));
    m.push(("total_facts".to_string(), Json::number(svc.total_facts() as u64)));
    m.push(("dim".to_string(), Json::number(svc.dim() as u64)));
    m.push(("vocab_cap".to_string(), Json::number(svc.vocab_cap() as u64)));
    m.push(("user_ids".to_string(), Json::text_array(&svc.user_ids())));
    assert(json::members(m@) =~= stats_value(svc@)->Object_0);
    Json::object(m)
}

/// Looks a fact up.
fn recall_tool<K: Kernel, X: Extractor, F: Fn() -> Arc<X>>(
    svc: &mut MemoryService<K, X, F>,
    args: &Json,
    uid: &str,
) -> (r: Result<Json, McpError>)
    requires
        old(svc).wf(),
    ensures
        final(svc).wf(),
        final(svc).arithmetic() == old(svc).arithmetic(),
        final(svc).factory() == old(svc).factory(),
        recall_gives(
            old(svc).arithmetic(),
            args@,
            uid@,
            old(svc)@,
            final(svc)@,
            outcome(r),
        ),
{
    let predicate = match args.get_text("predicate") {
        Some(p) => p,
        None => return Err(McpError::invalid_params("predicate required")),
    };
    let subject = args.get_text("subject");
    let ghost k = svc.arithmetic();
    let ghost v = svc@;
    let pm = match svc.user(uid) {
        Ok(m) => m,
        Err(e) => return Err(McpError::internal(e)),
    };
    let ghost m = pm@;
    let value = match pm.recall(predicate, subject) {
        Ok(x) => x,
        Err(e) => return Err(McpError::internal(e)),
    };
    let ghost told = match &value {
        Some(t) => Some(t@),
        None => None,
    };
    assert(personal::subject_or_self(subject) == subject_of(args@));
    assert(recalled(
        k,
        m,
        fact::fact_key(m.user, subject_of(args@), predicate@),
        told,
    ));
    let shown = match value {
        Some(t) => Json::Text(t),
        None => Json::Null,
    };
    let r = Json::object2("predicate", Json::text(predicate), "value", shown);
    assert(r@ == recall_value(predicate@, told));
    Ok(r)
}

/// Stores a fact.
fn store_tool<K: Kernel, X: Extractor, F: Fn() -> Arc<X>>(
    svc: &mut MemoryService<K, X, F>,
    args: &Json,
    uid: &str,
) -> (r: Result<Json, McpError>)
    requires
        old(svc).wf(),
    ensures
        final(svc).wf(),
        final(svc).arithmetic() == old(svc).arithmetic(),
        final(svc).factory() == old(svc).factory(),
        store_gives(
            old(svc).arithmetic(),
            args@,
            uid@,
            old(svc)@,
            final(svc)@,
            outcome(r),
        ),
{
    let predicate = match args.get_text("predicate") {
        Some(p) => p,
        None => return Err(McpError::invalid_params("predicate required")),
    };
    let value = match args.get_text("value") {
        Some(p) => p,
        None => return Err(McpError::invalid_params("value required")),
    };
    let subject = match args.get_text("subject") {
        Some(s) => s,
        None => personal::SELF_SUBJECT,
    };
    let fact = Fact::new(subject, predicate, value, "direct");
    assert(fact@ == stated_fact(subject_of(args@), predicate@, value@));
    let pm = match svc.user(uid) {
        Ok(m) => m,
        Err(e) => return Err(McpError::internal(e)),
    };
    match pm.store_fact(&fact) {
        Ok(_) => Ok(Json::object1("status", Json::text("stored"))),
        Err(e) => Err(McpError::internal(e)),
    }
}

/// Facts as values.
fn fact_list(facts: &Vec<Fact>) -> (r: Json)
    ensures
        r@ == json::Tree::Array(
            extractor::fact_states(facts@).map_values(|f: fact::FactState| fact_value(f)),
        ),
{
    let mut list: Vec<Json> = Vec::with_capacity(facts.len());
    let mut i: usize = 0;
    while i < facts.len()
        invariant
            i <= facts@.len(),
            list@.len() == i,
            forall|j: int| 0 <= j < i ==> (#[trigger] list@[j])@ == fact_value(facts@[j]@),
        decreases facts@.len() - i,
    {
        let f = &facts[i];
        list.push(
            Json::object3(
                "subject",
                Json::text(&f.subject),
                "predicate",
                Json::text(&f.predicate),
                "obj",
                Json::text(&f.obj),
            ),
        );
        i += 1;
    }
    assert(json::values(list@) =~= extractor::fact_states(facts@).map_values(
        |f: fact::FactState| fact_value(f),
    ));
    Json::array(list)
}

/// Reads the facts in a message and stores them.
fn ingest_tool<K: Kernel, X: Extractor, F: Fn() -> Arc<X>>(
    svc: &mut MemoryService<K, X, F>,
    args: &Json,
    uid: &str,
) -> (r: Result<Json, McpError>)
    requires
        old(svc).wf(),
    ensures
        final(svc).wf(),
        final(svc).arithmetic() == old(svc).arithmetic(),
        final(svc).factory() == old(svc).factory(),
        ingest_gives(
            old(svc).arithmetic(),
            old(svc).factory(),
            args@,
            uid@,
            old(svc)@,
            final(svc)@,
            outcome(r),
        ),
{
    let message = match args.get_text("message") {
        Some(p) => p,
        None => return Err(McpError::invalid_params("message required")),
    };
    let ghost k = svc.arithmetic();
    let ghost v = svc@;
    let pm = match svc.user(uid) {
        Ok(m) => m,
        Err(e) => return Err(McpError::internal(e)),
    };
    let ghost m = pm@;
    let ghost x = pm.reader();
    let told = pm.ingest(message);
    let ghost after = pm@;
    proof {
        let facts = choose|facts: Vec<Fact>|
            #![trigger call_ensures(X::extract, (&x, message), facts)]
            call_ensures(X::extract, (&x, message), facts) && personal::read_in(
                k,
                m,
                extractor::fact_states(facts@),
                after,
                told,
            );
        let step = choose|step: Result<(), HlbError>| #[trigger]
            personal::facts_stored(k, m, extractor::fact_states(facts@), after, step)
                && match step {
                Ok(_) => told matches Ok(list) && extractor::fact_states(list@)
                    == personal::new_facts(m.schema, extractor::fact_states(facts@)),
                Err(e) => told == Err::<Vec<Fact>, HlbError>(e),
            };
        assert(extractor::extracted(x, message@, extractor::fact_states(facts@)));
        assert(personal::facts_stored(k, m, extractor::fact_states(facts@), after, step));
    }
    match told {
        Ok(facts) => {
            let n = facts.len() as u64;
            let list = fact_list(&facts);
            Ok(Json::object2("extracted", Json::number(n), "facts", list))
        },
        Err(e) => Err(McpError::internal(e)),
    }
}

/// Forgets a fact.
fn forget_tool<K: Kernel, X: Extractor, F: Fn() -> Arc<X>>(
    svc: &mut MemoryService<K, X, F>,
    args: &Json,
    uid: &str,
) -> (r: Result<Json, McpError>)
    requires
        old(svc).wf(),
    ensures
        final(svc).wf(),
        final(svc).arithmetic() == old(svc).arithmetic(),
        final(svc).factory() == old(svc).factory(),
        forget_gives(
            old(svc).arithmetic(),
            args@,
            uid@,
            old(svc)@,
            final(svc)@,
            outcome(r),
        ),
{
    let predicate = match args.get_text("predicate") {
        Some(p) => p,
        None => return Err(McpError::invalid_params("predicate required")),
    };
    let subject = args.get_text("subject");
    assert(personal::subject_or_self(subject) == subject_of(args@));
    let pm = match svc.user(uid) {
        Ok(m) => m,
        Err(e) => return Err(McpError::internal(e)),
    };
    match pm.forget(predicate, subject) {
        Ok(removed) => Ok(
            Json::object2(
                "removed",
                Json::Bool(removed),
                "residual_note",
                Json::text("~0.001 (HLB algebraic)"),
            ),
        ),
        Err(e) => Err(McpError::internal(e)),
    }
}

/// Pairs of texts as an object.
fn pair_object(v: &Vec<(String, String)>) -> (r: Json)
    ensures
        r@ == json::Tree::Object(pair_members(text::pair_texts(v@))),
{
    let mut m: Vec<(String, Json)> = Vec::with_capacity(v.len());
    let mut i: usize = 0;
    while i < v.len()
        invariant
            i <= v@.len(),
            m@.len() == i,
            forall|j: int|
                0 <= j < i ==> (#[trigger] m@[j]).0@ == v@[j].0@ && m@[j].1@ == json::Tree::Text(
                    v@[j].1@,
                ),
        decreases v@.len() - i,
    {
        m.push((v[i].0.clone(), Json::text(&v[i].1)));
        i += 1;
    }
    assert(json::members(m@) =~= pair_members(text::pair_texts(v@)));
    Json::object(m)
}

/// A schema as an object.
fn schema_object(v: &Vec<(String, Vec<String>)>) -> (r: Json)
    ensures
        r@ == json::Tree::Object(schema_members(personal::schema_state(v@))),
{
    let mut m: Vec<(String, Json)> = Vec::with_capacity(v.len());
    let mut i: usize = 0;
    while i < v.len()
        invariant
            i <= v@.len(),
            m@.len() == i,
            forall|j: int|
                0 <= j < i ==> (#[trigger] m@[j]).0@ == v@[j].0@ && m@[j].1@ == json::Tree::Array(
                    json::text_values(text::texts(v@[j].1@)),
                ),
        decreases v@.len() - i,
    {
        m.push((v[i].0.clone(), Json::text_array(&v[i].1)));
        i += 1;
    }
    assert(json::members(m@) =~= schema_members(personal::schema_state(v@)));
    Json::object(m)
}

/// Tells everything that is known about a user.
fn export_tool<K: Kernel, X: Extractor, F: Fn() -> Arc<X>>(
    svc: &mut MemoryService<K, X, F>,
    uid: &str,
) -> (r: Result<Json, McpError>)
    requires
        old(svc).wf(),
    ensures
        final(svc).wf(),
        final(svc).arithmetic() == old(svc).arithmetic(),
        final(svc).factory() == old(svc).factory(),
        export_gives(
            old(svc).arithmetic(),
            uid@,
            old(svc)@,
            final(svc)@,
            outcome(r),
        ),
{
    let pm = match svc.user(uid) {
        Ok(m) => m,
        Err(e) => return Err(McpError::internal(e)),
    };
    let facts = match pm.all_facts() {
        Ok(x) => x,
        Err(e) => return Err(McpError::internal(e)),
    };
    let listed = pair_object(&facts);
    let schema = schema_object(pm.schema());
    Ok(Json::object3("user_id", Json::text(uid), "facts", listed, "schema", schema))
}

// ---------------------------------------------------------------------
// Requests and answers
// ---------------------------------------------------------------------

/// What a tool gives, as the one text of a content list.
pub open spec fn content_value(text: Seq<char>) -> json::Tree {
    json::Tree::Object(
        seq![
            (
                "content"@,
                json::Tree::Array(
                    seq![
                        json::Tree::Object(
                            seq![
                                ("type"@, json::Tree::Text("text"@)),
                                ("text"@, json::Tree::Text(text)),
                            ],
                        ),
                    ],
                ),
            ),
        ],
    )
}

/// What a tool call is answered with: what the tool gives, written out, or the
/// refusal.
pub open spec fn framed(r: Result<json::Tree, Fault>) -> Result<json::Tree, Fault> {
    match r {
        Ok(payload) => Ok(content_value(json::pretty(json::foreign(payload)))),
        Err(e) => Err(e),
    }
}

/// What a method that is no tool call is answered with.
pub open spec fn method_outcome(method: Seq<char>) -> Result<json::Tree, Fault> {
    if method == "initialize"@ {
        Ok(initialize_value())
    } else if method == "tools/list"@ {
        Ok(tools_value())
    } else if method == "ping"@ {
        Ok(json::Tree::Object(Seq::empty()))
    } else {
        Err(not_found(method))
    }
}

/// A refusal as a value.
pub open spec fn fault_value(e: Fault) -> json::Tree {
    json::Tree::Object(
        seq![
            ("code"@, json::Tree::Number(json::signed_decimal(e.code))),
            ("message"@, json::Tree::Text(e.message)),
        ],
    )
}

/// The answer with an id.
pub open spec fn answer_value(id: json::Tree, r: Result<json::Tree, Fault>) -> json::Tree {
    let version = ("jsonrpc"@, json::Tree::Text("2.0"@));
    match r {
        Ok(value) => json::Tree::Object(seq![version, ("id"@, id), ("result"@, value)]),
        Err(e) => json::Tree::Object(seq![version, ("id"@, id), ("error"@, fault_value(e))]),
    }
}

/// The answer to a request. One without an id gets none.
pub open spec fn reply(id: Option<json::Tree>, r: Result<json::Tree, Fault>) -> Option<json::Tree> {
    match id {
        Some(i) => Some(answer_value(i, r)),
        None => None,
    }
}

/// What a tool call that is a request comes to.
pub open spec fn call_answered<K: Kernel, X: Extractor, F: Fn() -> Arc<X>>(
    k: K,
    factory: F,
    default_user: Seq<char>,
    req: json::Tree,
    v: service::ServiceState,
    w: service::ServiceState,
    answer: Option<json::Tree>,
) -> bool {
    exists|r: Result<json::Tree, Fault>| #[trigger]
        call_gives(k, factory, default_user, json::field(req, "params"@), v, w, r) && answer
            == reply(json::field(req, "id"@), framed(r))
}

/// What a request comes to. Only tool calls change the service, and a request
/// without a method is passed over.
pub open spec fn request_gives<K: Kernel, X: Extractor, F: Fn() -> Arc<X>>(
    k: K,
    factory: F,
    default_user: Seq<char>,
    req: json::Tree,
    v: service::ServiceState,
    w: service::ServiceState,
    answer: Option<json::Tree>,
) -> bool {
    match json::text_field(req, "method"@) {
        None => w == v && answer is None,
        Some(method) => if method == "tools/call"@ {
            call_answered(k, factory, default_user, req, v, w, answer)
        } else if method == "notifications/initialized"@ {
            w == v && answer is None
        } else {
            w == v && answer == reply(json::field(req, "id"@), method_outcome(method))
        },
    }
}

/// A text without the white space before it.
pub open spec fn without_lead(s: Seq<char>) -> Seq<char>
    decreases s.len(),
{
    if s.len() > 0 && chunking::is_space(s[0]) {
        without_lead(s.skip(1))
    } else {
        s
    }
}

/// A text without the white space behind it.
pub open spec fn without_tail(s: Seq<char>) -> Seq<char>
    decreases s.len(),
{
    if s.len() > 0 && chunking::is_space(s.last()) {
        without_tail(s.drop_last())
    } else {
        s
    }
}

/// What a line comes to: nothing for a blank one, the parser's message for one
/// that is no JSON, else the answer to the request, if there is one.
pub open spec fn line_gives<K: Kernel, X: Extractor, F: Fn() -> Arc<X>>(
    k: K,
    factory: F,
    default_user: Seq<char>,
    line: Seq<char>,
    v: service::ServiceState,
    w: service::ServiceState,
    r: Result<Option<Seq<char>>, Seq<char>>,
) -> bool {
    let request = without_tail(without_lead(line));
    if request.len() == 0 {
        w == v && r == Ok::<Option<Seq<char>>, Seq<char>>(None)
    } else {
        match json::reading(request) {
            Err(e) => w == v && r == Err::<Option<Seq<char>>, Seq<char>>(e),
            Ok(req) => request_written(k, factory, default_user, req, v, w, r),
        }
    }
}

/// What a request comes to, with its answer written on one line.
pub open spec fn request_written<K: Kernel, X: Extractor, F: Fn() -> Arc<X>>(
    k: K,
    factory: F,
    default_user: Seq<char>,
    req: json::Tree,
    v: service::ServiceState,
    w: service::ServiceState,
    r: Result<Option<Seq<char>>, Seq<char>>,
) -> bool {
    exists|answer: Option<json::Tree>| #[trigger]
        request_gives(k, factory, default_user, req, v, w, answer) && r == Ok::<
            Option<Seq<char>>,
            Seq<char>,
        >(
            match answer {
                Some(a) => Some(json::compact(json::foreign(a))),
                None => None,
            },
        )
}

/// What an answered line holds.
pub open spec fn line_outcome(r: Result<Option<String>, String>) -> Result<
    Option<Seq<char>>,
    Seq<char>,
> {
    match r {
        Ok(Some(s)) => Ok(Some(s@)),
        Ok(None) => Ok(None),
        Err(e) => Err(e@),
    }
}

/// Calls a tool and gives what it gives.
pub fn tool_payload<K: Kernel, X: Extractor, F: Fn() -> Arc<X>>(
    params: Option<&Json>,
    ctx: &mut ServerCtx<K, X, F>,
) -> (r: Result<Json, McpError>)
    requires
        old(ctx).service.wf(),
        service::fact_total(old(ctx).service@.users) <= usize::MAX,
    ensures
        final(ctx).service.wf(),
        final(ctx).service.arithmetic() == old(ctx).service.arithmetic(),
        final(ctx).service.factory() == old(ctx).service.factory(),
        final(ctx).default_user == old(ctx).default_user,
        final(ctx).state_dir == old(ctx).state_dir,
        call_gives(
            old(ctx).service.arithmetic(),
            old(ctx).service.factory(),
            old(ctx).default_user@,
            json::seen(params),
            old(ctx).service@,
            final(ctx).service@,
            outcome(r),
        ),
{
    let p = match params {
        Some(p) => p,
        None => return Err(McpError::invalid_params("missing params")),
    };
    let name = match p.get_text("name") {
        Some(n) => n,
        None => return Err(McpError::invalid_params("missing tool name")),
    };
    let none = Json::empty();
    let args = match p.get("arguments") {
        Some(a) => a,
        None => &none,
    };
    let uid = match args.get_text("user_id") {
        Some(u) => u.to_string(),
        None => ctx.default_user.clone(),
    };
    if same_text(name, "mp_stats") {
        Ok(stats_tool(&ctx.service))
    } else if same_text(name, "mp_recall_fact") {
        recall_tool(&mut ctx.service, args, &uid)
    } else if same_text(name, "mp_store_fact") {
        store_tool(&mut ctx.service, args, &uid)
    } else if same_text(name, "mp_ingest_message") {
        ingest_tool(&mut ctx.service, args, &uid)
    } else if same_text(name, "mp_forget_fact") {
        forget_tool(&mut ctx.service, args, &uid)
    } else if same_text(name, "mp_forget_user") {
        let dropped = ctx.service.remove_user(&uid);
        Ok(Json::object2("user_id", Json::Text(uid), "dropped", Json::Bool(dropped)))
    } else if same_text(name, "mp_export_user") {
        export_tool(&mut ctx.service, &uid)
    } else {
        Err(McpError::method_not_found(name))
    }
}

/// Calls a tool and gives what the call is answered with.
pub fn tool_call_result<K: Kernel, X: Extractor, F: Fn() -> Arc<X>>(
    params: Option<&Json>,
    ctx: &mut ServerCtx<K, X, F>,
) -> (r: Result<Json, McpError>)
    requires
        old(ctx).service.wf(),
        service::fact_total(old(ctx).service@.users) <= usize::MAX,
    ensures
        final(ctx).service.wf(),
        final(ctx).service.arithmetic() == old(ctx).service.arithmetic(),
        final(ctx).service.factory() == old(ctx).service.factory(),
        final(ctx).default_user == old(ctx).default_user,
        final(ctx).state_dir == old(ctx).state_dir,
        exists|o: Result<json::Tree, Fault>| #[trigger]
            call_gives(
                old(ctx).service.arithmetic(),
                old(ctx).service.factory(),
                old(ctx).default_user@,
                json::seen(params),
                old(ctx).service@,
                final(ctx).service@,
                o,
            ) && outcome(r) == framed(o),
{
    match tool_payload(params, ctx) {
        Ok(payload) => {
            let mut list: Vec<Json> = Vec::new();
            let text = json::pretty_text(&payload);
            list.push(Json::object2("type", Json::text("text"), "text", Json::Text(text)));
            assert(json::values(list@) =~= seq![
                json::Tree::Object(
                    seq![
                        ("type"@, json::Tree::Text("text"@)),
                        ("text"@, json::Tree::Text(text@)),
                    ],
                ),
            ]);
            Ok(Json::object1("content", Json::array(list)))
        },
        Err(e) => Err(e),
    }
}

/// Handles a request. Gives the answer, which a request without an id does not
/// get.
pub fn handle_request<K: Kernel, X: Extractor, F: Fn() -> Arc<X>>(
    req: &Json,
    ctx: &mut ServerCtx<K, X, F>,
) -> (r: Option<Json>)
    requires
        old(ctx).service.wf(),
        service::fact_total(old(ctx).service@.users) <= usize::MAX,
    ensures
        final(ctx).service.wf(),
        final(ctx).service.arithmetic() == old(ctx).service.arithmetic(),
        final(ctx).service.factory() == old(ctx).service.factory(),
        final(ctx).default_user == old(ctx).default_user,
        final(ctx).state_dir == old(ctx).state_dir,
        request_gives(
            old(ctx).service.arithmetic(),
            old(ctx).service.factory(),
            old(ctx).default_user@,
            req@,
            old(ctx).service@,
            final(ctx).service@,
            match r {
                Some(j) => Some(j@),
                None => None,
            },
        ),
{
    let method = match req.get_text("method") {
        Some(m) => m,
        None => return None,
    };
    let result = if same_text(method, "tools/call") {
        tool_call_result(req.get("params"), ctx)
    } else if same_text(method, "notifications/initialized") {
        return None;
    } else if same_text(method, "initialize") {
        Ok(initialize_result())
    } else if same_text(method, "tools/list") {
        Ok(tools_list_result())
    } else if same_text(method, "ping") {
        Ok(Json::empty())
    } else {
        Err(McpError::method_not_found(method))
    };
    let ghost o = outcome(result);
    let answer = match req.get("id") {
        None => None,
        Some(id) => Some(answer(json::copy_json(id), result)),
    };
    assert((match answer {
        Some(j) => Some(j@),
        None => None,
    }) == reply(json::field(req@, "id"@), o));
    answer
}

/// The answer with an id.
fn answer(id: Json, r: Result<Json, McpError>) -> (j: Json)
    ensures
        j@ == answer_value(id@, outcome(r)),
{
    match r {
        Ok(value) => Json::object3("jsonrpc", Json::text("2.0"), "id", id, "result", value),
        Err(e) => Json::object3(
            "jsonrpc",
            Json::text("2.0"),
            "id",
            id,
            "error",
            Json::object2("code", Json::integer(e.code), "message", Json::Text(e.message)),
        ),
    }
}

/// A text without the white space around it.
pub fn trimmed(s: &str) -> (r: String)
    ensures
        r@ == without_tail(without_lead(s@)),
{
    let cs = chars_of(s);
    let mut from: usize = 0;
    assert(cs@.skip(0) =~= s@);
    while from < cs.len() && is_whitespace(cs[from])
        invariant
            cs@ == s@,
            from <= cs@.len(),
            without_lead(cs@.skip(from as int)) == without_lead(s@),
        decreases cs@.len() - from,
    {
        assert(cs@.skip(from as int).skip(1) =~= cs@.skip(from + 1));
        from += 1;
    }
    let mut to: usize = cs.len();
    let ghost rest = cs@.skip(from as int);
    assert(cs@.subrange(from as int, to as int) =~= rest);
    while to > from && is_whitespace(cs[to - 1])
        invariant
            rest == cs@.skip(from as int),
            from <= to <= cs@.len(),
            without_tail(cs@.subrange(from as int, to as int)) == without_tail(rest),
        decreases to,
    {
        assert(cs@.subrange(from as int, to as int).drop_last() =~= cs@.subrange(
            from as int,
            to - 1,
        ));
        to -= 1;
    }
    slice_to_string(&cs, from, to)
}

/// Answers a line: nothing for a blank one, an error with the parser's message
/// for one that is no JSON, else the answer to the request, if there is one.
pub fn answer_line<K: Kernel, X: Extractor, F: Fn() -> Arc<X>>(
    line: &str,
    ctx: &mut ServerCtx<K, X, F>,
) -> (r: Result<Option<String>, String>)
    requires
        old(ctx).service.wf(),
        service::fact_total(old(ctx).service@.users) <= usize::MAX,
    ensures
        final(ctx).service.wf(),
        final(ctx).service.arithmetic() == old(ctx).service.arithmetic(),
        final(ctx).service.factory() == old(ctx).service.factory(),
        final(ctx).default_user == old(ctx).default_user,
        final(ctx).state_dir == old(ctx).state_dir,
        line_gives(
            old(ctx).service.arithmetic(),
            old(ctx).service.factory(),
            old(ctx).default_user@,
            line@,
            old(ctx).service@,
            final(ctx).service@,
            line_outcome(r),
        ),
{
    let request = trimmed(line);
    if same_text(&request, "") {
        proof {
            reveal_strlit("");
        }
        return Ok(None);
    }
    proof {
        reveal_strlit("");
        if request@.len() == 0 {
            assert(request@ =~= ""@);
        }
    }
    let req = match json::parse(&request) {
        Ok(j) => j,
        Err(e) => return Err(e),
    };
    match handle_request(&req, ctx) {
        Some(a) => Ok(Some(json::compact_text(&a))),
        None => Ok(None),
    }
}

// ---------------------------------------------------------------------
// Laws
// ---------------------------------------------------------------------

/// The names of the tools.
pub open spec fn tool_names() -> Seq<Seq<char>> {
    seq![
        "mp_stats"@,
        "mp_recall_fact"@,
        "mp_store_fact"@,
        "mp_ingest_message"@,
        "mp_forget_fact"@,
        "mp_forget_user"@,
        "mp_export_user"@,
    ]
}

/// The first members of an object are found by their names.
proof fn first_members(m: Seq<(Seq<char>, json::Tree)>)
    requires
        m.len() >= 3,
        m[0].0 != m[1].0,
        m[0].0 != m[2].0,
        m[1].0 != m[2].0,
    ensures
        json::member(m, m[0].0) == Some(m[0].1),
        json::member(m, m[1].0) == Some(m[1].1),
        json::member(m, m[2].0) == Some(m[2].1),
{
    reveal_with_fuel(json::member, 4);
    assert(m.skip(1)[0] == m[1]);
    assert(m.skip(1).skip(1)[0] == m[2]);
}

/// The catalog lists the tools by their names, in order.
pub proof fn catalog_lists_the_tools(i: int)
    requires
        0 <= i < tool_names().len(),
    ensures
        catalog().len() == tool_names().len(),
        json::text_field(catalog()[i], "name"@) == Some(tool_names()[i]),
{
    let m = catalog()[i]->Object_0;
    assert(catalog()[i] is Object);
    assert(m[0] == ("name"@, json::Tree::Text(tool_names()[i])));
    reveal_with_fuel(json::member, 1);
}

/// A described text is a text with its remark.
pub proof fn a_described_text_has_its_remark(remark: Seq<char>)
    ensures
        json::field(described_text(remark), "type"@) == Some(json::Tree::Text("string"@)),
        json::field(described_text(remark), "description"@) == Some(json::Tree::Text(remark)),
        json::field(plain_text(), "type"@) == Some(json::Tree::Text("string"@)),
{
    let m = described_text(remark)->Object_0;
    reveal_strlit("type");
    reveal_strlit("description");
    assert("type"@.len() == 4 && "description"@.len() == 11);
    assert(m[0].0 == "type"@ && m[1].0 == "description"@);
    two_members(m);
    reveal_with_fuel(json::member, 2);
    assert((plain_text()->Object_0)[0].0 == "type"@);
}

/// What a tool requires, if anything.
pub open spec fn requires_of(tool: json::Tree) -> Option<json::Tree> {
    match json::field(tool, "inputSchema"@) {
        Some(s) => json::field(s, "required"@),
        None => None,
    }
}

/// The catalog tells what each tool cannot do without: looking up and forgetting a
/// fact need a relation, storing one a relation and a value, reading a message the
/// message, and the other tools nothing.
pub proof fn the_catalog_tells_what_is_required()
    ensures
        requires_of(catalog()[0]) is None,
        requires_of(catalog()[1]) == Some(json::Tree::Array(seq![json::Tree::Text("predicate"@)])),
        requires_of(catalog()[2]) == Some(
            json::Tree::Array(
                seq![json::Tree::Text("predicate"@), json::Tree::Text("value"@)],
            ),
        ),
        requires_of(catalog()[3]) == Some(json::Tree::Array(seq![json::Tree::Text("message"@)])),
        requires_of(catalog()[4]) == Some(json::Tree::Array(seq![json::Tree::Text("predicate"@)])),
        requires_of(catalog()[5]) is None,
        requires_of(catalog()[6]) is None,
{
    reveal_strlit("name");
    reveal_strlit("description");
    reveal_strlit("inputSchema");
    assert("name"@.len() == 4 && "description"@[0] == 'd' && "inputSchema"@[0] == 'i');
    assert("inputSchema"@.len() == 11);
    assert forall|i: int| 0 <= i < 7 implies json::field(
        #[trigger] catalog()[i],
        "inputSchema"@,
    ) == Some((catalog()[i]->Object_0)[2].1) by {
        let m = catalog()[i]->Object_0;
        assert(catalog()[i] is Object && m.len() == 3);
        assert(m[0].0 == "name"@ && m[1].0 == "description"@ && m[2].0 == "inputSchema"@);
        first_members(m);
    }
    a_schema_tells_what_is_required((catalog()[0]->Object_0)[2].1->Object_0[1].1->Object_0, seq![]);
    a_schema_tells_what_is_required(
        (catalog()[1]->Object_0)[2].1->Object_0[1].1->Object_0,
        seq!["predicate"@],
    );
    a_schema_tells_what_is_required(
        (catalog()[2]->Object_0)[2].1->Object_0[1].1->Object_0,
        seq!["predicate"@, "value"@],
    );
    a_schema_tells_what_is_required(
        (catalog()[3]->Object_0)[2].1->Object_0[1].1->Object_0,
        seq!["message"@],
    );
    a_schema_tells_what_is_required(
        (catalog()[4]->Object_0)[2].1->Object_0[1].1->Object_0,
        seq!["predicate"@],
    );
    a_schema_tells_what_is_required((catalog()[5]->Object_0)[2].1->Object_0[1].1->Object_0, seq![]);
    a_schema_tells_what_is_required((catalog()[6]->Object_0)[2].1->Object_0[1].1->Object_0, seq![]);
    assert(json::text_values(seq!["predicate"@]) =~= seq![json::Tree::Text("predicate"@)]);
    assert(json::text_values(seq!["message"@]) =~= seq![json::Tree::Text("message"@)]);
    assert(json::text_values(seq!["predicate"@, "value"@]) =~= seq![
        json::Tree::Text("predicate"@),
        json::Tree::Text("value"@),
    ]);
}

/// A schema lists what is required, unless nothing is.
proof fn a_schema_tells_what_is_required(
    properties: Seq<(Seq<char>, json::Tree)>,
    required: Seq<Seq<char>>,
)
    ensures
        json::field(schema_value(properties, required), "required"@) == (if required.len() == 0 {
            None::<json::Tree>
        } else {
            Some(json::Tree::Array(json::text_values(required)))
        }),
{
    let m = schema_value(properties, required)->Object_0;
    reveal_strlit("type");
    reveal_strlit("properties");
    reveal_strlit("required");
    assert("type"@.len() == 4 && "properties"@.len() == 10 && "required"@.len() == 8);
    json::a_name_stands_for_its_first_member(m, "required"@);
    if required.len() > 0 {
        assert(json::first_named(m, "required"@, 2));
    } else {
        assert forall|j: int| 0 <= j < m.len() implies (#[trigger] m[j]).0 != "required"@ by {}
    }
}

/// What is told of a message is the number of its new facts and each of them with
/// its subject, relation and value.
pub proof fn new_facts_are_told_in_full(facts: Seq<fact::FactState>)
    ensures
        json::field(ingest_value(facts), "extracted"@) == Some(
            json::Tree::Number(text::decimal(facts.len())),
        ),
        json::field(ingest_value(facts), "facts"@) matches Some(json::Tree::Array(list))
            && list.len() == facts.len() && forall|i: int|
            0 <= i < facts.len() ==> {
                let told = #[trigger] list[i];
                &&& json::field(told, "subject"@) == Some(json::Tree::Text(facts[i].subject))
                &&& json::field(told, "predicate"@) == Some(json::Tree::Text(facts[i].predicate))
                &&& json::field(told, "obj"@) == Some(json::Tree::Text(facts[i].obj))
            },
{
    reveal_strlit("extracted");
    reveal_strlit("facts");
    reveal_strlit("subject");
    reveal_strlit("predicate");
    reveal_strlit("obj");
    assert("extracted"@.len() == 9 && "facts"@.len() == 5);
    assert("subject"@.len() == 7 && "predicate"@.len() == 9 && "obj"@.len() == 3);
    let m = ingest_value(facts)->Object_0;
    assert(m[0].0 == "extracted"@ && m[1].0 == "facts"@);
    two_members(m);
    let list = facts.map_values(|f: fact::FactState| fact_value(f));
    assert(m[1].1 == json::Tree::Array(list));
    assert forall|i: int| 0 <= i < facts.len() implies {
        let told = #[trigger] list[i];
        &&& json::field(told, "subject"@) == Some(json::Tree::Text(facts[i].subject))
        &&& json::field(told, "predicate"@) == Some(json::Tree::Text(facts[i].predicate))
        &&& json::field(told, "obj"@) == Some(json::Tree::Text(facts[i].obj))
    } by {
        let n = list[i]->Object_0;
        assert(n[0].0 == "subject"@ && n[1].0 == "predicate"@ && n[2].0 == "obj"@);
        first_members(n);
    }
}

/// What the store refuses is an internal failure, with the store's message.
pub proof fn refusals_of_the_store_are_internal(e: HlbError, value: json::Tree)
    ensures
        done_or_failure(Err(e), value) == Err::<json::Tree, Fault>(
            Fault { code: -32603, message: hlb::error_text(e) },
        ),
        done_or_failure(Ok(()), value) == Ok::<json::Tree, Fault>(value),
{
}

/// A tool that the catalog does not list is refused, and nothing changes; one
/// that it lists is not refused for its name.
pub proof fn only_listed_tools_are_known<K: Kernel, X: Extractor, F: Fn() -> Arc<X>>(
    k: K,
    factory: F,
    name: Seq<char>,
    args: json::Tree,
    uid: Seq<char>,
    v: service::ServiceState,
    w: service::ServiceState,
    r: Result<json::Tree, Fault>,
)
    requires
        tool_gives(k, factory, name, args, uid, v, w, r),
    ensures
        !tool_names().contains(name) ==> w == v && r == Err::<json::Tree, Fault>(not_found(name)),
        tool_names().contains(name) ==> (r matches Err(e) ==> e.code != METHOD_NOT_FOUND),
{
    let names = tool_names();
    if !names.contains(name) {
        assert(names[0] == "mp_stats"@);
        assert(names[1] == "mp_recall_fact"@);
        assert(names[2] == "mp_store_fact"@);
        assert(names[3] == "mp_ingest_message"@);
        assert(names[4] == "mp_forget_fact"@);
        assert(names[5] == "mp_forget_user"@);
        assert(names[6] == "mp_export_user"@);
    }
}

/// A request without an id is never answered. An answer carries the id of the
/// request and either a result or an error.
pub proof fn answers_carry_the_id<K: Kernel, X: Extractor, F: Fn() -> Arc<X>>(
    k: K,
    factory: F,
    default_user: Seq<char>,
    req: json::Tree,
    v: service::ServiceState,
    w: service::ServiceState,
    answer: Option<json::Tree>,
)
    requires
        request_gives(k, factory, default_user, req, v, w, answer),
    ensures
        json::field(req, "id"@) is None ==> answer is None,
        answer matches Some(a) ==> {
            &&& json::field(a, "id"@) == json::field(req, "id"@)
            &&& json::text_field(a, "jsonrpc"@) == Some("2.0"@)
            &&& json::field(a, "result"@) is Some <==> json::field(a, "error"@) is None
        },
{
    if let Some(a) = answer {
        let m = a->Object_0;
        assert(json::field(req, "id"@) is Some);
        assert(a is Object && m.len() == 3);
        assert(m[0] == ("jsonrpc"@, json::Tree::Text("2.0"@)));
        assert(m[1].0 == "id"@ && Some(m[1].1) == json::field(req, "id"@));
        reveal_strlit("jsonrpc");
        reveal_strlit("id");
        reveal_strlit("result");
        reveal_strlit("error");
        assert("jsonrpc"@.len() == 7 && "id"@.len() == 2);
        assert("result"@.len() == 6 && "error"@.len() == 5);
        first_members(m);
        reveal_with_fuel(json::member, 5);
        assert(m.skip(1)[0] == m[1]);
        assert(m.skip(1).skip(1)[0] == m[2]);
        assert(m.skip(1).skip(1).skip(1).len() == 0);
    }
}

/// What is not a tool call changes nothing.
pub proof fn only_tool_calls_change_the_service<K: Kernel, X: Extractor, F: Fn() -> Arc<X>>(
    k: K,
    factory: F,
    default_user: Seq<char>,
    req: json::Tree,
    v: service::ServiceState,
    w: service::ServiceState,
    answer: Option<json::Tree>,
)
    requires
        request_gives(k, factory, default_user, req, v, w, answer),
        json::text_field(req, "method"@) != Some("tools/call"@),
    ensures
        w == v,
{
}

/// Methods are told apart by their names. A request with an id gets an empty object
/// for a ping, the catalog of tools for a listing, and for a method that is not
/// there an error with the code for that and a message that names the method.
pub proof fn methods_are_answered_by_name<K: Kernel, X: Extractor, F: Fn() -> Arc<X>>(
    k: K,
    factory: F,
    default_user: Seq<char>,
    req: json::Tree,
    v: service::ServiceState,
    w: service::ServiceState,
    answer: Option<json::Tree>,
    method: Seq<char>,
)
    requires
        request_gives(k, factory, default_user, req, v, w, answer),
        json::field(req, "method"@) == Some(json::Tree::Text(method)),
        json::field(req, "id"@) is Some,
    ensures
        method == "notifications/initialized"@ ==> answer is None,
        method == "ping"@ ==> (answer matches Some(a) && json::field(a, "result"@) == Some(
            json::Tree::Object(Seq::empty()),
        )),
        method == "tools/list"@ ==> (answer matches Some(a) && (json::field(a, "result"@)
            matches Some(told) && json::field(told, "tools"@) == Some(
            json::Tree::Array(catalog()),
        ))),
        method == "initialize"@ ==> (answer matches Some(a) && json::field(a, "result"@) == Some(
            initialize_value(),
        )),
        method != "notifications/initialized"@ && method != "ping"@ && method != "tools/list"@
            && method != "initialize"@ && method != "tools/call"@ ==> (answer matches Some(a) && (
        json::field(a, "error"@) matches Some(e) && json::field(e, "code"@) == Some(
            json::Tree::Number(json::signed_decimal(-32601)),
        ) && json::field(e, "message"@) == Some(
            json::Tree::Text("method not found: "@ + method),
        ))),
        method != "notifications/initialized"@ ==> answer is Some,
{
    reveal_strlit("notifications/initialized");
    reveal_strlit("ping");
    reveal_strlit("tools/list");
    reveal_strlit("tools/call");
    reveal_strlit("initialize");
    assert("notifications/initialized"@.len() == 25 && "ping"@.len() == 4);
    assert("tools/list"@.len() == 10 && "tools/call"@.len() == 10 && "initialize"@.len() == 10);
    assert("tools/list"@[6] == 'l' && "tools/call"@[6] == 'c' && "initialize"@[0] == 'i');
    assert("tools/list"@[0] == 't' && "tools/call"@[0] == 't');
    reveal_strlit("jsonrpc");
    reveal_strlit("id");
    reveal_strlit("result");
    reveal_strlit("error");
    reveal_strlit("code");
    reveal_strlit("message");
    assert("jsonrpc"@.len() == 7 && "id"@.len() == 2 && "result"@.len() == 6 && "error"@.len() == 5);
    assert("code"@.len() == 4 && "message"@.len() == 7);
    if let Some(a) = answer {
        let m = a->Object_0;
        assert(m.len() == 3);
        assert(m[0].0 == "jsonrpc"@ && m[1].0 == "id"@);
        first_members(m);
        reveal_with_fuel(json::member, 2);
        if json::member(m, "error"@) is Some && m[2].0 == "error"@ {
            let e = m[2].1->Object_0;
            if e.len() == 2 && e[0].0 == "code"@ && e[1].0 == "message"@ {
                two_members(e);
            }
        }
    }
}

/// What a tool gives is told as the one text of a list of contents, written out; a
/// refusal is passed on.
pub proof fn a_payload_is_told_as_a_text(r: Result<json::Tree, Fault>)
    ensures
        r matches Err(e) ==> framed(r) == Err::<json::Tree, Fault>(e),
        r matches Ok(payload) ==> (framed(r) matches Ok(told) && (json::field(told, "content"@)
            matches Some(json::Tree::Array(list)) && list.len() == 1 && json::field(
            list[0],
            "type"@,
        ) == Some(json::Tree::Text("text"@)) && json::field(list[0], "text"@) == Some(
            json::Tree::Text(json::pretty(json::foreign(payload))),
        ))),
{
    if let Ok(payload) = r {
        let written = json::pretty(json::foreign(payload));
        let m = seq![
            ("type"@, json::Tree::Text("text"@)),
            ("text"@, json::Tree::Text(written)),
        ];
        reveal_strlit("type");
        reveal_strlit("text");
        assert("type"@[1] == 'y' && "text"@[1] == 'e');
        two_members(m);
        reveal_with_fuel(json::member, 2);
        let told = content_value(written);
        assert(told->Object_0[0].0 == "content"@);
    }
}

/// Of the facts read in a message only those are told that were not listed for the
/// user before, each of these, and none twice.
pub proof fn an_ingest_tells_only_what_is_new<K: Kernel, X: Extractor, F: Fn() -> Arc<X>>(
    k: K,
    factory: F,
    args: json::Tree,
    uid: Seq<char>,
    v: service::ServiceState,
    w: service::ServiceState,
    r: Result<json::Tree, Fault>,
) -> (read: (Seq<fact::FactState>, Seq<fact::FactState>, X))
    requires
        tool_gives(k, factory, "mp_ingest_message"@, args, uid, v, w, r),
        r is Ok,
    ensures
        json::field(args, "message"@) matches Some(json::Tree::Text(message))
            && extractor::extracted(read.2, message, read.0),
        service::is_made(factory, read.2),
        json::field(r->Ok_0, "extracted"@) == Some(
            json::Tree::Number(text::decimal(read.1.len())),
        ),
        json::field(r->Ok_0, "facts"@) matches Some(json::Tree::Array(list)) && list.len()
            == read.1.len() && forall|i: int|
            0 <= i < list.len() ==> json::field(#[trigger] list[i], "predicate"@) == Some(
                json::Tree::Text(read.1[i].predicate),
            ) && json::field(list[i], "obj"@) == Some(json::Tree::Text(read.1[i].obj)),
        forall|i: int|
            0 <= i < read.1.len() ==> read.0.contains(#[trigger] read.1[i]) && !personal::lists(
                service::schema_of(v, uid),
                read.1[i].predicate,
                read.1[i].obj,
            ),
        forall|j: int|
            0 <= j < read.0.len() && !personal::lists(
                service::schema_of(v, uid),
                (#[trigger] read.0[j]).predicate,
                read.0[j].obj,
            ) ==> personal::tells(read.1, read.0[j].predicate, read.0[j].obj),
        forall|i: int, j: int|
            0 <= i < j < read.1.len() ==> (#[trigger] read.1[i]).predicate != (
            #[trigger] read.1[j]).predicate || read.1[i].obj != read.1[j].obj,
{
    tools_have_names_of_their_own();
    let message = json::text_field(args, "message"@)->Some_0;
    assert(ingest_in_memory::<K, X, F>(k, factory, message, uid, v, w, r));
    let (u, x, facts, m, step) = choose|
        u: service::UserState,
        x: X,
        facts: Seq<fact::FactState>,
        m: personal::PersonalState,
        step: Result<(), HlbError>,
    |
        #![trigger service::at_hand(k, v, uid, u), extractor::extracted(x, message, facts), personal::facts_stored(k, u.memory, facts, m, step)]
        {
            &&& service::at_hand(k, v, uid, u)
            &&& service::is_made(factory, x)
            &&& extractor::extracted(x, message, facts)
            &&& personal::facts_stored(k, u.memory, facts, m, step)
            &&& w == service::memory_put(v, u, m)
            &&& r == done_or_failure(
                step,
                ingest_value(personal::new_facts(u.memory.schema, facts)),
            )
        };
    let told = personal::new_facts(u.memory.schema, facts);
    assert(u.memory.schema =~= service::schema_of(v, uid));
    personal::new_facts_tell_what_was_not_listed(u.memory.schema, facts);
    new_facts_are_told_in_full(told);
    (facts, told, x)
}

/// A tool call with an id is answered with what the tool gives, written out as the
/// one text of its contents, or with the code and the message of its refusal. It
/// is carried out with the parameters of the request.
pub proof fn a_tool_call_is_answered<K: Kernel, X: Extractor, F: Fn() -> Arc<X>>(
    k: K,
    factory: F,
    default_user: Seq<char>,
    req: json::Tree,
    v: service::ServiceState,
    w: service::ServiceState,
    answer: Option<json::Tree>,
) -> (o: Result<json::Tree, Fault>)
    requires
        request_gives(k, factory, default_user, req, v, w, answer),
        json::field(req, "method"@) == Some(json::Tree::Text("tools/call"@)),
    ensures
        call_gives(k, factory, default_user, json::field(req, "params"@), v, w, o),
        json::field(req, "id"@) is None ==> answer is None,
        json::field(req, "id"@) is Some ==> (answer matches Some(a) && match o {
            Ok(payload) => json::field(a, "result"@) matches Some(told) && framed(o) == Ok::<
                json::Tree,
                Fault,
            >(told),
            Err(f) => json::field(a, "error"@) matches Some(e) && json::field(e, "code"@) == Some(
                json::Tree::Number(json::signed_decimal(f.code)),
            ) && json::field(e, "message"@) == Some(json::Tree::Text(f.message)),
        }),
{
    let o = choose|r: Result<json::Tree, Fault>| #[trigger]
        call_gives(k, factory, default_user, json::field(req, "params"@), v, w, r) && answer
            == reply(json::field(req, "id"@), framed(r));
    reveal_strlit("jsonrpc");
    reveal_strlit("id");
    reveal_strlit("result");
    reveal_strlit("error");
    reveal_strlit("code");
    reveal_strlit("message");
    assert("jsonrpc"@.len() == 7 && "id"@.len() == 2 && "result"@.len() == 6 && "error"@.len() == 5);
    assert("code"@.len() == 4 && "message"@.len() == 7);
    if let Some(a) = answer {
        let m = a->Object_0;
        assert(m.len() == 3);
        assert(m[0].0 == "jsonrpc"@ && m[1].0 == "id"@);
        first_members(m);
        if o is Err {
            let e = m[2].1->Object_0;
            assert(m[2].0 == "error"@);
            assert(e[0].0 == "code"@ && e[1].0 == "message"@);
            two_members(e);
        } else {
            assert(m[2].0 == "result"@);
        }
    }
    o
}

/// A line that is blank comes to nothing; one that holds no JSON, the white space
/// around it aside, to the parser's message; any other to what its request comes
/// to, with the answer written on one line.
pub proof fn a_line_comes_to_its_request<K: Kernel, X: Extractor, F: Fn() -> Arc<X>>(
    k: K,
    factory: F,
    default_user: Seq<char>,
    line: Seq<char>,
    v: service::ServiceState,
    w: service::ServiceState,
    r: Result<Option<Seq<char>>, Seq<char>>,
) -> (at: (int, int))
    requires
        line_gives(k, factory, default_user, line, v, w, r),
    ensures
        0 <= at.0 <= at.1 <= line.len(),
        forall|i: int|
            0 <= i < at.0 || at.1 <= i < line.len() ==> chunking::is_space(#[trigger] line[i]),
        at.0 < at.1 ==> !chunking::is_space(line[at.0]) && !chunking::is_space(line[at.1 - 1]),
        at.0 == at.1 ==> w == v && r == Ok::<Option<Seq<char>>, Seq<char>>(None),
        at.0 < at.1 ==> match json::reading(line.subrange(at.0, at.1)) {
            Err(e) => w == v && r == Err::<Option<Seq<char>>, Seq<char>>(e),
            Ok(req) => exists|answer: Option<json::Tree>| #[trigger]
                request_gives(k, factory, default_user, req, v, w, answer) && r == Ok::<
                    Option<Seq<char>>,
                    Seq<char>,
                >(
                    match answer {
                        Some(a) => Some(json::compact(json::foreign(a))),
                        None => None,
                    },
                ),
        },
{
    let at = a_line_is_stripped_of_white_space(line);
    let left = without_tail(without_lead(line));
    if at.0 < at.1 {
        assert(left[0] == line[at.0]);
        assert(left.last() == line[at.1 - 1]);
    }
    at
}

/// A line is stripped of the white space around it and of nothing else: what is
/// left stands in the line, begins and ends with other characters, and all that
/// was before and behind it is white space.
pub proof fn a_line_is_stripped_of_white_space(line: Seq<char>) -> (at: (int, int))
    ensures
        ({
            let left = without_tail(without_lead(line));
            &&& 0 <= at.0 <= at.1 <= line.len()
            &&& left == line.subrange(at.0, at.1)
            &&& forall|i: int|
                0 <= i < at.0 || at.1 <= i < line.len() ==> chunking::is_space(#[trigger] line[i])
            &&& left.len() > 0 ==> !chunking::is_space(left[0]) && !chunking::is_space(left.last())
        }),
{
    let from = lead_is_white_space(line);
    let rest = without_lead(line);
    let to = tail_is_white_space(rest);
    assert(rest.take(to) =~= line.subrange(from, from + to));
    assert forall|i: int|
        0 <= i < from || from + to <= i < line.len() implies chunking::is_space(
        #[trigger] line[i],
    ) by {
        if i >= from {
            assert(rest[i - from] == line[i]);
        }
    }
    let left = without_tail(rest);
    if left.len() > 0 {
        assert(left[0] == rest[0]);
    }
    (from, from + to)
}

proof fn lead_is_white_space(s: Seq<char>) -> (from: int)
    ensures
        0 <= from <= s.len(),
        without_lead(s) == s.skip(from),
        forall|i: int| 0 <= i < from ==> chunking::is_space(#[trigger] s[i]),
        from < s.len() ==> !chunking::is_space(s[from]),
    decreases s.len(),
{
    if s.len() > 0 && chunking::is_space(s[0]) {
        let from = lead_is_white_space(s.skip(1));
        assert(s.skip(1).skip(from) =~= s.skip(from + 1));
        assert forall|i: int| 0 <= i < from + 1 implies chunking::is_space(#[trigger] s[i]) by {
            if i > 0 {
                assert(s.skip(1)[i - 1] == s[i]);
            }
        }
        from + 1
    } else {
        assert(s.skip(0) =~= s);
        0
    }
}

proof fn tail_is_white_space(s: Seq<char>) -> (to: int)
    ensures
        0 <= to <= s.len(),
        without_tail(s) == s.take(to),
        forall|i: int| to <= i < s.len() ==> chunking::is_space(#[trigger] s[i]),
        to > 0 ==> !chunking::is_space(s[to - 1]),
    decreases s.len(),
{
    if s.len() > 0 && chunking::is_space(s.last()) {
        let init = s.drop_last();
        let to = tail_is_white_space(init);
        assert(init.take(to) =~= s.take(to));
        assert forall|i: int| to <= i < s.len() implies chunking::is_space(#[trigger] s[i]) by {
            if i < init.len() {
                assert(init[i] == s[i]);
            }
        }
        to
    } else {
        assert(s.take(s.len() as int) =~= s);
        s.len() as int
    }
}

/// After a fact was stored, the user's memory holds it.
proof fn after_storing<K: Kernel>(
    k: K,
    args: json::Tree,
    uid: Seq<char>,
    predicate: Seq<char>,
    v: service::ServiceState,
    mid: service::ServiceState,
    stored: Result<json::Tree, Fault>,
) -> (m: personal::PersonalState)
    requires
        service::sound(v),
        json::text_field(args, "predicate"@) == Some(predicate),
        text::lowered(predicate) == predicate,
        text::lowered(subject_of(args)) == subject_of(args),
        store_gives(k, args, uid, v, mid, stored),
        stored is Ok,
    ensures
        service::has_user(mid.users, uid),
        mid.users[service::seat(mid.users, uid) as int].memory == m,
        m.store.knows(fact::fact_key(m.user, subject_of(args), predicate)),
        m.store.valid(),
        m.store.facts()[fact::fact_key(m.user, subject_of(args), predicate)] == text::lowered(
            json::text_field(args, "value"@)->0,
        ),
{
    let value = json::text_field(args, "value"@)->Some_0;
    let f = stated_fact(subject_of(args), predicate, value);
    assert(store_in_memory(k, f, uid, v, mid, stored));
    let (u, m, step) = choose|
        u: service::UserState,
        m: personal::PersonalState,
        step: Result<(), HlbError>,
    |
        #![trigger service::at_hand(k, v, uid, u), personal::fact_stored(k, u.memory, f, m, step)]
        {
            &&& service::at_hand(k, v, uid, u)
            &&& personal::fact_stored(k, u.memory, f, m, step)
            &&& mid == service::memory_put(v, u, m)
            &&& stored == done_or_failure(
                step,
                json::Tree::Object(seq![("status"@, json::Tree::Text("stored"@))]),
            )
        };
    service::seat_is_first(v.users, uid);
    service::a_put_user_is_there(v, u, m);
    if !service::has_user(v.users, uid) {
        fresh_store_is_valid(u.memory.store);
    }
    personal::a_stored_fact_is_held(k, u.memory, f, m, step);
    m
}

/// A fact that was stored can be forgotten: the second call tells that it was
/// there. The relation and the subject have to be in lower case already,
/// because only storing puts them into lower case.
pub proof fn a_stored_fact_can_be_forgotten<K: Kernel>(
    k: K,
    args: json::Tree,
    uid: Seq<char>,
    predicate: Seq<char>,
    v: service::ServiceState,
    mid: service::ServiceState,
    stored: Result<json::Tree, Fault>,
    w: service::ServiceState,
    r: Result<json::Tree, Fault>,
)
    requires
        service::sound(v),
        json::text_field(args, "predicate"@) == Some(predicate),
        text::lowered(predicate) == predicate,
        text::lowered(subject_of(args)) == subject_of(args),
        store_gives(k, args, uid, v, mid, stored),
        stored is Ok,
        forget_gives(k, args, uid, mid, w, r),
    ensures
        r == Ok::<json::Tree, Fault>(forget_value(true)),
{
    let m = after_storing(k, args, uid, predicate, v, mid, stored);
    assert(forget_in_memory(k, subject_of(args), predicate, uid, mid, w, r));
}

/// A fact that was stored is recalled with a value, not with null; and where the
/// noise in its shard is low enough, the value is the one that was stored, in
/// lower case. The relation and the subject have to be in lower case already,
/// because only storing puts them into lower case.
pub proof fn a_stored_fact_is_recalled<K: Kernel>(
    k: K,
    args: json::Tree,
    uid: Seq<char>,
    predicate: Seq<char>,
    v: service::ServiceState,
    mid: service::ServiceState,
    stored: Result<json::Tree, Fault>,
    w: service::ServiceState,
    r: Result<json::Tree, Fault>,
)
    requires
        service::sound(v),
        json::text_field(args, "predicate"@) == Some(predicate),
        text::lowered(predicate) == predicate,
        text::lowered(subject_of(args)) == subject_of(args),
        store_gives(k, args, uid, v, mid, stored),
        stored is Ok,
        recall_gives(k, args, uid, mid, w, r),
    ensures
        exists|t: Seq<char>|
            r == Ok::<json::Tree, Fault>(#[trigger] recall_value(predicate, Some(t))),
        ({
            let m = mid.users[service::seat(mid.users, uid) as int].memory;
            adaptive::clear_at(
                k,
                m.store,
                fact::fact_key(m.user, subject_of(args), predicate),
            ) ==> r == Ok::<json::Tree, Fault>(
                recall_value(
                    predicate,
                    Some(text::lowered(json::text_field(args, "value"@)->0)),
                ),
            )
        }),
{
    let m = after_storing(k, args, uid, predicate, v, mid, stored);
    assert(recall_in_memory(k, subject_of(args), predicate, uid, mid, w, r));
    let (u, value) = choose|u: service::UserState, value: Option<Seq<char>>|
        #![trigger service::at_hand(k, mid, uid, u), recall_value(predicate, value)]
        {
            &&& service::at_hand(k, mid, uid, u)
            &&& recalled(
                k,
                u.memory,
                fact::fact_key(u.memory.user, subject_of(args), predicate),
                value,
            )
            &&& w == service::memory_put(mid, u, u.memory)
            &&& r == Ok::<json::Tree, Fault>(recall_value(predicate, value))
        };
    assert(value is Some);
    assert(r == Ok::<json::Tree, Fault>(recall_value(predicate, Some(value->0))));
    let key = fact::fact_key(m.user, subject_of(args), predicate);
    if adaptive::clear_at(k, m.store, key) {
        adaptive::clear_read_gives_the_fact(k, m.store, key, value->0);
    }
}

/// A store without facts is valid.
proof fn fresh_store_is_valid(v: adaptive::StoreState)
    requires
        v.shards.len() == 0,
        v.names.len() == 0,
        v.rows.len() == v.room,
        forall|i: int| 0 <= i < v.rows.len() ==> (#[trigger] v.rows[i]).len() == v.dim,
    ensures
        v.valid(),
{
    assert forall|key: Seq<char>, s: int, i: int| !v.at(key, s, i) by {}
}

/// The key for the facts of a holder about a subject.
pub open spec fn key_about(holder: Seq<char>, subject: Seq<char>, predicate: Seq<char>) -> Seq<char> {
    holder + "|"@ + subject + "|"@ + predicate
}

/// A key is made of the holder, the subject and the relation with bars between.
proof fn keys_are_made_of_their_parts(holder: Seq<char>, subject: Seq<char>, predicate: Seq<char>)
    ensures
        fact::fact_key(holder, subject, predicate) == key_about(holder, subject, predicate),
{
    reveal_strlit("|");
    assert("|"@ =~= seq!['|']);
}

/// A fact is stored under the subject that the call names as a text, in lower
/// case, and under `user` where it names none. Nothing else that is held for the
/// user changes, and nothing that is held for another user.
pub proof fn a_fact_is_stored_under_its_subject<K: Kernel, X: Extractor, F: Fn() -> Arc<X>>(
    k: K,
    factory: F,
    args: json::Tree,
    uid: Seq<char>,
    v: service::ServiceState,
    w: service::ServiceState,
    r: Result<json::Tree, Fault>,
)
    requires
        service::sound(v),
        tool_gives(k, factory, "mp_store_fact"@, args, uid, v, w, r),
        r is Ok,
    ensures
        json::field(args, "predicate"@) matches Some(json::Tree::Text(p)) && json::field(
            args,
            "value"@,
        ) matches Some(json::Tree::Text(x)) && {
            &&& json::field(args, "subject"@) matches Some(json::Tree::Text(s))
                ==> service::facts_of(w, uid) == service::facts_of(v, uid).insert(
                key_about(service::holder(v, uid), text::lowered(s), text::lowered(p)),
                text::lowered(x),
            )
            &&& !(json::field(args, "subject"@) matches Some(json::Tree::Text(_)))
                ==> service::facts_of(w, uid) == service::facts_of(v, uid).insert(
                key_about(service::holder(v, uid), "user"@, text::lowered(p)),
                text::lowered(x),
            )
        },
        json::field(r->Ok_0, "status"@) == Some(json::Tree::Text("stored"@)),
        service::holder(w, uid) == service::holder(v, uid),
        forall|other: Seq<char>|
            other != uid ==> #[trigger] service::facts_of(w, other) == service::facts_of(v, other),
{
    tools_have_names_of_their_own();
    let predicate = json::text_field(args, "predicate"@)->Some_0;
    let value = json::text_field(args, "value"@)->Some_0;
    let f = stated_fact(subject_of(args), predicate, value);
    assert(store_in_memory(k, f, uid, v, w, r));
    let (u, m, step) = choose|
        u: service::UserState,
        m: personal::PersonalState,
        step: Result<(), HlbError>,
    |
        #![trigger service::at_hand(k, v, uid, u), personal::fact_stored(k, u.memory, f, m, step)]
        {
            &&& service::at_hand(k, v, uid, u)
            &&& personal::fact_stored(k, u.memory, f, m, step)
            &&& w == service::memory_put(v, u, m)
            &&& r == done_or_failure(
                step,
                json::Tree::Object(seq![("status"@, json::Tree::Text("stored"@))]),
            )
        };
    service::at_hand_is_theirs(k, v, uid, u);
    service::a_put_memory_is_theirs(v, u, m);
    personal::a_stored_fact_is_held(k, u.memory, f, m, step);
    keys_are_made_of_their_parts(u.memory.user, f.subject, f.predicate);
    reveal_strlit("user");
    text::lowered_is_idempotent("user"@);
    reveal_with_fuel(json::member, 2);
}

/// The tools' names differ.
proof fn tools_have_names_of_their_own()
    ensures
        "mp_stats"@ != "mp_recall_fact"@,
        "mp_stats"@ != "mp_store_fact"@,
        "mp_stats"@ != "mp_forget_fact"@,
        "mp_stats"@ != "mp_forget_user"@,
        "mp_stats"@ != "mp_ingest_message"@,
        "mp_stats"@ != "mp_export_user"@,
        "mp_recall_fact"@ != "mp_store_fact"@,
        "mp_recall_fact"@ != "mp_forget_fact"@,
        "mp_recall_fact"@ != "mp_forget_user"@,
        "mp_recall_fact"@ != "mp_ingest_message"@,
        "mp_recall_fact"@ != "mp_export_user"@,
        "mp_store_fact"@ != "mp_forget_fact"@,
        "mp_store_fact"@ != "mp_forget_user"@,
        "mp_store_fact"@ != "mp_ingest_message"@,
        "mp_store_fact"@ != "mp_export_user"@,
        "mp_ingest_message"@ != "mp_forget_fact"@,
        "mp_ingest_message"@ != "mp_forget_user"@,
        "mp_ingest_message"@ != "mp_export_user"@,
        "mp_forget_fact"@ != "mp_forget_user"@,
        "mp_forget_fact"@ != "mp_export_user"@,
        "mp_forget_user"@ != "mp_export_user"@,
{
    reveal_strlit("mp_stats");
    reveal_strlit("mp_recall_fact");
    reveal_strlit("mp_store_fact");
    reveal_strlit("mp_ingest_message");
    reveal_strlit("mp_forget_fact");
    reveal_strlit("mp_forget_user");
    reveal_strlit("mp_export_user");
    assert("mp_stats"@.len() == 8 && "mp_recall_fact"@.len() == 14 && "mp_store_fact"@.len() == 13
        && "mp_ingest_message"@.len() == 17);
    assert("mp_recall_fact"@[3] == 'r');
    assert("mp_forget_fact"@[3] == 'f' && "mp_forget_user"@[3] == 'f');
    assert("mp_export_user"@[3] == 'e');
    assert("mp_forget_fact"@[10] == 'f' && "mp_forget_user"@[10] == 'u');
}

/// A fact is looked up under the subject that the call names as a text, and
/// under `user` where it names none. The answer repeats the relation, and its
/// value is null exactly when nothing is held there; where the noise is low
/// enough, it is what is held there. Nothing that is held changes.
pub proof fn a_fact_is_recalled_under_its_subject<K: Kernel, X: Extractor, F: Fn() -> Arc<X>>(
    k: K,
    factory: F,
    args: json::Tree,
    uid: Seq<char>,
    v: service::ServiceState,
    w: service::ServiceState,
    r: Result<json::Tree, Fault>,
    subject: Seq<char>,
    predicate: Seq<char>,
)
    requires
        service::sound(v),
        tool_gives(k, factory, "mp_recall_fact"@, args, uid, v, w, r),
        r is Ok,
        json::field(args, "predicate"@) == Some(json::Tree::Text(predicate)),
        json::field(args, "subject"@) == Some(json::Tree::Text(subject)) || subject == "user"@ && !(
        json::field(args, "subject"@) matches Some(json::Tree::Text(_))),
    ensures
        ({
            let key = key_about(service::holder(v, uid), subject, predicate);
            let held = service::facts_of(v, uid);
            &&& json::field(r->Ok_0, "predicate"@) == Some(json::Tree::Text(predicate))
            &&& json::field(r->Ok_0, "value"@) is Some
            &&& json::field(r->Ok_0, "value"@) == Some(json::Tree::Null) <==> !held.contains_key(
                key,
            )
            &&& held.contains_key(key) && adaptive::clear_at(
                k,
                v.users[service::seat(v.users, uid) as int].memory.store,
                key,
            ) ==> json::field(r->Ok_0, "value"@) == Some(json::Tree::Text(held[key]))
        }),
        service::holder(w, uid) == service::holder(v, uid),
        forall|id: Seq<char>| #[trigger] service::facts_of(w, id) == service::facts_of(v, id),
{
    tools_have_names_of_their_own();
    assert(recall_in_memory(k, subject, predicate, uid, v, w, r));
    let (u, value) = choose|u: service::UserState, value: Option<Seq<char>>|
        #![trigger service::at_hand(k, v, uid, u), recall_value(predicate, value)]
        {
            &&& service::at_hand(k, v, uid, u)
            &&& recalled(
                k,
                u.memory,
                fact::fact_key(u.memory.user, subject, predicate),
                value,
            )
            &&& w == service::memory_put(v, u, u.memory)
            &&& r == Ok::<json::Tree, Fault>(recall_value(predicate, value))
        };
    service::at_hand_is_theirs(k, v, uid, u);
    service::a_put_memory_is_theirs(v, u, u.memory);
    keys_are_made_of_their_parts(u.memory.user, subject, predicate);
    let key = key_about(service::holder(v, uid), subject, predicate);
    assert(u.memory.store.knows(key) <==> service::facts_of(v, uid).contains_key(key));
    reveal_strlit("predicate");
    reveal_strlit("value");
    assert("predicate"@.len() == 9 && "value"@.len() == 5);
    let m = seq![
        ("predicate"@, json::Tree::Text(predicate)),
        ("value"@, text_or_null(value)),
    ];
    reveal_with_fuel(json::member, 3);
    assert(m.skip(1)[0] == m[1]);
    assert(json::member(m, "value"@) == Some(text_or_null(value)));
    if u.memory.store.knows(key) && service::has_user(v.users, uid) && adaptive::clear_at(
        k,
        u.memory.store,
        key,
    ) {
        adaptive::clear_read_gives_the_fact(k, u.memory.store, key, value->0);
    }
    assert forall|id: Seq<char>| #[trigger] service::facts_of(w, id) == service::facts_of(v, id) by {
        if id != uid {
        }
    }
}

/// A fact is forgotten under the subject that the call names as a text, and
/// under `user` where it names none: it is gone, the answer tells whether it was
/// there, and nothing else that is held changes.
pub proof fn a_fact_is_forgotten_under_its_subject<K: Kernel, X: Extractor, F: Fn() -> Arc<X>>(
    k: K,
    factory: F,
    args: json::Tree,
    uid: Seq<char>,
    v: service::ServiceState,
    w: service::ServiceState,
    r: Result<json::Tree, Fault>,
    subject: Seq<char>,
    predicate: Seq<char>,
)
    requires
        service::sound(v),
        tool_gives(k, factory, "mp_forget_fact"@, args, uid, v, w, r),
        r is Ok,
        json::field(args, "predicate"@) == Some(json::Tree::Text(predicate)),
        json::field(args, "subject"@) == Some(json::Tree::Text(subject)) || subject == "user"@ && !(
        json::field(args, "subject"@) matches Some(json::Tree::Text(_))),
    ensures
        ({
            let key = key_about(service::holder(v, uid), subject, predicate);
            let held = service::facts_of(v, uid);
            &&& service::facts_of(w, uid) == held.remove(key)
            &&& json::field(r->Ok_0, "removed"@) == Some(
                json::Tree::Bool(held.contains_key(key)),
            )
            &&& json::field(r->Ok_0, "residual_note"@) == Some(
                json::Tree::Text("~0.001 (HLB algebraic)"@),
            )
        }),
        service::holder(w, uid) == service::holder(v, uid),
        forall|other: Seq<char>|
            other != uid ==> #[trigger] service::facts_of(w, other) == service::facts_of(v, other),
{
    tools_have_names_of_their_own();
    assert(forget_in_memory(k, subject, predicate, uid, v, w, r));
    let (u, after, step) = choose|
        u: service::UserState,
        after: adaptive::StoreState,
        step: Result<bool, HlbError>,
    |
        #![trigger service::at_hand(k, v, uid, u), adaptive::forgotten_gives(k, u.memory.store, fact::fact_key(u.memory.user, subject, predicate), after, step)]
        {
            &&& service::at_hand(k, v, uid, u)
            &&& adaptive::forgotten_gives(
                k,
                u.memory.store,
                fact::fact_key(u.memory.user, subject, predicate),
                after,
                step,
            )
            &&& w == service::memory_put(
                v,
                u,
                personal::PersonalState { store: after, ..u.memory },
            )
            &&& r == match step {
                Ok(removed) => Ok::<json::Tree, Fault>(forget_value(removed)),
                Err(e) => Err::<json::Tree, Fault>(failure(e)),
            }
        };
    service::at_hand_is_theirs(k, v, uid, u);
    service::a_put_memory_is_theirs(
        v,
        u,
        personal::PersonalState { store: after, ..u.memory },
    );
    keys_are_made_of_their_parts(u.memory.user, subject, predicate);
    let key = key_about(service::holder(v, uid), subject, predicate);
    assert(u.memory.store.knows(key) <==> service::facts_of(v, uid).contains_key(key));
    adaptive::forget_removes_the_fact(k, u.memory.store, key, after, step);
    reveal_strlit("removed");
    reveal_strlit("residual_note");
    assert("removed"@.len() == 7 && "residual_note"@.len() == 13);
    let m = (r->Ok_0)->Object_0;
    assert(m[0].0 == "removed"@ && m[1].0 == "residual_note"@);
    two_members(m);
}

/// What is stored about one subject is not seen by a call about another one.
/// Storing a fact under a named subject leaves what is held under any other
/// subject of the relation as it was; so a later call that names no subject
/// recalls nothing unless something was held about the user before. Subjects are
/// told apart where they hold no bar.
pub proof fn subjects_do_not_mix<K: Kernel, X: Extractor, F: Fn() -> Arc<X>>(
    k: K,
    factory: F,
    args: json::Tree,
    uid: Seq<char>,
    v: service::ServiceState,
    mid: service::ServiceState,
    stored: Result<json::Tree, Fault>,
    subject: Seq<char>,
    predicate: Seq<char>,
    asked: json::Tree,
    w: service::ServiceState,
    r: Result<json::Tree, Fault>,
)
    requires
        service::sound(v),
        service::sound(mid),
        tool_gives(k, factory, "mp_store_fact"@, args, uid, v, mid, stored),
        stored is Ok,
        json::field(args, "subject"@) == Some(json::Tree::Text(subject)),
        json::field(args, "predicate"@) == Some(json::Tree::Text(predicate)),
        !text::lowered(subject).contains('|'),
        text::lowered(subject) != "user"@,
        tool_gives(k, factory, "mp_recall_fact"@, asked, uid, mid, w, r),
        r is Ok,
        !(json::field(asked, "subject"@) matches Some(json::Tree::Text(_))),
        json::field(asked, "predicate"@) == Some(json::Tree::Text(text::lowered(predicate))),
    ensures
        forall|other: Seq<char>|
            !other.contains('|') && other != text::lowered(subject) ==> {
                let key = #[trigger] key_about(
                    service::holder(v, uid),
                    other,
                    text::lowered(predicate),
                );
                &&& service::facts_of(mid, uid).contains_key(key) <==> service::facts_of(
                    v,
                    uid,
                ).contains_key(key)
                &&& service::facts_of(v, uid).contains_key(key) ==> service::facts_of(mid, uid)[key]
                    == service::facts_of(v, uid)[key]
            },
        json::field(r->Ok_0, "value"@) == Some(json::Tree::Null) <==> !service::facts_of(
            v,
            uid,
        ).contains_key(key_about(service::holder(v, uid), "user"@, text::lowered(predicate))),
{
    let p = text::lowered(predicate);
    let holder = service::holder(v, uid);
    a_fact_is_stored_under_its_subject(k, factory, args, uid, v, mid, stored);
    assert forall|other: Seq<char>|
        !other.contains('|') && other != text::lowered(subject) implies {
        let key = #[trigger] key_about(holder, other, p);
        &&& service::facts_of(mid, uid).contains_key(key) <==> service::facts_of(
            v,
            uid,
        ).contains_key(key)
        &&& service::facts_of(v, uid).contains_key(key) ==> service::facts_of(mid, uid)[key]
            == service::facts_of(v, uid)[key]
    } by {
        keys_are_made_of_their_parts(holder, other, p);
        keys_are_made_of_their_parts(holder, text::lowered(subject), p);
        fact::keys_tell_facts_apart(holder, other, p, text::lowered(subject), p);
    }
    a_fact_is_recalled_under_its_subject(
        k,
        factory,
        asked,
        uid,
        mid,
        w,
        r,
        "user"@,
        p,
    );
    reveal_strlit("user");
    assert(!"user"@.contains('|'));
    assert(key_about(holder, "user"@, p) == key_about(service::holder(mid, uid), "user"@, p));
}

/// A tool call is carried out with the arguments that it holds, for the user that
/// they name as a text, and for the default user where they name none. One
/// without arguments has none. A call without parameters or without the name of
/// a tool is refused for its parameters, and nothing changes.
pub proof fn a_call_is_about_the_named_user<K: Kernel, X: Extractor, F: Fn() -> Arc<X>>(
    k: K,
    factory: F,
    default_user: Seq<char>,
    params: Option<json::Tree>,
    v: service::ServiceState,
    w: service::ServiceState,
    r: Result<json::Tree, Fault>,
)
    requires
        call_gives(k, factory, default_user, params, v, w, r),
    ensures
        params matches Some(p) ==> (json::field(p, "name"@) matches Some(json::Tree::Text(name)) ==> {
            &&& json::field(p, "arguments"@) matches Some(args) ==> {
                &&& json::field(args, "user_id"@) matches Some(json::Tree::Text(uid))
                    ==> tool_gives(k, factory, name, args, uid, v, w, r)
                &&& !(json::field(args, "user_id"@) matches Some(json::Tree::Text(_)))
                    ==> tool_gives(k, factory, name, args, default_user, v, w, r)
            }
            &&& json::field(p, "arguments"@) is None ==> tool_gives(
                k,
                factory,
                name,
                json::Tree::Object(Seq::empty()),
                default_user,
                v,
                w,
                r,
            )
        }),
        params is None || !(json::field(params->0, "name"@) matches Some(json::Tree::Text(_)))
            ==> w == v && (r matches Err(e) && e.code == -32602),
{
}

/// A call that lacks what its tool needs is refused for its parameters, with a
/// message that names what is missing, and nothing changes.
pub proof fn missing_arguments_are_refused<K: Kernel, X: Extractor, F: Fn() -> Arc<X>>(
    k: K,
    factory: F,
    name: Seq<char>,
    args: json::Tree,
    uid: Seq<char>,
    v: service::ServiceState,
    w: service::ServiceState,
    r: Result<json::Tree, Fault>,
)
    requires
        tool_gives(k, factory, name, args, uid, v, w, r),
    ensures
        (name == "mp_recall_fact"@ || name == "mp_store_fact"@ || name == "mp_forget_fact"@) && !(
        json::field(args, "predicate"@) matches Some(json::Tree::Text(_))) ==> w == v && r == Err::<
            json::Tree,
            Fault,
        >(Fault { code: -32602, message: "predicate required"@ }),
        name == "mp_store_fact"@ && (json::field(args, "predicate"@) matches Some(
            json::Tree::Text(_),
        )) && !(json::field(args, "value"@) matches Some(json::Tree::Text(_))) ==> w == v && r
            == Err::<json::Tree, Fault>(Fault { code: -32602, message: "value required"@ }),
        name == "mp_ingest_message"@ && !(json::field(args, "message"@) matches Some(
            json::Tree::Text(_),
        )) ==> w == v && r == Err::<json::Tree, Fault>(
            Fault { code: -32602, message: "message required"@ },
        ),
{
    tools_have_names_of_their_own();
}

/// Erasing a user leaves nothing of theirs and everything of all others; the
/// answer names the user and tells whether they were there.
pub proof fn erasing_leaves_all_others<K: Kernel, X: Extractor, F: Fn() -> Arc<X>>(
    k: K,
    factory: F,
    args: json::Tree,
    uid: Seq<char>,
    v: service::ServiceState,
    w: service::ServiceState,
    r: Result<json::Tree, Fault>,
)
    requires
        service::distinct_users(v.users),
        tool_gives(k, factory, "mp_forget_user"@, args, uid, v, w, r),
    ensures
        r matches Ok(told) && json::field(told, "user_id"@) == Some(json::Tree::Text(uid))
            && json::field(told, "dropped"@) == Some(
            json::Tree::Bool(service::has_user(v.users, uid)),
        ),
        !service::has_user(w.users, uid),
        forall|other: Seq<char>|
            other != uid ==> #[trigger] service::facts_of(w, other) == service::facts_of(v, other)
                && service::holder(w, other) == service::holder(v, other),
{
    tools_have_names_of_their_own();
    assert(w == user_removed(v, uid));
    let m = seq![
        ("user_id"@, json::Tree::Text(uid)),
        ("dropped"@, json::Tree::Bool(service::has_user(v.users, uid))),
    ];
    reveal_strlit("user_id");
    reveal_strlit("dropped");
    assert("user_id"@[0] == 'u' && "dropped"@[0] == 'd');
    two_members(m);
    assert(m[0].0 == "user_id"@ && m[1].0 == "dropped"@);
    service::seat_is_first(v.users, uid);
    assert forall|other: Seq<char>| other != uid implies #[trigger] service::facts_of(w, other)
        == service::facts_of(v, other) && service::holder(w, other) == service::holder(v, other) by {
        an_erased_user_is_gone(v, uid, other);
    }
    assert(uid.push('|').len() != uid.len());
    an_erased_user_is_gone(v, uid, uid.push('|'));
}

/// The counters tell how many users there are and how many facts they hold, the
/// shape of the service and the ids of the users, and change nothing.
pub proof fn counting_changes_nothing<K: Kernel, X: Extractor, F: Fn() -> Arc<X>>(
    k: K,
    factory: F,
    args: json::Tree,
    uid: Seq<char>,
    v: service::ServiceState,
    w: service::ServiceState,
    r: Result<json::Tree, Fault>,
)
    requires
        tool_gives(k, factory, "mp_stats"@, args, uid, v, w, r),
    ensures
        w == v,
        r matches Ok(told) && json::field(told, "n_users"@) == Some(
            json::Tree::Number(text::decimal(v.users.len())),
        ) && json::field(told, "total_facts"@) == Some(
            json::Tree::Number(text::decimal(service::fact_total(v.users))),
        ) && json::field(told, "dim"@) == Some(json::Tree::Number(text::decimal(v.dim)))
            && json::field(told, "vocab_cap"@) == Some(
            json::Tree::Number(text::decimal(v.vocab_cap)),
        ) && (json::field(told, "user_ids"@) matches Some(json::Tree::Array(ids)) && ids.len()
            == v.users.len() && forall|i: int|
            0 <= i < ids.len() ==> #[trigger] ids[i] == json::Tree::Text(v.users[i].id)),
{
    let told = stats_value(v);
    let m = told->Object_0;
    reveal_strlit("n_users");
    reveal_strlit("total_facts");
    reveal_strlit("dim");
    reveal_strlit("vocab_cap");
    reveal_strlit("user_ids");
    assert(m.len() == 5);
    assert("n_users"@.len() == 7 && "total_facts"@.len() == 11 && "dim"@.len() == 3
        && "vocab_cap"@.len() == 9 && "user_ids"@.len() == 8);
    assert forall|i: int| 0 <= i < 5 implies json::member(m, (#[trigger] m[i]).0) == Some(
        m[i].1,
    ) by {
        json::a_name_stands_for_its_first_member(m, m[i].0);
        assert(json::first_named(m, m[i].0, i));
    }
    assert(m[0].0 == "n_users"@ && m[1].0 == "total_facts"@ && m[2].0 == "dim"@ && m[3].0
        == "vocab_cap"@ && m[4].0 == "user_ids"@);
}

/// Two members are found by their names.
proof fn two_members(m: Seq<(Seq<char>, json::Tree)>)
    requires
        m.len() == 2,
        m[0].0 != m[1].0,
    ensures
        json::member(m, m[0].0) == Some(m[0].1),
        json::member(m, m[1].0) == Some(m[1].1),
{
    json::a_name_stands_for_its_first_member(m, m[0].0);
    json::a_name_stands_for_its_first_member(m, m[1].0);
    assert(json::first_named(m, m[0].0, 0));
    assert(json::first_named(m, m[1].0, 1));
}

/// A value is the list of these texts.
pub open spec fn is_list_of(v: json::Tree, texts: Seq<Seq<char>>) -> bool {
    v matches json::Tree::Array(items) && items.len() == texts.len() && forall|i: int|
        0 <= i < items.len() ==> #[trigger] items[i] == json::Tree::Text(texts[i])
}

/// What a user is told of themselves is theirs: the answer names them, and its
/// facts stand for facts that are held for them, each with the subject and the
/// relation for a name and, where the noise is low enough, the value that is held.
/// Every fact of theirs is there, and so is every relation with the values it has
/// taken. Nothing that is held changes.
pub proof fn an_export_tells_the_facts<K: Kernel, X: Extractor, F: Fn() -> Arc<X>>(
    k: K,
    factory: F,
    args: json::Tree,
    uid: Seq<char>,
    v: service::ServiceState,
    w: service::ServiceState,
    r: Result<json::Tree, Fault>,
)
    requires
        service::sound(v),
        tool_gives(k, factory, "mp_export_user"@, args, uid, v, w, r),
        r is Ok,
    ensures
        json::field(r->Ok_0, "user_id"@) == Some(json::Tree::Text(uid)),
        json::field(r->Ok_0, "facts"@) matches Some(json::Tree::Object(list)) && {
            &&& forall|e: int|
                #![trigger list[e]]
                0 <= e < list.len() ==> {
                    let key = service::holder(v, uid) + seq!['|'] + list[e].0;
                    &&& service::facts_of(v, uid).contains_key(key)
                    &&& list[e].1 matches json::Tree::Text(t) && (service::has_user(v.users, uid)
                        && adaptive::clear_at(
                        k,
                        v.users[service::seat(v.users, uid) as int].memory.store,
                        key,
                    ) ==> t == service::facts_of(v, uid)[key])
                }
            &&& forall|rest: Seq<char>|
                service::facts_of(v, uid).contains_key(
                    #[trigger] (service::holder(v, uid) + seq!['|'] + rest),
                ) ==> exists|e: int| 0 <= e < list.len() && (#[trigger] list[e]).0 == rest
        },
        json::field(r->Ok_0, "schema"@) matches Some(json::Tree::Object(list)) && list.len()
            == service::schema_of(v, uid).len() && forall|i: int|
            #![trigger list[i]]
            0 <= i < list.len() ==> list[i].0 == service::schema_of(v, uid)[i].0 && is_list_of(
                list[i].1,
                service::schema_of(v, uid)[i].1,
            ),
        forall|id: Seq<char>| #[trigger] service::facts_of(w, id) == service::facts_of(v, id),
{
    tools_have_names_of_their_own();
    let (u, p) = choose|u: service::UserState, p: Seq<Seq<int>>|
        #![trigger service::at_hand(k, v, uid, u), personal::shards_decoded(k, u.memory.store, u.memory.store.shards.len(), p)]
        {
            &&& service::at_hand(k, v, uid, u)
            &&& personal::shards_decoded(k, u.memory.store, u.memory.store.shards.len(), p)
            &&& w == service::memory_put(v, u, u.memory)
            &&& r == Ok::<json::Tree, Fault>(
                export_value(
                    uid,
                    personal::listing_of(
                        u.memory.store,
                        p,
                        personal::user_prefix(u.memory.user),
                        u.memory.store.shards.len(),
                    ),
                    u.memory.schema,
                ),
            )
        };
    service::at_hand_is_theirs(k, v, uid, u);
    service::a_put_memory_is_theirs(v, u, u.memory);
    personal::a_listing_tells_the_facts(k, u.memory.store, p, u.memory.user);
    let facts = personal::listing_of(
        u.memory.store,
        p,
        personal::user_prefix(u.memory.user),
        u.memory.store.shards.len(),
    );
    let m = (r->Ok_0)->Object_0;
    reveal_strlit("user_id");
    reveal_strlit("facts");
    reveal_strlit("schema");
    assert("user_id"@.len() == 7 && "facts"@.len() == 5 && "schema"@.len() == 6);
    first_members(m);
    let list = pair_members(facts);
    assert(m[1] == ("facts"@, json::Tree::Object(list)));
    assert forall|e: int| #![trigger list[e]] 0 <= e < list.len() implies {
        let key = service::holder(v, uid) + seq!['|'] + list[e].0;
        &&& service::facts_of(v, uid).contains_key(key)
        &&& list[e].1 matches json::Tree::Text(t) && (service::has_user(v.users, uid)
            && adaptive::clear_at(
            k,
            v.users[service::seat(v.users, uid) as int].memory.store,
            key,
        ) ==> t == service::facts_of(v, uid)[key])
    } by {
        assert(list[e].0 == facts[e].0);
    }
    let schema = schema_members(u.memory.schema);
    assert(m[2] == ("schema"@, json::Tree::Object(schema)));
    assert(u.memory.schema =~= service::schema_of(v, uid));
    assert forall|i: int| #![trigger schema[i]] 0 <= i < schema.len() implies schema[i].0
        == service::schema_of(v, uid)[i].0 && is_list_of(
        schema[i].1,
        service::schema_of(v, uid)[i].1,
    ) by {}
    assert forall|rest: Seq<char>|
        service::facts_of(v, uid).contains_key(
            #[trigger] (service::holder(v, uid) + seq!['|'] + rest),
        ) implies exists|e: int| 0 <= e < list.len() && (#[trigger] list[e]).0 == rest by {
        assert(personal::names(facts, rest));
        let e = choose|e: int| 0 <= e < facts.len() && (#[trigger] facts[e]).0 == rest;
        assert(list[e].0 == rest);
    }
    assert forall|id: Seq<char>| #[trigger] service::facts_of(w, id) == service::facts_of(v, id) by {
        if id != uid {
        }
    }
}

/// A message that was read in is told of by the facts that were new, and each
/// fact that the extractor read in it is held under its subject and relation.
pub proof fn an_ingested_message_is_held<K: Kernel, X: Extractor, F: Fn() -> Arc<X>>(
    k: K,
    factory: F,
    args: json::Tree,
    uid: Seq<char>,
    v: service::ServiceState,
    w: service::ServiceState,
    r: Result<json::Tree, Fault>,
) -> (read: (X, Seq<fact::FactState>))
    requires
        service::sound(v),
        tool_gives(k, factory, "mp_ingest_message"@, args, uid, v, w, r),
        r is Ok,
    ensures
        json::field(args, "message"@) matches Some(json::Tree::Text(message))
            && extractor::extracted(read.0, message, read.1),
        service::is_made(factory, read.0),
        forall|i: int|
            #![trigger read.1[i]]
            0 <= i < read.1.len() ==> service::facts_of(w, uid).contains_key(
                personal::own_key(service::holder(v, uid), read.1[i]),
            ),
        forall|key: Seq<char>|
            (forall|i: int|
                0 <= i < read.1.len() ==> personal::own_key(
                    service::holder(v, uid),
                    #[trigger] read.1[i],
                ) != key) ==> (#[trigger] service::facts_of(w, uid).contains_key(key)
                <==> service::facts_of(v, uid).contains_key(key)),
        forall|other: Seq<char>|
            other != uid ==> #[trigger] service::facts_of(w, other) == service::facts_of(v, other),
{
    tools_have_names_of_their_own();
    let message = json::text_field(args, "message"@)->Some_0;
    assert(ingest_in_memory::<K, X, F>(k, factory, message, uid, v, w, r));
    let (u, x, facts, m, step) = choose|
        u: service::UserState,
        x: X,
        facts: Seq<fact::FactState>,
        m: personal::PersonalState,
        step: Result<(), HlbError>,
    |
        #![trigger service::at_hand(k, v, uid, u), extractor::extracted(x, message, facts), personal::facts_stored(k, u.memory, facts, m, step)]
        {
            &&& service::at_hand(k, v, uid, u)
            &&& service::is_made(factory, x)
            &&& extractor::extracted(x, message, facts)
            &&& personal::facts_stored(k, u.memory, facts, m, step)
            &&& w == service::memory_put(v, u, m)
            &&& r == done_or_failure(
                step,
                ingest_value(personal::new_facts(u.memory.schema, facts)),
            )
        };
    service::at_hand_is_theirs(k, v, uid, u);
    service::a_put_memory_is_theirs(v, u, m);
    personal::stored_facts_are_held(k, u.memory, facts, m, step);
    (x, facts)
}

/// After a user was erased nothing of theirs is left, and every other user is
/// there as before.
pub proof fn an_erased_user_is_gone(v: service::ServiceState, uid: Seq<char>, other: Seq<char>)
    requires
        service::distinct_users(v.users),
        other != uid,
    ensures
        !service::has_user(user_removed(v, uid).users, uid),
        service::has_user(user_removed(v, uid).users, other) <==> service::has_user(v.users, other),
        service::has_user(v.users, other) ==> user_removed(v, uid).users[service::seat(
            user_removed(v, uid).users,
            other,
        ) as int] == v.users[service::seat(v.users, other) as int],
{
    if service::has_user(v.users, uid) {
        service::removed_user_is_gone(v.users, uid, other);
    }
}

} // verus!
