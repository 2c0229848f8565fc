//! What the extractors that ask a language model share: the settings of a
//! client, the prompt and the counters.

use crate::json::{self, Json};
use crate::text;
use std::time::Duration;
use vstd::prelude::*;

verus! {

broadcast use vstd::string::group_string_axioms;

/// What the model is told to do.
pub const SYSTEM_PROMPT: &'static str = r#"You extract structured personal facts from user messages.

Return JSON with this exact shape:
  {"facts": [
      {"subject": "...", "predicate": "...", "object": "..."},
      ...
  ]}

Field rules:
  - subject:   "user" by default, or the named entity the fact is about
  - predicate: snake_case relationship name
               (e.g. "works_as", "lives_in", "likes", "owns", "speaks")
  - object:    short canonical lowercase noun phrase

Extraction rules:
  - Extract ONLY facts EXPLICITLY stated in the text. Do not infer.
  - If no extractable facts, return {"facts": []}.
  - Output JSON only — no prose, no markdown fences, no commentary."#;

/// What stands behind the text in a message.
pub const REMINDER: &'static str = "\n\nReturn {\"facts\": [...]}.";

/// How many tokens a reply may have unless told otherwise.
pub const DEFAULT_MAX_TOKENS: u32 = 1024;

/// How many seconds a reply may take unless told otherwise.
pub const DEFAULT_TIMEOUT_SECS: u64 = 30;

/// The name for what `Duration::from_secs` gives.
pub uninterp spec fn seconds_long(secs: u64) -> Duration;

/// Calls `Duration::from_secs`. The contract claims only that the result is a
/// function of the number.
#[verifier::external_body]
fn seconds(secs: u64) -> (r: Duration)
    ensures
        r == seconds_long(secs),
{
    Duration::from_secs(secs)
}

/// How often a model was asked, and what it took.
#[derive(Debug, Clone, Copy, PartialEq, Eq, Structural)]
pub struct ExtractorStats {
    pub total_calls: u64,
    pub total_tokens_in: u64,
    pub total_tokens_out: u64,
}

/// A counter after `n` more. It starts again from zero where it overflows.
pub open spec fn counted(counter: u64, n: nat) -> u64 {
    if counter + n > u64::MAX {
        (counter + n - 0x1_0000_0000_0000_0000) as u64
    } else {
        (counter + n) as u64
    }
}

/// A counter after a number of tokens, if that is told.
pub open spec fn tallied(counter: u64, tokens: Option<nat>) -> u64 {
    match tokens {
        Some(n) => counted(counter, n),
        None => counter,
    }
}

/// The number of tokens under a name in the usage that a reply tells.
pub open spec fn usage(body: json::Tree, name: Seq<char>) -> Option<nat> {
    match json::field(body, "usage"@) {
        Some(u) => json::whole_field(u, name),
        None => None,
    }
}

/// The counters after a reply.
pub open spec fn stats_after(
    s: ExtractorStats,
    body: json::Tree,
    tokens_in: Seq<char>,
    tokens_out: Seq<char>,
) -> ExtractorStats {
    ExtractorStats {
        total_calls: counted(s.total_calls, 1),
        total_tokens_in: tallied(s.total_tokens_in, usage(body, tokens_in)),
        total_tokens_out: tallied(s.total_tokens_out, usage(body, tokens_out)),
    }
}

/// What a client is set to.
#[verifier::ext_equal]
pub struct ClientState {
    pub api_key: Seq<char>,
    pub model: Seq<char>,
    pub api_url: Seq<char>,
    pub max_tokens: u32,
    pub timeout: Duration,
    pub stats: ExtractorStats,
}

/// The settings and the counters of a client.
pub struct Client {
    api_key: String,
    model: String,
    api_url: String,
    max_tokens: u32,
    timeout: Duration,
    stats: ExtractorStats,
}

impl View for Client {
    type V = ClientState;

    closed spec fn view(&self) -> ClientState {
        ClientState {
            api_key: self.api_key@,
            model: self.model@,
            api_url: self.api_url@,
            max_tokens: self.max_tokens,
            timeout: self.timeout,
            stats: self.stats,
        }
    }
}

/// What a new client is set to.
pub open spec fn new_client(
    api_key: Seq<char>,
    model: Seq<char>,
    api_url: Seq<char>,
) -> ClientState {
    ClientState {
        api_key,
        model,
        api_url,
        max_tokens: DEFAULT_MAX_TOKENS,
        timeout: seconds_long(DEFAULT_TIMEOUT_SECS),
        stats: ExtractorStats { total_calls: 0, total_tokens_in: 0, total_tokens_out: 0 },
    }
}

/// A new client has what it is given, may take a thousand and twenty-four tokens
/// and half a minute for a reply, and has counted nothing.
pub proof fn a_new_client_has_the_usual_limits(
    api_key: Seq<char>,
    model: Seq<char>,
    api_url: Seq<char>,
)
    ensures
        ({
            let c = new_client(api_key, model, api_url);
            &&& c.api_key == api_key && c.model == model && c.api_url == api_url
            &&& c.max_tokens == 1024
            &&& c.timeout == seconds_long(30)
            &&& c.stats.total_calls == 0
            &&& c.stats.total_tokens_in == 0
            &&& c.stats.total_tokens_out == 0
        }),
{
}

impl Client {
    /// A client with the usual limits that has not asked anything.
    pub fn new(api_key: &str, model: &str, api_url: &str) -> (r: Self)
        ensures
            r@ == new_client(api_key@, model@, api_url@),
    {
        Client {
            api_key: api_key.to_string(),
            model: model.to_string(),
            api_url: api_url.to_string(),
            max_tokens: DEFAULT_MAX_TOKENS,
            timeout: seconds(DEFAULT_TIMEOUT_SECS),
            stats: ExtractorStats { total_calls: 0, total_tokens_in: 0, total_tokens_out: 0 },
        }
    }

    /// The same client with another model.
    pub fn with_model(self, model: &str) -> (r: Self)
        ensures
            r@ == (ClientState { model: model@, ..self@ }),
    {
        Client { model: model.to_string(), ..self }
    }

    /// The same client with another limit on a reply's tokens.
    pub fn with_max_tokens(self, max_tokens: u32) -> (r: Self)
        ensures
            r@ == (ClientState { max_tokens, ..self@ }),
    {
        Client { max_tokens, ..self }
    }

    /// The same client with another limit on a reply's time.
    pub fn with_timeout(self, timeout: Duration) -> (r: Self)
        ensures
            r@ == (ClientState { timeout, ..self@ }),
    {
        Client { timeout, ..self }
    }

    /// The same client with another address.
    pub fn with_api_url(self, url: &str) -> (r: Self)
        ensures
            r@ == (ClientState { api_url: url@, ..self@ }),
    {
        Client { api_url: url.to_string(), ..self }
    }

    pub fn api_key(&self) -> (r: &str)
        ensures
            r@ == self@.api_key,
    {
        self.api_key.as_str()
    }

    pub fn model(&self) -> (r: &str)
        ensures
            r@ == self@.model,
    {
        self.model.as_str()
    }

    pub fn api_url(&self) -> (r: &str)
        ensures
            r@ == self@.api_url,
    {
        self.api_url.as_str()
    }

    pub fn max_tokens(&self) -> (r: u32)
        ensures
            r == self@.max_tokens,
    {
        self.max_tokens
    }

    pub fn timeout(&self) -> (r: Duration)
        ensures
            r == self@.timeout,
    {
        self.timeout
    }

    pub fn stats(&self) -> (r: ExtractorStats)
        ensures
            r == self@.stats,
    {
        self.stats
    }

    /// Counts a reply. The usage is told under the given names.
    pub fn tally(&mut self, body: &Json, tokens_in: &str, tokens_out: &str)
        ensures
            final(self)@ == (ClientState {
                stats: stats_after(old(self)@.stats, body@, tokens_in@, tokens_out@),
                ..old(self)@
            }),
    {
        let ghost before = self@;
        let mut s = self.stats;
        if let Some(u) = body.get("usage") {
            if let Some(n) = u.get_u64(tokens_in) {
                s.total_tokens_in = s.total_tokens_in.wrapping_add(n);
            }
            if let Some(n) = u.get_u64(tokens_out) {
                s.total_tokens_out = s.total_tokens_out.wrapping_add(n);
            }
        }
        s.total_calls = s.total_calls.wrapping_add(1);
        self.stats = s;
        assert(self@ =~= ClientState {
            stats: stats_after(before.stats, body@, tokens_in@, tokens_out@),
            ..before
        });
    }
}

/// A reply is counted once, and its tokens where its usage tells them as a whole
/// number under the name; a counter that would overflow starts again from zero.
pub proof fn replies_and_tokens_are_counted(
    s: ExtractorStats,
    body: json::Tree,
    tokens_in: Seq<char>,
    tokens_out: Seq<char>,
)
    ensures
        ({
            let t = stats_after(s, body, tokens_in, tokens_out);
            &&& s.total_calls < u64::MAX ==> t.total_calls == s.total_calls + 1
            &&& s.total_calls == u64::MAX ==> t.total_calls == 0
            &&& json::field(body, "usage"@) matches Some(told) ==> {
                &&& is_counted(s.total_tokens_in, json::field(told, tokens_in), t.total_tokens_in)
                &&& is_counted(
                    s.total_tokens_out,
                    json::field(told, tokens_out),
                    t.total_tokens_out,
                )
            }
            &&& json::field(body, "usage"@) is None ==> t.total_tokens_in == s.total_tokens_in
                && t.total_tokens_out == s.total_tokens_out
        }),
{
}

/// `after` is what a counter shows after the told number, if one is told that fits
/// a word: the two agree but for whole turns of the counter.
pub open spec fn is_counted(before: u64, told: Option<json::Tree>, after: u64) -> bool {
    match told {
        Some(json::Tree::Number(n)) => match text::read_decimal(n, u64::MAX as nat) {
            Some(x) => if before + x <= u64::MAX {
                after == before + x
            } else {
                after + 0x1_0000_0000_0000_0000 == before + x
            },
            None => after == before,
        },
        _ => after == before,
    }
}

/// What is asked about a text.
pub open spec fn question(text: Seq<char>) -> Seq<char> {
    text + REMINDER@
}

/// What is asked about a text.
pub fn question_for(text: &str) -> (r: String)
    ensures
        r@ == question(text@),
{
    let mut s = String::new();
    s.append(text);
    s.append(REMINDER);
    assert(s@ =~= question(text@));
    s
}

/// One message of a conversation.
pub open spec fn message_value(role: Seq<char>, content: Seq<char>) -> json::Tree {
    json::Tree::Object(
        seq![("role"@, json::Tree::Text(role)), ("content"@, json::Tree::Text(content))],
    )
}

/// A message tells who speaks and what is said.
pub proof fn a_message_has_a_role_and_a_content(role: Seq<char>, content: Seq<char>)
    ensures
        json::field(message_value(role, content), "role"@) == Some(json::Tree::Text(role)),
        json::field(message_value(role, content), "content"@) == Some(json::Tree::Text(content)),
{
    let m = message_value(role, content)->Object_0;
    reveal_strlit("role");
    reveal_strlit("content");
    assert("role"@.len() == 4 && "content"@.len() == 7);
    json::a_name_stands_for_its_first_member(m, "role"@);
    json::a_name_stands_for_its_first_member(m, "content"@);
    assert(json::first_named(m, "role"@, 0));
    assert(json::first_named(m, "content"@, 1));
}

/// One message of a conversation.
pub fn message(role: &str, content: &str) -> (r: Json)
    ensures
        r@ == message_value(role@, content@),
{
    Json::object2("role", Json::text(role), "content", Json::text(content))
}

} // verus!
