//! Facts from a language model that speaks the Chat Completions interface.
//!
//! The extractor says what to send and what a reply tells. Sending is left to
//! the caller.

use crate::extractor::{self, parse_facts_json};
use crate::fact::Fact;
use crate::json::{self, Json};
use crate::llm::{self, message, question_for, Client, ExtractorStats, SYSTEM_PROMPT};
use crate::text;
use std::time::Duration;
use vstd::prelude::*;

verus! {

broadcast use vstd::string::group_string_axioms;

/// The model unless told otherwise.
pub const DEFAULT_MODEL: &'static str = "gpt-4o-mini";

/// The address unless told otherwise.
pub const DEFAULT_URL: &'static str = "https://api.openai.com/v1/chat/completions";

/// Reads facts by asking a language model.
pub struct OpenAIExtractor {
    client: Client,
}

impl View for OpenAIExtractor {
    type V = llm::ClientState;

    closed spec fn view(&self) -> llm::ClientState {
        self.client@
    }
}

/// What is sent for a text.
pub open spec fn request_value(c: llm::ClientState, text: Seq<char>) -> json::Tree {
    json::Tree::Object(
        seq![
            ("model"@, json::Tree::Text(c.model)),
            ("max_tokens"@, json::Tree::Number(text::decimal(c.max_tokens as nat))),
            ("temperature"@, json::Tree::Number("0.0"@)),
            (
                "response_format"@,
                json::Tree::Object(seq![("type"@, json::Tree::Text("json_object"@))]),
            ),
            (
                "messages"@,
                json::Tree::Array(
                    seq![
                        llm::message_value("system"@, SYSTEM_PROMPT@),
                        llm::message_value("user"@, llm::question(text)),
                    ],
                ),
            ),
        ],
    )
}

/// What is sent ahead of a request.
pub open spec fn header_texts(c: llm::ClientState) -> Seq<(Seq<char>, Seq<char>)> {
    seq![
        ("authorization"@, "Bearer "@ + c.api_key),
        ("content-type"@, "application/json"@),
    ]
}

/// The text of a reply: that of the message in its first choice.
pub open spec fn reply_text(body: json::Tree) -> Seq<char> {
    match json::field(body, "choices"@) {
        Some(json::Tree::Array(choices)) => if choices.len() > 0 {
            choice_text(choices[0])
        } else {
            Seq::empty()
        },
        _ => Seq::empty(),
    }
}

/// The text of the message in a choice.
pub open spec fn choice_text(choice: json::Tree) -> Seq<char> {
    match json::field(choice, "message"@) {
        Some(m) => match json::text_field(m, "content"@) {
            Some(t) => t,
            None => Seq::empty(),
        },
        None => Seq::empty(),
    }
}

/// The client after a reply was read.
pub open spec fn after_reply(c: llm::ClientState, body: json::Tree) -> llm::ClientState {
    llm::ClientState {
        stats: llm::stats_after(c.stats, body, "prompt_tokens"@, "completion_tokens"@),
        ..c
    }
}

/// A request names the model and the limit that are set, asks for the likeliest
/// answer as a JSON object, and holds two messages: the system's, which tells the
/// model what to do, and the user's, the text with the reminder behind it.
pub proof fn a_request_asks_about_the_text(c: llm::ClientState, text: Seq<char>)
    ensures
        json::field(request_value(c, text), "model"@) == Some(json::Tree::Text(c.model)),
        json::field(request_value(c, text), "max_tokens"@) == Some(
            json::Tree::Number(text::decimal(c.max_tokens as nat)),
        ),
        json::field(request_value(c, text), "temperature"@) == Some(json::Tree::Number("0.0"@)),
        json::field(request_value(c, text), "response_format"@) matches Some(f) && json::field(
            f,
            "type"@,
        ) == Some(json::Tree::Text("json_object"@)),
        json::field(request_value(c, text), "messages"@) matches Some(json::Tree::Array(list))
            && list.len() == 2 && json::field(list[0], "role"@) == Some(
            json::Tree::Text("system"@),
        ) && json::field(list[0], "content"@) == Some(json::Tree::Text(SYSTEM_PROMPT@))
            && json::field(list[1], "role"@) == Some(json::Tree::Text("user"@)) && json::field(
            list[1],
            "content"@,
        ) == Some(json::Tree::Text(text + "\n\nReturn {\"facts\": [...]}."@)),
{
    let m = request_value(c, text)->Object_0;
    reveal_strlit("model");
    reveal_strlit("max_tokens");
    reveal_strlit("temperature");
    reveal_strlit("response_format");
    reveal_strlit("messages");
    assert("model"@.len() == 5 && "max_tokens"@.len() == 10 && "temperature"@.len() == 11
        && "response_format"@.len() == 15 && "messages"@.len() == 8);
    assert forall|i: int| 0 <= i < 5 implies json::member(m, (#[trigger] m[i]).0) == Some(
        m[i].1,
    ) by {
        json::a_name_stands_for_its_first_member(m, m[i].0);
        assert(json::first_named(m, m[i].0, i));
    }
    assert(m[0].0 == "model"@ && m[1].0 == "max_tokens"@ && m[2].0 == "temperature"@ && m[3].0
        == "response_format"@ && m[4].0 == "messages"@);
    reveal_with_fuel(json::member, 2);
    llm::a_message_has_a_role_and_a_content("system"@, SYSTEM_PROMPT@);
    llm::a_message_has_a_role_and_a_content("user"@, llm::question(text));
}

/// A request is sent with the key and the kind of content ahead of it.
pub proof fn the_key_is_sent_ahead(c: llm::ClientState)
    ensures
        header_texts(c).len() == 2,
        header_texts(c).contains(("authorization"@, "Bearer "@ + c.api_key)),
        header_texts(c).contains(("content-type"@, "application/json"@)),
{
    assert(header_texts(c)[0] == ("authorization"@, "Bearer "@ + c.api_key));
    assert(header_texts(c)[1] == ("content-type"@, "application/json"@));
}

/// The text of a reply is the content of the message in its first choice, where
/// that is a text; else there is none.
pub proof fn a_reply_is_its_first_choice(body: json::Tree)
    ensures
        json::field(body, "choices"@) matches Some(json::Tree::Array(list)) ==> {
            &&& list.len() == 0 ==> reply_text(body).len() == 0
            &&& list.len() > 0 ==> (json::field(list[0], "message"@) matches Some(m) ==> {
                &&& json::field(m, "content"@) matches Some(json::Tree::Text(t)) ==> reply_text(
                    body,
                ) == t
                &&& !(json::field(m, "content"@) matches Some(json::Tree::Text(_)))
                    ==> reply_text(body).len() == 0
            })
            &&& list.len() > 0 && json::field(list[0], "message"@) is None ==> reply_text(
                body,
            ).len() == 0
        },
        !(json::field(body, "choices"@) matches Some(json::Tree::Array(_))) ==> reply_text(
            body,
        ).len() == 0,
{
}

/// A reply is counted, and so are the tokens that it tells as its prompt and its
/// completion. The settings stay.
pub proof fn a_reply_is_counted(c: llm::ClientState, body: json::Tree)
    ensures
        ({
            let d = after_reply(c, body);
            &&& d.api_key == c.api_key && d.model == c.model && d.api_url == c.api_url
            &&& d.max_tokens == c.max_tokens && d.timeout == c.timeout
            &&& c.stats.total_calls < u64::MAX ==> d.stats.total_calls == c.stats.total_calls + 1
            &&& json::field(body, "usage"@) matches Some(told) ==> {
                &&& llm::is_counted(
                    c.stats.total_tokens_in,
                    json::field(told, "prompt_tokens"@),
                    d.stats.total_tokens_in,
                )
                &&& llm::is_counted(
                    c.stats.total_tokens_out,
                    json::field(told, "completion_tokens"@),
                    d.stats.total_tokens_out,
                )
            }
        }),
{
    llm::replies_and_tokens_are_counted(c.stats, body, "prompt_tokens"@, "completion_tokens"@);
}

impl OpenAIExtractor {
    /// An extractor with the usual model, address and limits.
    pub fn new(api_key: &str) -> (r: Self)
        ensures
            r@ == llm::new_client(api_key@, DEFAULT_MODEL@, DEFAULT_URL@),
            r@.model == "gpt-4o-mini"@,
            r@.api_url == "https://api.openai.com/v1/chat/completions"@,
            r@.api_key == api_key@,
    {
        OpenAIExtractor { client: Client::new(api_key, DEFAULT_MODEL, DEFAULT_URL) }
    }

    /// The same extractor with another model.
    pub fn with_model(self, model: &str) -> (r: Self)
        ensures
            r@ == (llm::ClientState { model: model@, ..self@ }),
    {
        OpenAIExtractor { client: self.client.with_model(model) }
    }

    /// The same extractor with another limit on a reply's tokens.
    pub fn with_max_tokens(self, max_tokens: u32) -> (r: Self)
        ensures
            r@ == (llm::ClientState { max_tokens, ..self@ }),
    {
        OpenAIExtractor { client: self.client.with_max_tokens(max_tokens) }
    }

    /// The same extractor with another limit on a reply's time.
    pub fn with_timeout(self, timeout: Duration) -> (r: Self)
        ensures
            r@ == (llm::ClientState { timeout, ..self@ }),
    {
        OpenAIExtractor { client: self.client.with_timeout(timeout) }
    }

    /// The same extractor with another address.
    pub fn with_api_url(self, url: &str) -> (r: Self)
        ensures
            r@ == (llm::ClientState { api_url: url@, ..self@ }),
    {
        OpenAIExtractor { client: self.client.with_api_url(url) }
    }

    /// The settings.
    pub fn client(&self) -> (r: &Client)
        ensures
            r@ == self@,
    {
        &self.client
    }

    /// The counters.
    pub fn stats(&self) -> (r: ExtractorStats)
        ensures
            r == self@.stats,
    {
        self.client.stats()
    }

    /// What is sent for a text.
    pub fn request(&self, text: &str) -> (r: Json)
        ensures
            r@ == request_value(self@, text@),
    {
        let mut messages: Vec<Json> = Vec::new();
        messages.push(message("system", SYSTEM_PROMPT));
        messages.push(message("user", &question_for(text)));
        assert(json::values(messages@) =~= seq![
            llm::message_value("system"@, SYSTEM_PROMPT@),
            llm::message_value("user"@, llm::question(text@)),
        ]);
        let mut m: Vec<(String, Json)> = Vec::new();
        m.push(("model".to_string(), Json::text(self.client.model())));
        m.push(("max_tokens".to_string(), Json::number(self.client.max_tokens() as u64)));
        m.push(("temperature".to_string(), Json::Number("0.0".to_string())));
        m.push(("response_format".to_string(), Json::object1("type", Json::text("json_object"))));
        m.push(("messages".to_string(), Json::array(messages)));
        assert(json::members(m@) =~= request_value(self@, text@)->Object_0);
        Json::object(m)
    }

    /// What is sent ahead of a request.
    pub fn headers(&self) -> (r: Vec<(String, String)>)
        ensures
            text::pair_texts(r@) == header_texts(self@),
    {
        let mut bearer = String::new();
        bearer.append("Bearer ");
        bearer.append(self.client.api_key());
        let mut h: Vec<(String, String)> = Vec::new();
        h.push(("authorization".to_string(), bearer));
        h.push(("content-type".to_string(), "application/json".to_string()));
        assert(text::pair_texts(h@) =~= header_texts(self@));
        h
    }

    /// Reads a reply to what was sent for a text: counts it and gives the facts
    /// that it tells.
    pub fn read_reply(&mut self, body: &Json, text: &str) -> (r: Vec<Fact>)
        ensures
            final(self)@ == after_reply(old(self)@, body@),
            extractor::fact_states(r@) == extractor::facts_in_text(reply_text(body@), text@),
    {
        self.client.tally(body, "prompt_tokens", "completion_tokens");
        parse_facts_json(&text_of_reply(body), text)
    }

    /// Reads the body of a reply. One that is no JSON is an error and is not
    /// counted.
    pub fn read_body(&mut self, body: &str, text: &str) -> (r: Result<Vec<Fact>, String>)
        ensures
            match json::reading(body@) {
                Ok(j) => {
                    &&& final(self)@ == after_reply(old(self)@, j)
                    &&& r matches Ok(facts) && extractor::fact_states(facts@)
                        == extractor::facts_in_text(reply_text(j), text@)
                },
                Err(e) => {
                    &&& final(self)@ == old(self)@
                    &&& r matches Err(m) && m@ == "openai json parse: "@ + e
                },
            },
    {
        match json::parse(body) {
            Ok(j) => Ok(self.read_reply(&j, text)),
            Err(e) => {
                let mut m = String::new();
                m.append("openai json parse: ");
                m.append(&e);
                Err(m)
            },
        }
    }
}

/// The text of a reply.
pub fn text_of_reply(body: &Json) -> (r: String)
    ensures
        r@ == reply_text(body@),
{
    if let Some(list) = body.get("choices") {
        proof {
            json::view_of_lists(list);
        }
        if let Json::Array(choices) = list {
            if choices.len() > 0 {
                assert(json::values(choices@)[0] == choices@[0]@);
                if let Some(m) = choices[0].get("message") {
                    if let Some(t) = m.get_text("content") {
                        return t.to_string();
                    }
                }
            }
        }
    }
    String::new()
}

} // verus!
