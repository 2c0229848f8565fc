//! Facts from a language model that speaks the Messages interface.
//!
//! The extractor says what to send and what a reply tells. Sending is left to
//! the caller.

use crate::extractor::{self, parse_facts_json};
use crate::fact::Fact;
use crate::json::{self, Json};
use crate::llm::{self, message, question_for, Client, SYSTEM_PROMPT};
use crate::text::{self, same_text};
use std::time::Duration;
use vstd::prelude::*;

pub use crate::llm::ExtractorStats;

verus! {

broadcast use vstd::string::group_string_axioms;

/// The address unless told otherwise.
pub const DEFAULT_URL: &'static str = "https://api.anthropic.com/v1/messages";

/// The version of the interface.
pub const API_VERSION: &'static str = "2023-06-01";

/// Reads facts by asking a language model.
pub struct AnthropicExtractor {
    client: Client,
}

impl View for AnthropicExtractor {
    type V = llm::ClientState;

    closed spec fn view(&self) -> llm::ClientState {
        self.client@
    }
}

/// What is sent for a text.
pub open spec fn request_value(c: llm::ClientState, text: Seq<char>) -> json::Tree {
    json::Tree::Object(
        seq![
            ("model"@, json::Tree::Text(c.model)),
            ("max_tokens"@, json::Tree::Number(text::decimal(c.max_tokens as nat))),
            ("temperature"@, json::Tree::Number("0.0"@)),
            ("system"@, json::Tree::Text(SYSTEM_PROMPT@)),
            (
                "messages"@,
                json::Tree::Array(seq![llm::message_value("user"@, llm::question(text))]),
            ),
        ],
    )
}

/// What is sent ahead of a request.
pub open spec fn header_texts(c: llm::ClientState) -> Seq<(Seq<char>, Seq<char>)> {
    seq![
        ("x-api-key"@, c.api_key),
        ("anthropic-version"@, API_VERSION@),
        ("content-type"@, "application/json"@),
    ]
}

/// The text of a text block. Other blocks tell nothing.
pub open spec fn block_text(block: json::Tree) -> Seq<char> {
    if json::text_field(block, "type"@) == Some("text"@) {
        match json::text_field(block, "text"@) {
            Some(t) => t,
            None => Seq::empty(),
        }
    } else {
        Seq::empty()
    }
}

/// The text of all text blocks, one behind the other.
pub open spec fn blocks_text(blocks: Seq<json::Tree>) -> Seq<char>
    decreases blocks.len(),
{
    if blocks.len() == 0 {
        Seq::empty()
    } else {
        blocks_text(blocks.drop_last()) + block_text(blocks.last())
    }
}

/// The text of a reply.
pub open spec fn reply_text(body: json::Tree) -> Seq<char> {
    match json::field(body, "content"@) {
        Some(json::Tree::Array(blocks)) => blocks_text(blocks),
        _ => Seq::empty(),
    }
}

/// The client after a reply was read.
pub open spec fn after_reply(c: llm::ClientState, body: json::Tree) -> llm::ClientState {
    llm::ClientState {
        stats: llm::stats_after(c.stats, body, "input_tokens"@, "output_tokens"@),
        ..c
    }
}

/// A request names the model and the limit that are set, asks for the likeliest
/// answer, tells the model what to do, and holds one message by the user: the
/// text with the reminder behind it.
pub proof fn a_request_asks_about_the_text(c: llm::ClientState, text: Seq<char>)
    ensures
        json::field(request_value(c, text), "model"@) == Some(json::Tree::Text(c.model)),
        json::field(request_value(c, text), "max_tokens"@) == Some(
            json::Tree::Number(text::decimal(c.max_tokens as nat)),
        ),
        json::field(request_value(c, text), "temperature"@) == Some(json::Tree::Number("0.0"@)),
        json::field(request_value(c, text), "system"@) == Some(json::Tree::Text(SYSTEM_PROMPT@)),
        json::field(request_value(c, text), "messages"@) matches Some(json::Tree::Array(list))
            && list.len() == 1 && json::field(list[0], "role"@) == Some(json::Tree::Text("user"@))
            && json::field(list[0], "content"@) == Some(
            json::Tree::Text(text + "\n\nReturn {\"facts\": [...]}."@),
        ),
{
    let m = request_value(c, text)->Object_0;
    reveal_strlit("model");
    reveal_strlit("max_tokens");
    reveal_strlit("temperature");
    reveal_strlit("system");
    reveal_strlit("messages");
    assert("model"@.len() == 5 && "max_tokens"@.len() == 10 && "temperature"@.len() == 11
        && "system"@.len() == 6 && "messages"@.len() == 8);
    assert forall|i: int| 0 <= i < 5 implies json::member(m, (#[trigger] m[i]).0) == Some(
        m[i].1,
    ) by {
        json::a_name_stands_for_its_first_member(m, m[i].0);
        assert(json::first_named(m, m[i].0, i));
    }
    assert(m[0].0 == "model"@ && m[1].0 == "max_tokens"@ && m[2].0 == "temperature"@ && m[3].0
        == "system"@ && m[4].0 == "messages"@);
    llm::a_message_has_a_role_and_a_content("user"@, llm::question(text));
}

/// A request is sent with the key, the version of the interface and the kind of
/// content ahead of it.
pub proof fn the_key_is_sent_ahead(c: llm::ClientState)
    ensures
        header_texts(c).len() == 3,
        header_texts(c).contains(("x-api-key"@, c.api_key)),
        header_texts(c).contains(("anthropic-version"@, "2023-06-01"@)),
        header_texts(c).contains(("content-type"@, "application/json"@)),
{
    assert(header_texts(c)[0] == ("x-api-key"@, c.api_key));
    assert(header_texts(c)[1] == ("anthropic-version"@, "2023-06-01"@));
    assert(header_texts(c)[2] == ("content-type"@, "application/json"@));
}

/// The text of a reply is that of its text blocks, one behind the other: one more
/// block adds its text where it is a text block that has one, and nothing where
/// not. A reply without a list of blocks has no text.
pub proof fn a_reply_is_its_text_blocks(body: json::Tree, blocks: Seq<json::Tree>, x: json::Tree)
    ensures
        json::field(body, "content"@) == Some(json::Tree::Array(blocks)) ==> reply_text(body)
            == blocks_text(blocks),
        !(json::field(body, "content"@) matches Some(json::Tree::Array(_))) ==> reply_text(
            body,
        ).len() == 0,
        blocks_text(Seq::empty()).len() == 0,
        json::field(x, "type"@) == Some(json::Tree::Text("text"@)) ==> (json::field(x, "text"@)
            matches Some(json::Tree::Text(t)) ==> blocks_text(blocks.push(x)) == blocks_text(blocks)
            + t),
        json::field(x, "type"@) != Some(json::Tree::Text("text"@)) || !(json::field(x, "text"@)
            matches Some(json::Tree::Text(_))) ==> blocks_text(blocks.push(x)) == blocks_text(
            blocks,
        ),
{
    assert(blocks.push(x).drop_last() =~= blocks);
    assert(blocks_text(blocks) + Seq::<char>::empty() =~= blocks_text(blocks));
}

/// A reply is counted, and so are the tokens that it tells as its input and its
/// output. The settings stay.
pub proof fn a_reply_is_counted(c: llm::ClientState, body: json::Tree)
    ensures
        ({
            let d = after_reply(c, body);
            &&& d.api_key == c.api_key && d.model == c.model && d.api_url == c.api_url
            &&& d.max_tokens == c.max_tokens && d.timeout == c.timeout
            &&& c.stats.total_calls < u64::MAX ==> d.stats.total_calls == c.stats.total_calls + 1
            &&& json::field(body, "usage"@) matches Some(told) ==> {
                &&& llm::is_counted(
                    c.stats.total_tokens_in,
                    json::field(told, "input_tokens"@),
                    d.stats.total_tokens_in,
                )
                &&& llm::is_counted(
                    c.stats.total_tokens_out,
                    json::field(told, "output_tokens"@),
                    d.stats.total_tokens_out,
                )
            }
        }),
{
    llm::replies_and_tokens_are_counted(c.stats, body, "input_tokens"@, "output_tokens"@);
}

impl AnthropicExtractor {
    /// An extractor that asks a model, with the usual address and limits.
    pub fn new(api_key: &str, model: &str) -> (r: Self)
        ensures
            r@ == llm::new_client(api_key@, model@, DEFAULT_URL@),
            r@.api_url == "https://api.anthropic.com/v1/messages"@,
            r@.model == model@,
            r@.api_key == api_key@,
    {
        AnthropicExtractor { client: Client::new(api_key, model, DEFAULT_URL) }
    }

    /// The same extractor with another model.
    pub fn with_model(self, model: &str) -> (r: Self)
        ensures
            r@ == (llm::ClientState { model: model@, ..self@ }),
    {
        AnthropicExtractor { client: self.client.with_model(model) }
    }

    /// The same extractor with another limit on a reply's tokens.
    pub fn with_max_tokens(self, max_tokens: u32) -> (r: Self)
        ensures
            r@ == (llm::ClientState { max_tokens, ..self@ }),
    {
        AnthropicExtractor { client: self.client.with_max_tokens(max_tokens) }
    }

    /// The same extractor with another limit on a reply's time.
    pub fn with_timeout(self, timeout: Duration) -> (r: Self)
        ensures
            r@ == (llm::ClientState { timeout, ..self@ }),
    {
        AnthropicExtractor { client: self.client.with_timeout(timeout) }
    }

    /// The same extractor with another address.
    pub fn with_api_url(self, url: &str) -> (r: Self)
        ensures
            r@ == (llm::ClientState { api_url: url@, ..self@ }),
    {
        AnthropicExtractor { client: self.client.with_api_url(url) }
    }

    /// The settings.
    pub fn client(&self) -> (r: &Client)
        ensures
            r@ == self@,
    {
        &self.client
    }

    /// The counters.
    pub fn stats(&self) -> (r: ExtractorStats)
        ensures
            r == self@.stats,
    {
        self.client.stats()
    }

    /// What is sent for a text.
    pub fn request(&self, text: &str) -> (r: Json)
        ensures
            r@ == request_value(self@, text@),
    {
        let mut messages: Vec<Json> = Vec::new();
        messages.push(message("user", &question_for(text)));
        assert(json::values(messages@) =~= seq![
            llm::message_value("user"@, llm::question(text@)),
        ]);
        let mut m: Vec<(String, Json)> = Vec::new();
        m.push(("model".to_string(), Json::text(self.client.model())));
        m.push(("max_tokens".to_string(), Json::number(self.client.max_tokens() as u64)));
        m.push(("temperature".to_string(), Json::Number("0.0".to_string())));
        m.push(("system".to_string(), Json::text(SYSTEM_PROMPT)));
        m.push(("messages".to_string(), Json::array(messages)));
        assert(json::members(m@) =~= request_value(self@, text@)->Object_0);
        Json::object(m)
    }

    /// What is sent ahead of a request.
    pub fn headers(&self) -> (r: Vec<(String, String)>)
        ensures
            text::pair_texts(r@) == header_texts(self@),
    {
        let mut h: Vec<(String, String)> = Vec::new();
        h.push(("x-api-key".to_string(), self.client.api_key().to_string()));
        h.push(("anthropic-version".to_string(), API_VERSION.to_string()));
        h.push(("content-type".to_string(), "application/json".to_string()));
        assert(text::pair_texts(h@) =~= header_texts(self@));
        h
    }

    /// Reads a reply to what was sent for a text: counts it and gives the facts
    /// that it tells.
    pub fn read_reply(&mut self, body: &Json, text: &str) -> (r: Vec<Fact>)
        ensures
            final(self)@ == after_reply(old(self)@, body@),
            extractor::fact_states(r@) == extractor::facts_in_text(reply_text(body@), text@),
    {
        self.client.tally(body, "input_tokens", "output_tokens");
        parse_facts_json(&text_of_reply(body), text)
    }

    /// Reads the body of a reply. One that is no JSON is an error and is not
    /// counted.
    pub fn read_body(&mut self, body: &str, text: &str) -> (r: Result<Vec<Fact>, String>)
        ensures
            match json::reading(body@) {
                Ok(j) => {
                    &&& final(self)@ == after_reply(old(self)@, j)
                    &&& r matches Ok(facts) && extractor::fact_states(facts@)
                        == extractor::facts_in_text(reply_text(j), text@)
                },
                Err(e) => {
                    &&& final(self)@ == old(self)@
                    &&& r matches Err(m) && m@ == "anthropic json parse: "@ + e
                },
            },
    {
        match json::parse(body) {
            Ok(j) => Ok(self.read_reply(&j, text)),
            Err(e) => {
                let mut m = String::new();
                m.append("anthropic json parse: ");
                m.append(&e);
                Err(m)
            },
        }
    }
}

/// The text of a reply.
pub fn text_of_reply(body: &Json) -> (r: String)
    ensures
        r@ == reply_text(body@),
{
    let mut out = String::new();
    if let Some(content) = body.get("content") {
        proof {
            json::view_of_lists(content);
        }
        if let Json::Array(blocks) = content {
            let ghost all = json::values(blocks@);
            let mut i: usize = 0;
            assert(out@ =~= blocks_text(all.take(0)));
            while i < blocks.len()
                invariant
                    all == json::values(blocks@),
                    i <= blocks@.len(),
                    out@ == blocks_text(all.take(i as int)),
                decreases blocks@.len() - i,
            {
                assert(all.take(i + 1).drop_last() =~= all.take(i as int));
                assert(all.take(i + 1).last() == blocks@[i as int]@);
                let block = &blocks[i];
                let ghost before = out@;
                if let Some(kind) = block.get_text("type") {
                    if same_text(kind, "text") {
                        if let Some(t) = block.get_text("text") {
                            out.append(t);
                        }
                    }
                }
                i += 1;
                assert(out@ =~= before + block_text(block@));
            }
            assert(all.take(i as int) =~= all);
        }
    }
    out
}

} // verus!
