//! The extractor that asks a model through the Messages interface.

use memory_plant::anthropic::{AnthropicExtractor, ExtractorStats};
use memory_plant::json::{self, Json};
use std::time::Duration;

#[test]
fn builder_pattern_sets_fields() {
    let ex = AnthropicExtractor::new("test-key", "haiku")
        .with_model("sonnet")
        .with_max_tokens(2048)
        .with_timeout(Duration::from_secs(10));
    assert_eq!(ex.client().model(), "sonnet");
    assert_eq!(ex.client().max_tokens(), 2048);
    assert_eq!(ex.client().timeout(), Duration::from_secs(10));
}

#[test]
fn anthropic_stats_start_zero() {
    let ex = AnthropicExtractor::new("k", "m");
    let s = ex.stats();
    assert_eq!(s.total_calls, 0);
    assert_eq!(s.total_tokens_in, 0);
    assert_eq!(s.total_tokens_out, 0);
}

#[test]
fn anthropic_usual_settings() {
    let ex = AnthropicExtractor::new("k", "m");
    assert_eq!(ex.client().api_key(), "k");
    assert_eq!(ex.client().model(), "m");
    assert_eq!(ex.client().api_url(), "https://api.anthropic.com/v1/messages");
    assert_eq!(ex.client().max_tokens(), 1024);
    assert_eq!(ex.client().timeout(), Duration::from_secs(30));
    assert_eq!(ex.with_api_url("http://localhost").client().api_url(), "http://localhost");
}

#[test]
fn anthropic_request_and_headers() {
    let ex = AnthropicExtractor::new("key", "m").with_max_tokens(7);
    let req = ex.request("I like tea");
    let want = json::parse(
        "{\"model\":\"m\",\"max_tokens\":7,\"temperature\":0.0,\"messages\":[{\"role\":\"user\",\"content\":\"I like tea\\n\\nReturn {\\\"facts\\\": [...]}.\"}]}",
    )
    .unwrap();
    for name in ["model", "max_tokens", "temperature", "messages"] {
        assert_eq!(
            json::compact_text(req.get(name).unwrap()),
            json::compact_text(want.get(name).unwrap()),
            "{name}"
        );
    }
    assert!(req.get_text("system").unwrap().starts_with("You extract structured personal facts"));
    let pair = |a: &str, b: &str| (a.to_string(), b.to_string());
    assert_eq!(
        ex.headers(),
        vec![
            pair("x-api-key", "key"),
            pair("anthropic-version", "2023-06-01"),
            pair("content-type", "application/json"),
        ]
    );
}

#[test]
fn anthropic_replies_are_counted_and_read() {
    let mut ex = AnthropicExtractor::new("k", "m");
    let told = "{\"facts\": [{\"predicate\": \"Likes\", \"object\": \"Tea\"}, {\"predicate\": \"x\"}]}";
    let mut block = json::parse("{\"type\":\"text\"}").unwrap();
    if let Json::Object(m) = &mut block {
        m.push(("text".to_string(), Json::Text(told.to_string())));
    }
    let skipped = json::parse("{\"type\":\"thinking\",\"text\":\"zzz\"}").unwrap();
    let body = Json::object2(
        "content",
        Json::array(vec![skipped, block]),
        "usage",
        Json::object2("input_tokens", Json::number(12), "output_tokens", Json::number(5)),
    );
    let facts = ex.read_body(&json::compact_text(&body), "I like Tea").unwrap();
    assert_eq!(facts.len(), 1);
    assert_eq!(
        (facts[0].subject.as_str(), facts[0].predicate.as_str(), facts[0].obj.as_str()),
        ("user", "likes", "tea")
    );
    assert_eq!(facts[0].source, "I like Tea");
    ex.read_reply(&body, "again");
    let want = ExtractorStats { total_calls: 2, total_tokens_in: 24, total_tokens_out: 10 };
    assert_eq!(ex.stats(), want);
}

#[test]
fn anthropic_body_that_is_no_json() {
    let mut ex = AnthropicExtractor::new("k", "m");
    let e = ex.read_body("nope", "text").unwrap_err();
    assert!(e.starts_with("anthropic json parse: "), "{e}");
    assert_eq!(ex.stats().total_calls, 0);
}
