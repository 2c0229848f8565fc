//! The extractor that asks a model through the Chat Completions interface.

use memory_plant::json;
use memory_plant::llm::ExtractorStats;
use memory_plant::openai::OpenAIExtractor;
use std::time::Duration;

#[test]
fn defaults_to_gpt4o_mini() {
    let ex = OpenAIExtractor::new("test");
    assert_eq!(ex.client().model(), "gpt-4o-mini");
}

#[test]
fn builder_pattern() {
    let ex = OpenAIExtractor::new("test").with_model("gpt-4o").with_max_tokens(2048);
    assert_eq!(ex.client().model(), "gpt-4o");
    assert_eq!(ex.client().max_tokens(), 2048);
}

#[test]
fn openai_stats_start_zero() {
    let ex = OpenAIExtractor::new("test");
    let s = ex.stats();
    assert_eq!(s.total_calls, 0);
}

#[test]
fn openai_usual_settings() {
    let ex = OpenAIExtractor::new("test");
    assert_eq!(ex.client().api_url(), "https://api.openai.com/v1/chat/completions");
    assert_eq!(ex.client().timeout(), Duration::from_secs(30));
    let ex = ex.with_timeout(Duration::from_secs(3)).with_api_url("http://localhost");
    assert_eq!(ex.client().timeout(), Duration::from_secs(3));
    assert_eq!(ex.client().api_url(), "http://localhost");
}

#[test]
fn openai_request_and_headers() {
    let ex = OpenAIExtractor::new("key");
    let req = ex.request("hi");
    assert_eq!(req.get_text("model"), Some("gpt-4o-mini"));
    assert_eq!(req.get_u64("max_tokens"), Some(1024));
    assert_eq!(req.get("response_format").unwrap().get_text("type"), Some("json_object"));
    let written = json::compact_text(req.get("messages").unwrap());
    assert!(written.starts_with("[{"), "{written}");
    assert!(written.contains("\"role\":\"system\""), "{written}");
    assert!(written.contains("hi\\n\\nReturn {\\\"facts\\\": [...]}."), "{written}");
    assert_eq!(ex.headers()[0], ("authorization".to_string(), "Bearer key".to_string()));
    assert_eq!(ex.headers().len(), 2);
}

#[test]
fn openai_replies_are_counted_and_read() {
    let mut ex = OpenAIExtractor::new("k");
    let body = "{\"choices\":[{\"message\":{\"content\":\"{\\\"facts\\\":[{\\\"subject\\\":\\\"Tesla\\\",\\\"predicate\\\":\\\"founded_by\\\",\\\"object\\\":\\\"Elon Musk\\\"}]}\"}}],\"usage\":{\"prompt_tokens\":3,\"completion_tokens\":4}}";
    let facts = ex.read_body(body, "src").unwrap();
    assert_eq!(facts.len(), 1);
    assert_eq!(facts[0].subject, "tesla");
    assert_eq!(facts[0].obj, "elon musk");
    let want = ExtractorStats { total_calls: 1, total_tokens_in: 3, total_tokens_out: 4 };
    assert_eq!(ex.stats(), want);
    assert_eq!(ex.read_body("{\"choices\":[]}", "src").unwrap().len(), 0);
    assert_eq!(ex.stats().total_calls, 2);
}

#[test]
fn openai_body_that_is_no_json() {
    let mut ex = OpenAIExtractor::new("k");
    let e = ex.read_body("{", "text").unwrap_err();
    assert!(e.starts_with("openai json parse: "), "{e}");
    assert_eq!(ex.stats().total_calls, 0);
}
