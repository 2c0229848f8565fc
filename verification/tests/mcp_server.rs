//! Requests to the tool server and their answers.

use memory_plant::extractor::RegexExtractor;
use memory_plant::json::{self, Json};
use memory_plant::kernel::Kernel;
use memory_plant::mcp_server::{
    answer_line, handle_request, tool_payload, trimmed, McpError, ServerCtx, PROTOCOL_VERSION,
};
use memory_plant::service::MemoryService;
use std::sync::Arc;

/// Binary32 arithmetic on bit patterns.
struct Floats;

fn f(b: u32) -> f32 {
    f32::from_bits(b)
}

impl Kernel for Floats {
    fn plus(&self, a: u32, b: u32) -> u32 {
        (f(a) + f(b)).to_bits()
    }

    fn minus(&self, a: u32, b: u32) -> u32 {
        (f(a) - f(b)).to_bits()
    }

    fn times(&self, a: u32, b: u32) -> u32 {
        (f(a) * f(b)).to_bits()
    }

    fn divide(&self, a: u32, b: u32) -> u32 {
        (f(a) / f(b)).to_bits()
    }

    fn root(&self, a: u32) -> u32 {
        f(a).sqrt().to_bits()
    }

    fn dot(&self, a: &Vec<u32>, b: &Vec<u32>) -> u32 {
        let n = a.len().min(b.len());
        let (a, b) = (&a[..n], &b[..n]);
        let mut lanes = [0.0f32; 8];
        let (x, y) = (a.chunks_exact(8), b.chunks_exact(8));
        let (xr, yr) = (x.remainder(), y.remainder());
        for (p, q) in x.zip(y) {
            for i in 0..8 {
                lanes[i] += f(p[i]) * f(q[i]);
            }
        }
        let mut sum = 0.0f32;
        sum += lanes[0] + lanes[4];
        sum += lanes[1] + lanes[5];
        sum += lanes[2] + lanes[6];
        sum += lanes[3] + lanes[7];
        for (p, q) in xr.iter().zip(yr) {
            sum += f(*p) * f(*q);
        }
        sum.to_bits()
    }

    fn serial_dot(&self, a: &Vec<u32>, b: &Vec<u32>) -> u32 {
        let s: f32 = a.iter().zip(b).map(|(x, y)| f(*x) * f(*y)).sum();
        s.to_bits()
    }

    fn uniform(&self, draw: u32) -> u32 {
        ((draw >> 8) as f32 * (1.0 / 16777216.0) * 2.0 - 1.0).to_bits()
    }

    fn centered(&self, byte: u8) -> u32 {
        (byte as f32 - 127.5).to_bits()
    }

    fn phase_cosine(&self, a: &Vec<u8>, b: &Vec<u8>, k: u8) -> u32 {
        let scale = std::f32::consts::TAU / (1u32 << k) as f32;
        let mut acc = 0.0f64;
        for (x, y) in a.iter().zip(b) {
            acc += (*x as f32 * scale - *y as f32 * scale).cos() as f64;
        }
        ((acc / a.len() as f64) as f32).to_bits()
    }
}

type Ctx = ServerCtx<Floats, RegexExtractor, fn() -> Arc<RegexExtractor>>;

fn factory() -> Arc<RegexExtractor> {
    Arc::new(RegexExtractor::new())
}

fn make_ctx() -> Ctx {
    ServerCtx {
        service: MemoryService::new(
            Arc::new(Floats),
            factory as fn() -> Arc<RegexExtractor>,
            512,
            256,
        ),
        default_user: "test".to_string(),
        state_dir: "state".to_string(),
    }
}

fn ask(ctx: &mut Ctx, line: &str) -> Option<Json> {
    handle_request(&json::parse(line).unwrap(), ctx)
}

fn call(ctx: &mut Ctx, name: &str, arguments: &str) -> Json {
    let line = format!(
        "{{\"jsonrpc\":\"2.0\",\"id\":1,\"method\":\"tools/call\",\"params\":{{\"name\":\"{name}\",\"arguments\":{arguments}}}}}"
    );
    ask(ctx, &line).unwrap()
}

/// What is found by going down by names and positions.
fn at<'a>(j: &'a Json, path: &[&str]) -> &'a Json {
    let mut here = j;
    for step in path {
        here = match here {
            Json::Array(v) => &v[step.parse::<usize>().unwrap()],
            _ => here.get(step).unwrap(),
        };
    }
    here
}

fn told(answer: &Json) -> Json {
    let text = at(answer, &["result", "content", "0", "text"]).as_str().unwrap();
    json::parse(text).unwrap()
}

fn refusal(answer: &Json) -> (String, String) {
    (
        json::compact_text(at(answer, &["error", "code"])),
        at(answer, &["error", "message"]).as_str().unwrap().to_string(),
    )
}

#[test]
fn initialize_returns_caps() {
    let mut ctx = make_ctx();
    let resp = ask(
        &mut ctx,
        "{\"jsonrpc\":\"2.0\",\"id\":1,\"method\":\"initialize\",\"params\":{}}",
    )
    .unwrap();
    assert_eq!(resp.get_u64("id"), Some(1));
    assert_eq!(at(&resp, &["result", "protocolVersion"]).as_str(), Some(PROTOCOL_VERSION));
    assert!(matches!(at(&resp, &["result", "capabilities", "tools"]), Json::Object(_)));
}

#[test]
fn tools_list_returns_seven() {
    let mut ctx = make_ctx();
    let resp =
        ask(&mut ctx, "{\"jsonrpc\":\"2.0\",\"id\":2,\"method\":\"tools/list\"}").unwrap();
    let tools = match at(&resp, &["result", "tools"]) {
        Json::Array(v) => v,
        _ => panic!("no list"),
    };
    assert_eq!(tools.len(), 7);
    assert_eq!(tools[0].get_text("name"), Some("mp_stats"));
    assert!(at(&tools[0], &["inputSchema"]).get("required").is_none());
    assert_eq!(
        json::compact_text(at(&tools[2], &["inputSchema", "required"])),
        "[\"predicate\",\"value\"]"
    );
}

#[test]
fn store_then_recall_via_tool_call() {
    let mut ctx = make_ctx();
    let r1 = ask(
        &mut ctx,
        "{\"jsonrpc\": \"2.0\", \"id\": 10, \"method\": \"tools/call\", \"params\": {\"name\": \"mp_store_fact\", \"arguments\": {\"predicate\": \"works_as\", \"value\": \"engineer\"}}}",
    )
    .unwrap();
    assert!(at(&r1, &["result", "content", "0", "text"]).as_str().unwrap().contains("stored"));
    let r2 = ask(
        &mut ctx,
        "{\"jsonrpc\": \"2.0\", \"id\": 11, \"method\": \"tools/call\", \"params\": {\"name\": \"mp_recall_fact\", \"arguments\": {\"predicate\": \"works_as\"}}}",
    )
    .unwrap();
    let txt = at(&r2, &["result", "content", "0", "text"]).as_str().unwrap();
    assert!(txt.contains("engineer"));
}

#[test]
fn unknown_method_yields_error() {
    let mut ctx = make_ctx();
    let resp =
        ask(&mut ctx, "{\"jsonrpc\": \"2.0\", \"id\": 99, \"method\": \"unknown/thing\"}").unwrap();
    assert_eq!(json::compact_text(at(&resp, &["error", "code"])), "-32601");
    assert_eq!(
        at(&resp, &["error", "message"]).as_str(),
        Some("method not found: unknown/thing")
    );
    assert_eq!(resp.get_u64("id"), Some(99));
}

#[test]
fn notifications_have_no_response() {
    let mut ctx = make_ctx();
    let resp =
        ask(&mut ctx, "{\"jsonrpc\": \"2.0\", \"method\": \"notifications/initialized\"}");
    assert!(resp.is_none());
}

#[test]
fn ingest_extracts_via_regex() {
    let mut ctx = make_ctx();
    let resp = ask(
        &mut ctx,
        "{\"jsonrpc\": \"2.0\", \"id\": 1, \"method\": \"tools/call\", \"params\": {\"name\": \"mp_ingest_message\", \"arguments\": {\"message\": \"I work as engineer\"}}}",
    )
    .unwrap();
    let txt = at(&resp, &["result", "content", "0", "text"]).as_str().unwrap();
    assert!(txt.contains("engineer"));
    assert_eq!(told(&resp).get_u64("extracted"), Some(1));
    assert_eq!(at(&told(&resp), &["facts", "0", "predicate"]).as_str(), Some("works_as"));
}

#[test]
fn forget_after_store_returns_true() {
    let mut ctx = make_ctx();
    ask(
        &mut ctx,
        "{\"jsonrpc\":\"2.0\",\"id\":1,\"method\":\"tools/call\",\"params\":{\"name\":\"mp_store_fact\",\"arguments\":{\"predicate\":\"p\",\"value\":\"v\"}}}",
    );
    let resp = ask(
        &mut ctx,
        "{\"jsonrpc\":\"2.0\",\"id\":2,\"method\":\"tools/call\",\"params\":{\"name\":\"mp_forget_fact\",\"arguments\":{\"predicate\":\"p\"}}}",
    )
    .unwrap();
    let txt = at(&resp, &["result", "content", "0", "text"]).as_str().unwrap();
    assert!(txt.contains("\"removed\": true"));
}

#[test]
fn tools_tell_what_they_did() {
    let mut ctx = make_ctx();
    call(&mut ctx, "mp_store_fact", "{\"predicate\":\"p\",\"value\":\"v\",\"user_id\":\"bob\"}");
    let stats = told(&call(&mut ctx, "mp_stats", "{}"));
    assert_eq!(stats.get_u64("n_users"), Some(1));
    assert_eq!(stats.get_u64("total_facts"), Some(1));
    assert_eq!(stats.get_u64("dim"), Some(512));
    assert_eq!(stats.get_u64("vocab_cap"), Some(256));
    assert_eq!(json::compact_text(at(&stats, &["user_ids"])), "[\"bob\"]");
    let all = told(&call(&mut ctx, "mp_export_user", "{\"user_id\":\"bob\"}"));
    assert_eq!(json::compact_text(at(&all, &["facts"])), "{\"user|p\":\"v\"}");
    assert_eq!(json::compact_text(at(&all, &["schema"])), "{\"p\":[\"v\"]}");
    let missing = told(&call(&mut ctx, "mp_recall_fact", "{\"predicate\":\"p\"}"));
    assert!(matches!(missing.get("value"), Some(Json::Null)));
    assert!(matches!(
        told(&call(&mut ctx, "mp_forget_user", "{\"user_id\":\"bob\"}")).get("dropped"),
        Some(Json::Bool(true))
    ));
    assert!(matches!(
        told(&call(&mut ctx, "mp_forget_user", "{\"user_id\":\"bob\"}")).get("dropped"),
        Some(Json::Bool(false))
    ));
}

#[test]
fn calls_without_what_they_need_are_refused() {
    let mut ctx = make_ctx();
    let none = ask(&mut ctx, "{\"id\":1,\"method\":\"tools/call\"}").unwrap();
    assert_eq!(refusal(&none), ("-32602".to_string(), "missing params".to_string()));
    let unnamed = ask(&mut ctx, "{\"id\":1,\"method\":\"tools/call\",\"params\":{}}").unwrap();
    assert_eq!(refusal(&unnamed).1, "missing tool name");
    for (tool, args, message) in [
        ("mp_recall_fact", "{}", "predicate required"),
        ("mp_store_fact", "{}", "predicate required"),
        ("mp_store_fact", "{\"predicate\":\"p\"}", "value required"),
        ("mp_ingest_message", "{\"message\":1}", "message required"),
        ("mp_forget_fact", "[]", "predicate required"),
    ] {
        let r = refusal(&call(&mut ctx, tool, args));
        assert_eq!(r, ("-32602".to_string(), message.to_string()), "{tool}");
    }
    let r = refusal(&call(&mut ctx, "mp_nothing", "{}"));
    assert_eq!(r, ("-32601".to_string(), "method not found: mp_nothing".to_string()));
    assert_eq!(ctx.service.n_users(), 0);
}

#[test]
fn a_full_vocabulary_is_an_internal_error() {
    let mut ctx = make_ctx();
    ctx.service = MemoryService::new(Arc::new(Floats), factory as fn() -> Arc<RegexExtractor>, 64, 0);
    let r = refusal(&call(&mut ctx, "mp_store_fact", "{\"predicate\":\"p\",\"value\":\"v\"}"));
    assert_eq!(r.0, "-32603");
    assert!(r.1.starts_with("vocab full: cap=0"), "{}", r.1);
    let e: McpError = tool_payload(None, &mut ctx).unwrap_err();
    assert_eq!(e.code, -32602);
}

#[test]
fn a_request_without_an_id_is_carried_out_and_not_answered() {
    let mut ctx = make_ctx();
    let r = ask(
        &mut ctx,
        "{\"method\":\"tools/call\",\"params\":{\"name\":\"mp_store_fact\",\"arguments\":{\"predicate\":\"p\",\"value\":\"v\"}}}",
    );
    assert!(r.is_none());
    assert_eq!(ctx.service.total_facts(), 1);
    assert!(ask(&mut ctx, "{\"id\":1}").is_none());
    assert!(ask(&mut ctx, "{\"id\":1,\"method\":2}").is_none());
}

#[test]
fn lines_are_answered_on_one_line() {
    let mut ctx = make_ctx();
    let ping = " {\"id\": null, \"method\": \"ping\"}\u{2003}\n";
    assert_eq!(
        answer_line(ping, &mut ctx),
        Ok(Some("{\"id\":null,\"jsonrpc\":\"2.0\",\"result\":{}}".to_string()))
    );
    assert_eq!(answer_line(" \t\n", &mut ctx), Ok(None));
    assert!(answer_line("{", &mut ctx).unwrap_err().contains("EOF"));
    assert_eq!(trimmed("\u{a0} a b \n"), "a b");
}

#[test]
fn json_is_read_and_written() {
    let j = json::parse("{\"b\": [1, -2, 3.5, true, null], \"a\": \"x\"}").unwrap();
    assert_eq!(json::compact_text(&j), "{\"a\":\"x\",\"b\":[1,-2,3.5,true,null]}");
    assert_eq!(json::pretty_text(&Json::object1("k", Json::number(7))), "{\n  \"k\": 7\n}");
    assert!(json::same_json(&j, &json::copy_json(&j)));
    assert!(!json::same_json(&j, &Json::Null));
    assert_eq!(json::compact_text(&Json::integer(-5)), "-5");
    assert_eq!(json::compact_text(&Json::integer(i32::MIN)), i32::MIN.to_string());
    assert_eq!(json::compact_text(&Json::integer(5)), "5");
    assert_eq!(at(&j, &["b", "0"]).as_u64(), Some(1));
    assert_eq!(at(&j, &["b", "1"]).as_u64(), None);
    assert_eq!(at(&j, &["b", "2"]).as_u64(), None);
}
