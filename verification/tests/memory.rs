//! Stores of facts, the memories of users, their logs and what is saved of them.

use memory_plant::adaptive::{safe_shard_capacity, AdaptiveMemory};
use memory_plant::audit::{classify_lowercase, classify_rejection, AuditTrail, EventKind, Timestamp};
use memory_plant::extractor::{Extractor, RegexExtractor};
use memory_plant::fact::Fact;
use memory_plant::ffi::{FactDto, MemoryPlant, MpError};
use memory_plant::hlb::HlbError;
use memory_plant::kernel::Kernel;
use memory_plant::persistence::{AdaptiveSnapshot, PersistError, SCHEMA_VERSION};
use memory_plant::personal::PersonalMemory;
use memory_plant::service::{read_metadata, safe_id, setting_or, user_dirs, MemoryService};
use memory_plant::json;
use std::sync::Arc;

/// Binary32 arithmetic on bit patterns.
struct Floats;

fn f(b: u32) -> f32 {
    f32::from_bits(b)
}

/// The bit patterns of numbers.
fn bits(v: &[f32]) -> Vec<u32> {
    v.iter().map(|x| x.to_bits()).collect()
}

impl Kernel for Floats {
    fn plus(&self, a: u32, b: u32) -> u32 {
        (f(a) + f(b)).to_bits()
    }

    fn minus(&self, a: u32, b: u32) -> u32 {
        (f(a) - f(b)).to_bits()
    }

    fn times(&self, a: u32, b: u32) -> u32 {
        (f(a) * f(b)).to_bits()
    }

    fn divide(&self, a: u32, b: u32) -> u32 {
        (f(a) / f(b)).to_bits()
    }

    fn root(&self, a: u32) -> u32 {
        f(a).sqrt().to_bits()
    }

    fn dot(&self, a: &Vec<u32>, b: &Vec<u32>) -> u32 {
        let n = a.len().min(b.len());
        let (a, b) = (&a[..n], &b[..n]);
        let mut lanes = [0.0f32; 8];
        let (x, y) = (a.chunks_exact(8), b.chunks_exact(8));
        let (xr, yr) = (x.remainder(), y.remainder());
        for (p, q) in x.zip(y) {
            for i in 0..8 {
                lanes[i] += f(p[i]) * f(q[i]);
            }
        }
        let mut sum = 0.0f32;
        sum += lanes[0] + lanes[4];
        sum += lanes[1] + lanes[5];
        sum += lanes[2] + lanes[6];
        sum += lanes[3] + lanes[7];
        for (p, q) in xr.iter().zip(yr) {
            sum += f(*p) * f(*q);
        }
        sum.to_bits()
    }

    fn serial_dot(&self, a: &Vec<u32>, b: &Vec<u32>) -> u32 {
        let s: f32 = a.iter().zip(b).map(|(x, y)| f(*x) * f(*y)).sum();
        s.to_bits()
    }

    fn uniform(&self, draw: u32) -> u32 {
        ((draw >> 8) as f32 * (1.0 / 16777216.0) * 2.0 - 1.0).to_bits()
    }

    fn centered(&self, byte: u8) -> u32 {
        (byte as f32 - 127.5).to_bits()
    }

    fn phase_cosine(&self, a: &Vec<u8>, b: &Vec<u8>, k: u8) -> u32 {
        let scale = std::f32::consts::TAU / (1u32 << k) as f32;
        let mut acc = 0.0f64;
        for (x, y) in a.iter().zip(b) {
            acc += (*x as f32 * scale - *y as f32 * scale).cos() as f64;
        }
        ((acc / a.len() as f64) as f32).to_bits()
    }
}

/// A kernel for which every product vanishes, so that no vector can be scaled.
struct Vanishing;

impl Kernel for Vanishing {
    fn plus(&self, _: u32, _: u32) -> u32 {
        0
    }

    fn minus(&self, _: u32, _: u32) -> u32 {
        0
    }

    fn times(&self, _: u32, _: u32) -> u32 {
        0
    }

    fn divide(&self, _: u32, _: u32) -> u32 {
        0
    }

    fn root(&self, _: u32) -> u32 {
        0
    }

    fn dot(&self, _: &Vec<u32>, _: &Vec<u32>) -> u32 {
        0
    }

    fn serial_dot(&self, _: &Vec<u32>, _: &Vec<u32>) -> u32 {
        0
    }

    fn uniform(&self, _: u32) -> u32 {
        0
    }

    fn centered(&self, _: u8) -> u32 {
        0
    }

    fn phase_cosine(&self, _: &Vec<u8>, _: &Vec<u8>, _: u8) -> u32 {
        0
    }
}

const NOW: Timestamp = Timestamp { secs: 1_700_000_000, nanos: 5 };

fn store(dim: usize, cap: usize, shard: Option<usize>) -> AdaptiveMemory<Floats> {
    AdaptiveMemory::new(Arc::new(Floats), dim, cap, shard, 42).unwrap()
}

fn text(s: &str) -> Option<String> {
    Some(s.to_string())
}

// ---------------------------------------------------------------------
// The store of facts
// ---------------------------------------------------------------------

#[test]
fn store_retrieve_single_fact() {
    let mut am = store(1024, 256, None);
    am.store("user|works_as", "engineer").unwrap();
    assert_eq!(am.retrieve("user|works_as").unwrap(), text("engineer"));
    assert_eq!(am.total_facts(), 1);
    assert_eq!(am.n_shards(), 1);
}

#[test]
fn store_retrieve_unknown_key() {
    let am = store(512, 64, None);
    assert_eq!(am.retrieve("nonexistent").unwrap(), None);
}

#[test]
fn safe_capacity_matches_python() {
    assert_eq!(safe_shard_capacity(256), 20);
    assert_eq!(safe_shard_capacity(512), 39);
    assert_eq!(safe_shard_capacity(1024), 78);
    assert_eq!(safe_shard_capacity(2048), 157);
}

#[test]
fn auto_shard_at_capacity() {
    let mut am = store(1024, 1024, Some(20));
    for i in 0..50 {
        am.store(&format!("k{i}"), &format!("v{i}")).unwrap();
    }
    assert_eq!(am.total_facts(), 50);
    assert_eq!(am.n_shards(), 3, "50 facts at cap=20 should make 3 shards");
}

#[test]
fn recall_near_perfect_at_half_load() {
    let mut am = store(1024, 200, None);
    let mut truth: Vec<(String, String)> = Vec::with_capacity(117);
    for i in 0..117 {
        let key = format!("k_{i}");
        let value = format!("v_{}", i % 100);
        am.store(&key, &value).unwrap();
        truth.push((key, value));
    }
    let mut correct = 0;
    for (k, expected) in &truth {
        if let Some(got) = am.retrieve(k).unwrap() {
            if &got == expected {
                correct += 1;
            }
        }
    }
    let pct = 100.0 * correct as f32 / 117.0;
    assert!(pct >= 95.0, "expected ≥95% recall at half load, got {pct:.1}% ({correct}/117)");
}

#[test]
fn algebraic_forget_residual_near_zero() {
    let mut am = store(1024, 64, None);
    am.store("k1", "v1").unwrap();
    am.store("k2", "v2").unwrap();
    am.store("k3", "v3").unwrap();
    let m_before = am.shard_memory(0).clone();
    am.store("temp", "ephemeral").unwrap();
    assert_eq!(am.retrieve("temp").unwrap(), text("ephemeral"));
    let was_present = am.forget("temp").unwrap();
    assert!(was_present);
    assert_eq!(am.retrieve("temp").unwrap(), None);
    let m_after = am.shard_memory(0);
    let residual: f32 =
        m_before.iter().zip(m_after.iter()).map(|(a, b)| (f(*a) - f(*b)).abs()).fold(0.0, f32::max);
    assert!(residual < 1e-5, "residual {residual:.2e} should be ~0 — algebraic forget broken");
}

#[test]
fn overwrite_same_key() {
    let mut am = store(1024, 32, None);
    am.store("user|lives_in", "almaty").unwrap();
    am.store("user|lives_in", "tokyo").unwrap();
    assert_eq!(am.retrieve("user|lives_in").unwrap(), text("tokyo"));
    assert_eq!(am.total_facts(), 1);
}

#[test]
fn a_full_vocabulary_refuses_a_new_value_and_keeps_the_store() {
    let mut am = store(64, 1, None);
    assert_eq!(am.store("a", "x").unwrap(), 0);
    let before = am.shard_memory(0).clone();
    let e = am.store("b", "y").unwrap_err();
    assert!(matches!(e, HlbError::VocabFull { cap: 1, .. }));
    assert_eq!(am.total_facts(), 1);
    assert_eq!(am.shard_memory(0), &before);
    assert_eq!(am.store("b", "x").unwrap(), 0);
    assert_eq!(am.total_facts(), 2);
}

#[test]
fn forgetting_counts_down_and_leaves_the_others() {
    let mut am = store(512, 32, None);
    am.store("a", "x").unwrap();
    am.store("b", "y").unwrap();
    assert!(!am.forget("c").unwrap());
    assert!(am.forget("a").unwrap());
    assert!(!am.forget("a").unwrap());
    assert_eq!(am.total_facts(), 1);
    assert_eq!(am.retrieve("b").unwrap(), text("y"));
    assert_eq!(am.shard_pairs(0).len(), 1);
    assert_eq!((am.dim(), am.shard_capacity(), am.vocab().len()), (512, 39, 2));
}

#[test]
fn decoding_a_shard_tells_every_fact() {
    let mut am = store(1024, 64, None);
    for (k, v) in [("k1", "v1"), ("k2", "v2"), ("k3", "v1")] {
        am.store(k, v).unwrap();
    }
    let got = am.decode_shard_amp(0, 3).unwrap();
    let told: Vec<(&str, &str)> =
        got.iter().map(|(k, i)| (k.as_str(), am.vocab().key_at(*i).unwrap())).collect();
    assert_eq!(told, vec![("k1", "v1"), ("k2", "v2"), ("k3", "v1")]);
}

#[test]
fn decoding_twice_gives_the_same() {
    let mut am = store(256, 64, Some(6));
    for i in 0..20 {
        am.store(&format!("k{i}"), &format!("v{}", i % 7)).unwrap();
    }
    let mut n = 0;
    for s in 0..am.n_shards() {
        let first = am.decode_shard_amp(s, 3).unwrap();
        assert_eq!(first, am.decode_shard_amp(s, 3).unwrap());
        n += first.len();
    }
    assert_eq!(n, am.total_facts());
}

#[test]
fn a_store_whose_vectors_vanish_cannot_be_made() {
    let r = AdaptiveMemory::new(Arc::new(Vanishing), 4, 2, None, 1);
    assert!(matches!(r, Err(HlbError::ZeroNorm)));
}

// ---------------------------------------------------------------------
// Memories of users
// ---------------------------------------------------------------------

fn build(user: &str) -> PersonalMemory<Floats, RegexExtractor> {
    PersonalMemory::new(user, store(1024, 256, None), Arc::new(RegexExtractor::new()))
}

#[test]
fn ingest_extracts_and_stores() {
    let mut pm = build("alice");
    let stored = pm.ingest("I work as engineer in Berlin").unwrap();
    assert!(!stored.is_empty());
    assert_eq!(pm.recall("works_as", None).unwrap(), text("engineer"));
}

#[test]
fn a_clause_behind_a_conjunction_is_read() {
    let mut pm = build("alice");
    let facts = pm.ingest("I work as engineer and live in tokyo").unwrap();
    let told: Vec<(&str, &str, &str)> = facts
        .iter()
        .map(|x| (x.subject.as_str(), x.predicate.as_str(), x.obj.as_str()))
        .collect();
    assert_eq!(told, vec![("user", "works_as", "engineer"), ("user", "lives_in", "tokyo")]);
    assert_eq!(pm.recall("works_as", None).unwrap(), text("engineer"));
    assert_eq!(pm.recall("lives_in", None).unwrap(), text("tokyo"));
}

#[test]
fn facts_are_told_once() {
    let mut pm = build("alice");
    assert_eq!(pm.ingest("I work as engineer").unwrap().len(), 1);
    assert!(pm.ingest("I work as engineer").unwrap().is_empty());
    assert_eq!(pm.known_values("works_as"), Some(&vec!["engineer".to_string()]));
    assert_eq!(pm.memory().total_facts(), 1);
    let more = pm.ingest("I work as engineer. I live in Oslo").unwrap();
    assert_eq!(more.len(), 1);
    assert_eq!(more[0].obj, "oslo");
    pm.forget("works_as", None).unwrap();
    assert!(pm.ingest("I am ENGINEER").unwrap().is_empty());
    assert_eq!(pm.recall("works_as", None).unwrap(), text("engineer"));
}

#[test]
fn one_list_of_facts_tells_a_value_once() {
    let mut pm = build("alice");
    let facts = vec![
        Fact::new("user", "likes", "tea", ""),
        Fact::new("bob", "likes", "tea", ""),
        Fact::new("user", "owns", "tea", ""),
    ];
    let told = pm.store_facts(&facts).unwrap();
    assert_eq!(told.len(), 2);
    assert_eq!((told[0].predicate.as_str(), told[1].predicate.as_str()), ("likes", "owns"));
    assert_eq!(pm.recall("likes", Some("bob")).unwrap(), text("tea"));
}

#[test]
fn what_is_read_stands_in_the_message() {
    let message = "Hi! I Live in Almaty, and I love Apples";
    for f in RegexExtractor::new().extract(message) {
        assert_eq!(f.subject, "user");
        assert!(message.contains(&f.source), "{}", f.source);
        assert!(f.source.to_lowercase().contains(&f.obj), "{}", f.obj);
    }
}

#[test]
fn store_fact_direct() {
    let mut pm = build("bob");
    let f = Fact::new("user", "favorite_food", "sushi", "remember sushi");
    pm.store_fact(&f).unwrap();
    assert_eq!(pm.recall("favorite_food", None).unwrap(), text("sushi"));
}

#[test]
fn schema_tracking_grows() {
    let mut pm = build("c");
    pm.store_fact(&Fact::new("user", "likes", "pizza", "")).unwrap();
    pm.store_fact(&Fact::new("user", "likes", "ramen", "")).unwrap();
    assert_eq!(pm.known_values("likes"), Some(&vec!["pizza".to_string(), "ramen".to_string()]));
    pm.store_fact(&Fact::new("user", "likes", "pizza", "")).unwrap();
    assert_eq!(pm.known_values("likes").unwrap().len(), 2);
    assert_eq!(pm.known_values("owns"), None);
}

#[test]
fn forget_single_fact() {
    let mut pm = build("d");
    pm.store_fact(&Fact::new("user", "works_as", "engineer", "")).unwrap();
    assert!(pm.forget("works_as", None).unwrap());
    assert_eq!(pm.recall("works_as", None).unwrap(), None);
}

#[test]
fn forget_all_clears_user_only() {
    let mut pm_a = build("alice");
    let pm_b = build("bob");
    pm_a.store_fact(&Fact::new("user", "works_as", "engineer", "")).unwrap();
    pm_a.store_fact(&Fact::new("user", "lives_in", "tokyo", "")).unwrap();
    let count = pm_a.forget_all().unwrap();
    assert_eq!(count, 2);
    assert_eq!(pm_a.recall("works_as", None).unwrap(), None);
    let _ = pm_b.recall("anything", None);
}

#[test]
fn forgetting_everything_spares_the_keys_of_others() {
    let mut pm = build("alice");
    pm.store_fact(&Fact::new("user", "p", "v", "")).unwrap();
    pm.memory_mut().store("bob|user|p", "w").unwrap();
    assert_eq!(pm.forget_all().unwrap(), 1);
    assert_eq!(pm.memory().total_facts(), 1);
    assert_eq!(pm.memory().retrieve("bob|user|p").unwrap(), text("w"));
    assert_eq!(pm.schema().len(), 1);
}

#[test]
fn all_facts_returns_stored_pairs() {
    let mut pm = build("eve");
    pm.store_fact(&Fact::new("user", "p1", "v1", "")).unwrap();
    pm.store_fact(&Fact::new("user", "p2", "v2", "")).unwrap();
    let snapshot = pm.all_facts().unwrap();
    let get = |k: &str| snapshot.iter().find(|p| p.0 == k).map(|p| p.1.as_str());
    assert_eq!(get("user|p1"), Some("v1"));
    assert_eq!(get("user|p2"), Some("v2"));
    assert_eq!(snapshot.len(), 2);
}

#[test]
fn facts_about_others_need_their_subject() {
    let mut pm = build("eve");
    pm.store_fact(&Fact::new("Tesla", "founded_by", "elon musk", "")).unwrap();
    assert_eq!(pm.recall("founded_by", None).unwrap(), None);
    assert_eq!(pm.recall("founded_by", Some("tesla")).unwrap(), text("elon musk"));
    assert!(!pm.forget("founded_by", None).unwrap());
    assert!(pm.forget("founded_by", Some("tesla")).unwrap());
    assert_eq!(pm.user_id(), "eve");
}

#[test]
fn storing_facts_stops_at_the_first_refusal() {
    let mut pm =
        PersonalMemory::new("u", store(64, 1, None), Arc::new(RegexExtractor::new()));
    let facts = vec![
        Fact::new("user", "a", "x", ""),
        Fact::new("user", "b", "y", ""),
        Fact::new("user", "c", "x", ""),
    ];
    assert!(matches!(pm.store_facts(&facts), Err(HlbError::VocabFull { .. })));
    assert_eq!(pm.memory().total_facts(), 1);
    assert_eq!(pm.known_values("b"), None);
}

// ---------------------------------------------------------------------
// Facts in text
// ---------------------------------------------------------------------

#[test]
fn extract_works_as_en() {
    let f = RegexExtractor::new().extract("I work as engineer at Acme");
    assert_eq!(f.len(), 1);
    assert_eq!(f[0].predicate, "works_as");
    assert_eq!(f[0].obj, "engineer");
}

#[test]
fn extract_works_as_ru() {
    let f = RegexExtractor::new().extract("я работаю инженером в Алматы");
    let preds: Vec<&str> = f.iter().map(|x| x.predicate.as_str()).collect();
    assert!(preds.contains(&"works_as"));
}

#[test]
fn extract_lives_in() {
    let f = RegexExtractor::new().extract("I live in tokyo");
    assert!(f.iter().any(|x| x.predicate == "lives_in" && x.obj == "tokyo"));
}

#[test]
fn extract_multiple_facts() {
    let f = RegexExtractor::new().extract("I work as architect. I live in tokyo. I love ramen.");
    let predicates: std::collections::HashSet<_> = f.iter().map(|x| x.predicate.clone()).collect();
    assert!(predicates.contains("works_as"));
    assert!(predicates.contains("lives_in"));
    assert!(predicates.contains("likes"));
}

#[test]
fn facts_stand_in_the_order_of_the_text() {
    let f = RegexExtractor::new().extract("I love tea. I live in Oslo. I like ramen and I enjoy Tea");
    let told: Vec<(&str, &str)> =
        f.iter().map(|x| (x.predicate.as_str(), x.obj.as_str())).collect();
    assert_eq!(told, vec![("lives_in", "oslo"), ("likes", "tea"), ("likes", "ramen")]);
    assert!(RegexExtractor::new().extract("but live in tokyo").is_empty());
}

#[test]
fn facts_and_events_can_be_cloned() {
    let f = Fact::new("user", "likes", "tea", "I like tea");
    assert_eq!(f.clone(), f);
    assert_ne!(f, Fact::new("user", "likes", "coffee", "I like tea"));
    let set: std::collections::HashSet<Fact> = [f.clone(), f].into_iter().collect();
    assert_eq!(set.len(), 1);
    let mut t = AuditTrail::default();
    note(&mut t, EventKind::Store, "x", "u");
    let e = t.recent(1, None, None)[0].clone();
    assert_eq!(e.context_preview, "x");
}

#[test]
fn extract_dedups_repeated_matches() {
    let f = RegexExtractor::new().extract("I work as engineer. I work as engineer.");
    assert_eq!(f.len(), 1);
}

#[test]
fn extract_empty_for_unrelated() {
    let f = RegexExtractor::new().extract("Today is a sunny day in May.");
    assert!(f.is_empty());
}

// ---------------------------------------------------------------------
// Logs
// ---------------------------------------------------------------------

fn note(t: &mut AuditTrail, kind: EventKind, context: &str, user: &str) {
    t.record::<Floats>(kind, context, user, Vec::new(), NOW, None).unwrap();
}

#[test]
fn record_grows_log() {
    let mut t = AuditTrail::default();
    let mut mp = store(512, 64, None);
    t.record(EventKind::Store, "stored fact x", "alice", Vec::new(), NOW, Some(&mut mp)).unwrap();
    t.record(EventKind::Store, "stored fact y", "alice", Vec::new(), NOW, Some(&mut mp)).unwrap();
    assert_eq!(t.len(), 2);
}

#[test]
fn recent_filters_by_kind() {
    let mut t = AuditTrail::default();
    note(&mut t, EventKind::Store, "s", "u");
    note(&mut t, EventKind::Forget, "f", "u");
    note(&mut t, EventKind::Store, "s2", "u");
    let stores = t.recent(10, Some(EventKind::Store), None);
    assert_eq!(stores.len(), 2);
    assert!(stores.iter().all(|e| e.kind == EventKind::Store));
}

#[test]
fn count_by_groups() {
    let mut t = AuditTrail::default();
    note(&mut t, EventKind::Store, "", "u");
    note(&mut t, EventKind::Store, "", "u");
    note(&mut t, EventKind::Forget, "", "u");
    let counts = t.count_by(None);
    let get = |k: EventKind| counts.iter().find(|c| c.0 == k).map(|c| c.1);
    assert_eq!(get(EventKind::Store), Some(2));
    assert_eq!(get(EventKind::Forget), Some(1));
    assert_eq!(counts.len(), 2);
    assert!(t.count_by(Some("v")).is_empty());
}

#[test]
fn capacity_evicts_oldest() {
    let mut t = AuditTrail::new(3, 50);
    for i in 0..5 {
        note(&mut t, EventKind::Store, &format!("evt{i}"), "u");
    }
    assert_eq!(t.len(), 3);
    let r = t.recent(10, None, None);
    assert_eq!(r[0].context_preview, "evt4");
    assert_eq!(r[2].context_preview, "evt2");
}

#[test]
fn classify_rejection_pii() {
    assert_eq!(classify_rejection("PII detected: email"), EventKind::RejectPii);
    assert_eq!(classify_rejection("vocab cap reached"), EventKind::RejectVocab);
    assert_eq!(
        classify_rejection("strict_source_match: obj not found"),
        EventKind::RejectStrict
    );
    assert_eq!(classify_rejection("something else"), EventKind::RejectOther);
    assert_eq!(classify_lowercase("PII detected"), EventKind::RejectOther);
}

#[test]
fn reasons_are_classified_in_any_case() {
    for r in ["pii detected", "vocab full", "not in allowed set", "strict_source_match", "x"] {
        assert_eq!(classify_rejection(&r.to_ascii_uppercase()), classify_rejection(r));
    }
}

#[test]
fn a_log_never_outgrows_its_capacity() {
    for capacity in 0..4usize {
        let mut t = AuditTrail::new(capacity, 100);
        for i in 0..6 {
            note(&mut t, EventKind::Store, &format!("{i}"), "u");
            assert!(t.len() <= capacity.max(1));
        }
        let kept: Vec<String> =
            t.recent(usize::MAX, None, None).iter().map(|e| e.context_preview.clone()).collect();
        let want: Vec<String> =
            (0..6).rev().take(capacity.max(1)).map(|i| format!("{i}")).collect();
        assert_eq!(kept, want);
        let back = AuditTrail::from_snapshot(t.build_snapshot()).unwrap();
        assert_eq!(back.len(), t.len());
    }
}

#[test]
fn hlb_layer_records_categorical_only() {
    let mut t = AuditTrail::default();
    let mut mp = store(512, 64, None);
    for i in 0..50 {
        t.record(
            EventKind::Store,
            &format!("context for event {i}"),
            "u",
            Vec::new(),
            NOW,
            Some(&mut mp),
        )
        .unwrap();
    }
    assert_eq!(mp.vocab().len(), 1);
    assert_eq!(mp.total_facts(), 50);
}

#[test]
fn previews_are_cut_and_events_have_ids_of_their_own() {
    let mut t = AuditTrail::new(10, 4);
    let meta = vec![("a".to_string(), "b".to_string())];
    let e = t.record::<Floats>(EventKind::Forget, "привет", "u", meta, NOW, None).unwrap();
    note(&mut t, EventKind::Forget, "x", "v");
    let r = t.recent(10, None, Some("u"));
    assert_eq!(r.len(), 1);
    assert_eq!(r[0].context_preview, "прив");
    assert_eq!(r[0].metadata, vec![("a".to_string(), "b".to_string())]);
    assert_eq!(r[0].event_id, e.event_id);
    assert_eq!((r[0].ts.secs, r[0].ts.nanos), (1_700_000_000, 5));
    let all = t.recent(10, None, None);
    assert_ne!(all[0].event_id, all[1].event_id);
    assert_eq!((t.counter(), t.capacity(), t.preview_chars()), (2, 10, 4));
    assert!(!t.is_empty());
}

#[test]
fn a_log_whose_store_is_full_refuses_the_event() {
    let mut t = AuditTrail::default();
    let mut mp = store(64, 0, None);
    let r = t.record(EventKind::Store, "c", "u", Vec::new(), NOW, Some(&mut mp));
    assert!(matches!(r, Err(HlbError::VocabFull { cap: 0, .. })));
}

// ---------------------------------------------------------------------
// Services
// ---------------------------------------------------------------------

fn factory() -> Arc<RegexExtractor> {
    Arc::new(RegexExtractor::new())
}

#[test]
fn user_lazy_create() {
    let mut svc = MemoryService::new(Arc::new(Floats), factory, 512, 256);
    assert_eq!(svc.n_users(), 0);
    svc.user("alice").unwrap();
    assert_eq!(svc.n_users(), 1);
}

#[test]
fn per_user_isolation() {
    let mut svc = MemoryService::new(Arc::new(Floats), factory, 512, 256);
    svc.user("alice").unwrap().store_fact(&Fact::new("user", "p", "v_a", "")).unwrap();
    svc.user("bob").unwrap().store_fact(&Fact::new("user", "p", "v_b", "")).unwrap();
    assert_eq!(svc.user("alice").unwrap().recall("p", None).unwrap(), text("v_a"));
    assert_eq!(svc.user("bob").unwrap().recall("p", None).unwrap(), text("v_b"));
}

#[test]
fn remove_user_clears() {
    let mut svc = MemoryService::new(Arc::new(Floats), factory, 512, 256);
    svc.user("alice").unwrap().store_fact(&Fact::new("user", "p", "v", "")).unwrap();
    assert!(svc.remove_user("alice"));
    assert_eq!(svc.n_users(), 0);
    assert!(!svc.remove_user("alice"));
}

#[test]
fn a_user_has_a_log_of_their_own() {
    let mut svc = MemoryService::new(Arc::new(Floats), factory, 64, 8);
    assert!(svc.audit("alice").is_none());
    svc.user("alice").unwrap();
    note(svc.audit("alice").unwrap(), EventKind::Store, "c", "alice");
    svc.user("bob").unwrap();
    assert_eq!(svc.audit_of("alice").unwrap().len(), 1);
    assert_eq!(svc.audit_of("bob").unwrap().len(), 0);
    assert_eq!(svc.memory_of("bob").unwrap().user_id(), "bob");
    assert!(svc.memory_of("carol").is_none());
    assert_eq!(svc.user_ids(), vec!["alice".to_string(), "bob".to_string()]);
    assert!(svc.countable());
    assert_eq!(svc.total_facts(), 0);
    assert_eq!((svc.dim(), svc.vocab_cap(), svc.vocab_seed()), (64, 8, 42));
}

#[test]
fn a_user_whose_vectors_vanish_is_refused() {
    let mut svc = MemoryService::new(Arc::new(Vanishing), factory, 4, 2);
    assert!(matches!(svc.user("alice"), Err(HlbError::ZeroNorm)));
    assert_eq!(svc.n_users(), 0);
}

#[test]
fn a_user_can_be_put_in() {
    let mut svc = MemoryService::new(Arc::new(Floats), factory, 64, 8);
    svc.user("alice").unwrap();
    let mut pm = PersonalMemory::new("alice", store(64, 8, None), svc.make_extractor());
    pm.store_fact(&Fact::new("user", "p", "v", "")).unwrap();
    svc.put_user("alice", pm, AuditTrail::default());
    assert_eq!(svc.n_users(), 1);
    assert_eq!(svc.total_facts(), 1);
}

#[test]
fn directory_names_hold_no_odd_characters() {
    assert_eq!(safe_id("a/b c.д-1_!"), "a_b_c.д-1__");
    assert_eq!(safe_id("../x"), ".._x");
}

#[test]
fn users_have_directories_of_their_own() {
    let ids: Vec<String> =
        ["a/b", "a b", "c", "..", "", "a_b~1"].iter().map(|s| s.to_string()).collect();
    let dirs = user_dirs(&ids);
    assert_eq!(dirs, vec!["a_b", "a_b~1", "c", "..~3", "~4", "a_b_1"]);
}

#[test]
fn settings_fall_back() {
    assert_eq!(setting_or(Some("17"), 5), 17);
    assert_eq!(setting_or(Some("+17"), 5), 17);
    assert_eq!(setting_or(Some("017"), 5), 17);
    for bad in ["", "+", "-1", "1x", " 1", "99999999999999999999999"] {
        assert_eq!(setting_or(Some(bad), 5), 5, "{bad}");
        assert!(bad.parse::<usize>().is_err());
    }
    assert_eq!(setting_or(None, 5), 5);
}

#[test]
fn the_shape_of_a_service_is_saved_and_read_back() {
    let mut svc = MemoryService::new(Arc::new(Floats), factory, 64, 8);
    svc.user("alice").unwrap();
    svc.user("bob").unwrap();
    let written = json::compact_text(&svc.metadata());
    let meta = read_metadata(&json::parse(&written).unwrap()).unwrap();
    assert_eq!((meta.dim, meta.vocab_cap), (64, 8));
    assert_eq!(meta.user_ids, vec!["alice".to_string(), "bob".to_string()]);
}

#[test]
fn a_service_without_a_shape_is_corrupt() {
    let read = |s: &str| read_metadata(&json::parse(s).unwrap());
    let e = read("{\"vocab_cap\": 8}").unwrap_err();
    assert_eq!(e.message(), "corrupted state: missing dim");
    let e = read("{\"dim\": 8, \"vocab_cap\": -1}").unwrap_err();
    assert_eq!(e.message(), "corrupted state: missing vocab_cap");
    let meta = read("{\"dim\": 8, \"vocab_cap\": 9, \"user_ids\": [\"a\", 1, \"b\"]}").unwrap();
    assert_eq!(meta.user_ids, vec!["a".to_string(), "b".to_string()]);
}

// ---------------------------------------------------------------------
// What is saved
// ---------------------------------------------------------------------

fn store_fixture() -> AdaptiveMemory<Floats> {
    let mut am = store(1024, 64, None);
    am.store("user|works_as", "engineer").unwrap();
    am.store("user|lives_in", "almaty").unwrap();
    am.store("tesla|founded_by", "elon musk").unwrap();
    am
}

#[test]
fn adaptive_save_load_roundtrip() {
    let am1 = store_fixture();
    let am2 = AdaptiveMemory::from_snapshot(Arc::new(Floats), am1.build_snapshot()).unwrap();
    assert_eq!(am2.total_facts(), 3);
    assert_eq!(am2.retrieve("user|works_as").unwrap(), text("engineer"));
    assert_eq!(am2.retrieve("user|lives_in").unwrap(), text("almaty"));
    assert_eq!(am2.retrieve("tesla|founded_by").unwrap(), text("elon musk"));
}

#[test]
fn shards_and_seed_survive_saving() {
    let mut am1 = AdaptiveMemory::new(Arc::new(Floats), 256, 64, Some(2), 7).unwrap();
    for i in 0..5 {
        am1.store(&format!("k{i}"), &format!("v{i}")).unwrap();
    }
    am1.forget("k0").unwrap();
    let snap = am1.build_snapshot();
    assert_eq!(snap.vocab_seed, 7);
    assert_eq!(snap.vocab_keys.len(), 5);
    let am2 = AdaptiveMemory::from_snapshot(Arc::new(Floats), snap).unwrap();
    assert_eq!(am2.n_shards(), am1.n_shards());
    for s in 0..am1.n_shards() {
        assert_eq!(am2.shard_pairs(s), am1.shard_pairs(s));
    }
    assert_eq!(am2.vocab().row(3), am1.vocab().row(3));
    assert_eq!(am2.shard_capacity(), 2);
}

#[test]
fn personal_save_load_roundtrip() {
    let mut pm = PersonalMemory::new("alice", store(1024, 64, None), factory());
    pm.store_fact(&Fact::new("user", "works_as", "engineer", "")).unwrap();
    pm.store_fact(&Fact::new("user", "likes", "sushi", "")).unwrap();
    let am = AdaptiveMemory::from_snapshot(Arc::new(Floats), pm.memory().build_snapshot()).unwrap();
    let pm2 = PersonalMemory::from_snapshot(pm.build_snapshot(), am, factory()).unwrap();
    assert_eq!(pm2.user_id(), "alice");
    assert_eq!(pm2.recall("works_as", None).unwrap(), text("engineer"));
    assert_eq!(pm2.recall("likes", None).unwrap(), text("sushi"));
    assert_eq!(pm2.known_values("likes"), Some(&vec!["sushi".to_string()]));
}

#[test]
fn audit_save_load_roundtrip() {
    let mut t = AuditTrail::default();
    note(&mut t, EventKind::Store, "stored x", "alice");
    note(&mut t, EventKind::Forget, "forgot y", "alice");
    let t2 = AuditTrail::from_snapshot(t.build_snapshot()).unwrap();
    assert_eq!(t2.len(), 2);
    let recent = t2.recent(10, None, None);
    assert_eq!(recent[0].kind, EventKind::Forget);
    assert_eq!(recent[1].kind, EventKind::Store);
    assert_eq!(t2.counter(), 2);
}

#[test]
fn corrupt_schema_version_errors() {
    let snap = AdaptiveSnapshot {
        schema_version: 99,
        dim: 64,
        shard_capacity: 20,
        vocab_cap: 4,
        vocab_seed: 42,
        vocab_keys: Vec::new(),
        shards: Vec::new(),
    };
    let r = AdaptiveMemory::from_snapshot(Arc::new(Floats), snap);
    assert!(matches!(r, Err(PersistError::Corrupt(_))));
}

#[test]
fn saved_parts_of_other_versions_are_refused() {
    let mut p = build("a").build_snapshot();
    p.schema_version = 99;
    let e = PersonalMemory::from_snapshot(p, store(64, 4, None), factory()).err().unwrap();
    assert_eq!(e.message(), format!("corrupted state: personal schema 99 != {SCHEMA_VERSION}"));
    let mut a = AuditTrail::default().build_snapshot();
    a.schema_version = 98;
    let e = AuditTrail::from_snapshot(a).err().unwrap();
    assert_eq!(e.message(), format!("corrupted state: audit schema 98 != {SCHEMA_VERSION}"));
}

#[test]
fn a_saved_fact_without_a_value_is_corrupt() {
    let mut snap = store_fixture().build_snapshot();
    snap.shards[0][0].1 = 60;
    assert!(matches!(
        AdaptiveMemory::from_snapshot(Arc::new(Floats), snap),
        Err(PersistError::Corrupt(_))
    ));
}

#[test]
fn a_saved_vocabulary_that_does_not_fit_is_refused() {
    let mut snap = store_fixture().build_snapshot();
    snap.vocab_cap = 1;
    assert!(matches!(
        AdaptiveMemory::from_snapshot(Arc::new(Floats), snap),
        Err(PersistError::Hlb(HlbError::VocabFull { .. }))
    ));
}

#[test]
fn messages_of_saving() {
    assert_eq!(PersistError::Io("x".to_string()).message(), "io: x");
    assert_eq!(PersistError::Serde("y".to_string()).message(), "serde: y");
    assert_eq!(
        PersistError::Hlb(HlbError::ZeroNorm).message(),
        "hlb: zero-norm vector: cannot normalize"
    );
}

// ---------------------------------------------------------------------
// Bindings
// ---------------------------------------------------------------------

#[test]
fn ffi_store_recall_forget() {
    let mut mp = MemoryPlant::new(Arc::new(Floats), factory, 512, 256, "default".to_string());
    mp.store_fact("works_as", "engineer").unwrap();
    assert_eq!(mp.recall_fact("works_as").unwrap(), text("engineer"));
    assert!(mp.forget_fact("works_as").unwrap());
    assert_eq!(mp.recall_fact("works_as").unwrap(), None);
}

#[test]
fn ffi_ingests_exports_and_drops_the_user() {
    let mut mp = MemoryPlant::new(Arc::new(Floats), factory, 512, 256, "default".to_string());
    let facts: Vec<FactDto> = mp.ingest_message("I live in Tokyo").unwrap();
    assert_eq!(facts.len(), 1);
    assert_eq!((facts[0].predicate.as_str(), facts[0].obj.as_str()), ("lives_in", "tokyo"));
    assert_eq!(facts[0].subject, "user");
    let all = mp.export_user().unwrap();
    assert_eq!(all, vec![("user|lives_in".to_string(), "tokyo".to_string())]);
    assert_eq!(mp.total_facts(), 1);
    assert!(mp.forget_user());
    assert!(!mp.forget_user());
    assert_eq!(mp.total_facts(), 0);
}

#[test]
fn ffi_errors_carry_the_message_of_the_store() {
    let mut mp = MemoryPlant::new(Arc::new(Vanishing), factory, 4, 2, "u".to_string());
    let e: MpError = mp.store_fact("p", "v").unwrap_err();
    assert_eq!(e.message(), "zero-norm vector: cannot normalize");
    let mut mp = MemoryPlant::new(Arc::new(Floats), factory, 64, 0, "u".to_string());
    let e = mp.store_fact("p", "v").unwrap_err();
    assert_eq!(e.message(), "vocab full: cap=0, attempted to register \"v\"");
}

#[test]
fn ffi_memory_over_a_loaded_service() {
    let mut svc = MemoryService::new(Arc::new(Floats), factory, 512, 64);
    svc.user("default").unwrap().store_fact(&Fact::new("user", "lives_in", "Almaty", "")).unwrap();
    let mut mp = MemoryPlant::over(svc, "default".to_string());
    assert_eq!(mp.recall_fact("lives_in").unwrap(), text("almaty"));
    assert_eq!(mp.service().n_users(), 1);
}
