//! Documents, their chunks and the search over them.

use instant_distance::{Builder, HnswMap, Point, Search};
use memory_plant::audit::Timestamp;
use memory_plant::chunking::{chunk_text, is_whitespace};
use memory_plant::compression::{compress_text, Body};
use memory_plant::document::{DocumentEntry, DocumentMemory, SearchFilter, DOC_SCHEMA_VERSION};
use memory_plant::embedding::{with_prefix, Encoder, MockEncoder, PASSAGE_PREFIX, QUERY_PREFIX};
use memory_plant::hlb::cosine_of_parts;
use memory_plant::index::{BruteForceIndex, Graph, HnswIndex, VectorIndex};
use memory_plant::json::{self, Json};
use memory_plant::kernel::Kernel;
use memory_plant::persistence::PersistError;
use memory_plant::ranking::top_positions;
use std::sync::Arc;

/// Binary32 arithmetic on bit patterns.
struct Floats;

fn f(b: u32) -> f32 {
    f32::from_bits(b)
}

/// The bit patterns of numbers.
fn bits(v: &[f32]) -> Vec<u32> {
    v.iter().map(|x| x.to_bits()).collect()
}

impl Kernel for Floats {
    fn plus(&self, a: u32, b: u32) -> u32 {
        (f(a) + f(b)).to_bits()
    }

    fn minus(&self, a: u32, b: u32) -> u32 {
        (f(a) - f(b)).to_bits()
    }

    fn times(&self, a: u32, b: u32) -> u32 {
        (f(a) * f(b)).to_bits()
    }

    fn divide(&self, a: u32, b: u32) -> u32 {
        (f(a) / f(b)).to_bits()
    }

    fn root(&self, a: u32) -> u32 {
        f(a).sqrt().to_bits()
    }

    fn dot(&self, a: &Vec<u32>, b: &Vec<u32>) -> u32 {
        let n = a.len().min(b.len());
        let (a, b) = (&a[..n], &b[..n]);
        let mut lanes = [0.0f32; 8];
        let (x, y) = (a.chunks_exact(8), b.chunks_exact(8));
        let (xr, yr) = (x.remainder(), y.remainder());
        for (p, q) in x.zip(y) {
            for i in 0..8 {
                lanes[i] += f(p[i]) * f(q[i]);
            }
        }
        let mut sum = 0.0f32;
        sum += lanes[0] + lanes[4];
        sum += lanes[1] + lanes[5];
        sum += lanes[2] + lanes[6];
        sum += lanes[3] + lanes[7];
        for (p, q) in xr.iter().zip(yr) {
            sum += f(*p) * f(*q);
        }
        sum.to_bits()
    }

    fn serial_dot(&self, a: &Vec<u32>, b: &Vec<u32>) -> u32 {
        let s: f32 = a.iter().zip(b).map(|(x, y)| f(*x) * f(*y)).sum();
        s.to_bits()
    }

    fn uniform(&self, draw: u32) -> u32 {
        ((draw >> 8) as f32 * (1.0 / 16777216.0) * 2.0 - 1.0).to_bits()
    }

    fn centered(&self, byte: u8) -> u32 {
        (byte as f32 - 127.5).to_bits()
    }

    fn phase_cosine(&self, a: &Vec<u8>, b: &Vec<u8>, k: u8) -> u32 {
        let scale = std::f32::consts::TAU / (1u32 << k) as f32;
        let mut acc = 0.0f64;
        for (x, y) in a.iter().zip(b) {
            acc += (*x as f32 * scale - *y as f32 * scale).cos() as f64;
        }
        ((acc / a.len() as f64) as f32).to_bits()
    }
}

/// A search graph of the crate `instant_distance`.
struct Hnsw {
    map: HnswMap<Emb, u64>,
}

#[derive(Clone)]
struct Emb(Vec<f32>);

fn cosine(a: &[f32], b: &[f32]) -> Option<f32> {
    let dot: f32 = a.iter().zip(b).map(|(x, y)| x * y).sum();
    let na: f32 = a.iter().map(|x| x * x).sum::<f32>().sqrt();
    let nb: f32 = b.iter().map(|x| x * x).sum::<f32>().sqrt();
    if na == 0.0 || nb == 0.0 {
        None
    } else {
        Some(dot / (na * nb))
    }
}

fn numbers(v: &[u32]) -> Vec<f32> {
    v.iter().map(|b| f(*b)).collect()
}

impl Point for Emb {
    fn distance(&self, other: &Self) -> f32 {
        cosine(&self.0, &other.0).map_or(1.0, |c| 1.0 - c)
    }
}

impl Graph for Hnsw {
    fn build(points: Vec<Vec<u32>>, values: Vec<u64>) -> Self {
        let points = points.iter().map(|p| Emb(numbers(p))).collect();
        Hnsw { map: Builder::default().build(points, values) }
    }

    fn nearest(&self, query: &Vec<u32>) -> Vec<(u64, u32)> {
        let mut s = Search::default();
        self.map
            .search(&Emb(numbers(query)), &mut s)
            .map(|i| (*i.value, (1.0 - i.distance).to_bits()))
            .collect()
    }
}

type Memory = DocumentMemory<Floats, MockEncoder<Floats>, BruteForceIndex<Floats>>;

type Test = fn(&DocumentEntry) -> bool;

const NOW: Timestamp = Timestamp { secs: 7, nanos: 0 };

fn empty(dim: usize) -> Memory {
    DocumentMemory::new(Arc::new(Floats), MockEncoder::new(Arc::new(Floats), dim))
}

fn make() -> Memory {
    empty(32).with_chunking(10, 2)
}

fn meta(kind: &str) -> Vec<(String, Json)> {
    vec![("kind".to_string(), Json::Text(kind.to_string()))]
}

fn kind_of(m: &[(String, Json)]) -> Option<&str> {
    m.iter().find(|e| e.0 == "kind").and_then(|e| e.1.as_str())
}

fn texts(v: &[&str]) -> Vec<String> {
    v.iter().map(|s| s.to_string()).collect()
}

fn axis(i: usize) -> Vec<u32> {
    let mut v = vec![0.0f32; 8];
    v[i] = 1.0;
    bits(&v)
}

// ---------------------------------------------------------------------
// Chunks
// ---------------------------------------------------------------------

#[test]
fn chunk_text_short() {
    let c = chunk_text("just a few words", 10, 2);
    assert_eq!(c.len(), 1);
}

#[test]
fn chunk_text_long_with_overlap() {
    let text: String = (0..50).map(|i| format!("word{i}")).collect::<Vec<_>>().join(" ");
    let c = chunk_text(&text, 10, 2);
    assert_eq!(c.len(), 6);
}

#[test]
fn chunks_overlap_and_stay_in_their_paragraph() {
    assert_eq!(chunk_text("a b c d e", 3, 1), texts(&["a b c", "c d e"]));
    assert_eq!(chunk_text("a b\n\n c  d ", 3, 1), texts(&["a b", "c d"]));
    assert_eq!(chunk_text("  \n\n ", 3, 1), texts(&[]));
}

#[test]
fn only_blank_texts_have_no_chunks() {
    for blank in ["", " ", "\n\n \n\n\t", "\u{3000}\n"] {
        assert!(chunk_text(blank, 3, 1).is_empty());
        assert!(chunk_text(blank, 0, 0).is_empty());
    }
    assert_eq!(chunk_text("\n\n x \n\n", 3, 1), vec!["x"]);
}

#[test]
fn a_chunk_is_its_own_chunk() {
    let text = "a b  c d\te f g\n\nh\n i j\n\n\n k l m n o p q r";
    for size in 1..6 {
        for overlap in 0..6 {
            let chunks = chunk_text(text, size, overlap);
            assert!(!chunks.is_empty());
            for c in chunks {
                assert!((1..=size).contains(&c.split(' ').count()));
                assert_eq!(c.trim(), c);
                assert_eq!(chunk_text(&c, size, overlap), vec![c]);
            }
        }
    }
}

#[test]
fn white_space_is_what_the_standard_library_says() {
    for c in '\0'..=char::MAX {
        assert_eq!(is_whitespace(c), c.is_whitespace(), "{c:?}");
    }
}

#[test]
fn short_texts_are_kept_as_they_are() {
    let b = compress_text("short");
    assert!(matches!(&b, Body::Plain(s) if s == "short"));
    assert_eq!(b.stored_bytes(), 5);
    assert_eq!(b.text(), "short");
}

#[test]
fn long_texts_come_back_from_their_packing() {
    let long = "привет мир ".repeat(100);
    let b = compress_text(&long);
    assert!(b.is_compressed());
    assert!(b.stored_bytes() < long.len());
    assert_eq!(b.text(), long);
}

// ---------------------------------------------------------------------
// Documents
// ---------------------------------------------------------------------

#[test]
fn add_document_indexes_chunks() {
    let mut dm = make();
    let n = dm.add_document(
        "doc1",
        "this is a test document with several words about embeddings",
        Vec::new(),
        NOW,
    );
    assert_eq!(n, 1);
    assert_eq!(dm.n_documents(), 1);
    assert_eq!(dm.n_chunks(), 1);
}

#[test]
fn add_document_overwrites() {
    let mut dm = make();
    dm.add_document("doc1", "first version", Vec::new(), NOW);
    dm.add_document("doc1", "completely different content here", Vec::new(), NOW);
    assert_eq!(dm.n_documents(), 1);
    for i in 0..dm.n_chunks() {
        let t = dm.chunk(i).unwrap().text();
        assert!(t.contains("different") || t.contains("content"));
    }
}

#[test]
fn short_text_stored_uncompressed() {
    let mut dm = make();
    dm.add_document("a", "short text", Vec::new(), NOW);
    let c = dm.chunk(0).unwrap();
    assert!(!c.is_compressed(), "short text shouldn't trigger gzip");
    assert_eq!(c.text(), "short text");
    assert_eq!((c.doc_id.as_str(), c.idx), ("a", 0));
}

#[test]
fn long_text_stored_compressed_and_smaller() {
    let long: String = "the quick brown fox jumps over the lazy dog. ".repeat(40);
    let original_len = long.len();
    let mut dm = empty(32).with_chunking(10_000, 0);
    dm.add_document("a", &long, Vec::new(), NOW);
    let c = dm.chunk(0).unwrap();
    assert!(c.is_compressed(), "long repetitive text should compress");
    assert!(
        c.stored_bytes() < original_len.min(500),
        "gzip stored={} should beat preview-capped raw={}",
        c.stored_bytes(),
        original_len.min(500),
    );
    let recovered = c.text();
    assert!(recovered.starts_with("the quick brown fox"));
}

#[test]
fn search_works_on_compressed_chunks() {
    let mut dm = empty(32).with_chunking(10_000, 0);
    let long: String = "alpha beta gamma delta epsilon ".repeat(30);
    dm.add_document("a", &long, Vec::new(), NOW);
    let hits = dm.semantic_search::<Test>("alpha beta", 3, None);
    assert!(!hits.is_empty());
    assert!(hits[0].text.contains("alpha"));
}

#[test]
fn semantic_search_returns_relevant() {
    let mut dm = make();
    dm.add_document("a", "the cat sat on the mat", Vec::new(), NOW);
    dm.add_document("b", "this is about programming languages", Vec::new(), NOW);
    dm.add_document("c", "another unrelated note", Vec::new(), NOW);
    let hits = dm.semantic_search::<Test>("cat sat on mat", 5, None);
    assert!(!hits.is_empty());
    assert_eq!(hits[0].doc_id, "a");
}

#[test]
fn semantic_search_respects_filter() {
    let mut dm = make();
    dm.add_document("a", "some note text", meta("note"), NOW);
    dm.add_document("b", "some audit text", meta("audit"), NOW);
    let hits = dm.semantic_search(
        "any query",
        5,
        Some(|d: &DocumentEntry| kind_of(&d.metadata) == Some("audit")),
    );
    assert!(hits.iter().all(|h| h.doc_id == "b"));
    assert_eq!(hits.len(), 1);
}

#[test]
fn forget_document_drops_chunks() {
    let mut dm = make();
    dm.add_document("a", "first doc", Vec::new(), NOW);
    dm.add_document("b", "second doc", Vec::new(), NOW);
    let n_before = dm.n_chunks();
    assert!(dm.forget_document("a"));
    assert_eq!(dm.n_documents(), 1);
    assert!(dm.n_chunks() < n_before);
    assert!((0..dm.n_chunks()).all(|i| dm.chunk(i).unwrap().doc_id != "a"));
}

#[test]
fn every_chunk_belongs_to_a_known_document() {
    let mut dm = make();
    dm.add_document("a", "one two three four five six seven eight nine ten eleven", Vec::new(), NOW);
    dm.add_document("b", "second doc", Vec::new(), NOW);
    dm.add_document("a", "a new text", Vec::new(), NOW);
    dm.forget_document("b");
    assert_eq!(dm.document_ids(), vec!["a".to_string()]);
    assert_eq!(dm.n_chunks(), 1);
    assert!((0..dm.n_chunks()).all(|i| dm.document(&dm.chunk(i).unwrap().doc_id).is_some()));
}

/// An encoder that failed to load: it gives no vectors.
struct Broken;

impl Encoder for Broken {
    fn encode(&self, _: &Vec<String>) -> Vec<Vec<u32>> {
        Vec::new()
    }

    fn dim(&self) -> usize {
        8
    }
}

#[test]
fn only_chunks_with_vectors_are_counted() {
    let mut dm: DocumentMemory<Floats, Broken, BruteForceIndex<Floats>> =
        DocumentMemory::new(Arc::new(Floats), Broken);
    assert_eq!(dm.add_document("d", "hello", Vec::new(), NOW), 0);
    assert_eq!(dm.n_chunks(), 0);
    assert_eq!(dm.n_documents(), 1);
    assert!(dm.forget_document("d"));
    assert_eq!(dm.n_documents(), 0);
    assert!(!dm.forget_document("d"));
}

#[test]
fn metadata_is_compared_by_what_it_says() {
    let filter = |raw: &str| SearchFilter {
        metadata: vec![("m".to_string(), json::parse(raw).unwrap())],
        ..SearchFilter::default()
    };
    let mut dm = make();
    let stored = json::parse("{\"a\": 1, \"b\": [2.50, {\"x\": null, \"y\": true}]}").unwrap();
    dm.add_document("d", "hello", vec![("m".to_string(), stored)], NOW);
    let entry = dm.document("d").unwrap();
    assert!(filter("{\"b\": [2.5, {\"y\": true, \"x\": null}], \"a\": 1}").doc_matches(entry));
    assert!(!filter("{\"b\": [2.5, {\"y\": true, \"x\": null}], \"a\": 1.0}").doc_matches(entry));
    assert!(!filter("{\"b\": [2.5, {\"y\": true, \"x\": null}]}").doc_matches(entry));
    assert!(!filter("{\"a\": 1, \"b\": [{\"x\": null, \"y\": true}, 2.5]}").doc_matches(entry));
    assert!(!filter("{\"a\": 1, \"b\": [2.5, {\"x\": null, \"y\": true}], \"c\": 0}").doc_matches(entry));
}

#[test]
fn numbers_are_equal_however_they_are_written() {
    let n = |s: &str| Json::Number(s.to_string());
    assert!(json::same_json(&n("1.0"), &n("1.00")));
    assert!(json::same_json(&n("1e2"), &n("100.0")));
    assert!(json::same_json(&n("0.0"), &n("-0.0")));
    assert!(!json::same_json(&n("1"), &n("1.0")));
    assert!(!json::same_json(&n("1"), &n("2")));
    assert!(!json::same_json(&n("x"), &n("y")));
    assert!(json::same_json(&n("x"), &n("x")));
}

#[test]
fn forget_unknown_returns_false() {
    let mut dm = make();
    assert!(!dm.forget_document("does-not-exist"));
}

#[test]
fn empty_search_yields_empty() {
    let dm = make();
    let hits = dm.semantic_search::<Test>("anything", 5, None);
    assert!(hits.is_empty());
}

#[test]
fn injection_add_and_search_with_filters() {
    let mut dm = empty(8);
    dm.add_document_with_embeddings(
        "a",
        texts(&["alpha shopping list milk"]),
        vec![axis(0)],
        meta("note"),
        NOW,
    );
    dm.add_document_with_embeddings(
        "b",
        texts(&["beta audit log entry"]),
        vec![axis(1)],
        meta("audit"),
        NOW,
    );

    let q = bits(&[0.9, 0.1, 0.0, 0.0, 0.0, 0.0, 0.0, 0.0]);
    let hits = dm.search(&q, 5, &SearchFilter::default());
    assert_eq!(hits[0].doc_id, "a");
    assert_eq!(kind_of(&hits[0].metadata), Some("note"));

    let mut f1 = SearchFilter::default();
    f1.metadata = meta("audit");
    let hits = dm.search(&q, 5, &f1);
    assert!(hits.iter().all(|h| h.doc_id == "b"));
    assert_eq!(hits.len(), 1);

    let mut f2 = SearchFilter::default();
    f2.contains_text = Some("SHOPPING".to_string());
    let hits = dm.search(&q, 5, &f2);
    assert_eq!(hits.len(), 1);
    assert_eq!(hits[0].doc_id, "a");

    let mut f3 = SearchFilter::default();
    f3.min_score = Some(0.95f32.to_bits());
    let hits = dm.search(&axis(1), 5, &f3);
    assert!(hits.iter().all(|h| f(h.score) >= 0.95));
    assert_eq!(hits[0].doc_id, "b");

    let mut f4 = SearchFilter::default();
    f4.doc_ids = Some(texts(&["b"]));
    let hits = dm.search(&q, 5, &f4);
    assert!(hits.iter().all(|h| h.doc_id == "b"));
}

#[test]
fn document_persistence_roundtrip() {
    let mut dm = empty(8);
    dm.add_document_with_embeddings(
        "big",
        texts(&["chunk one text", "chunk two text"]),
        vec![axis(0), axis(1)],
        Vec::new(),
        NOW,
    );
    let snap = dm.build_snapshot();
    let dm2 = Memory::from_snapshot(
        Arc::new(Floats),
        snap,
        MockEncoder::new(Arc::new(Floats), 8),
    )
    .unwrap();
    assert_eq!(dm2.n_documents(), 1);
    assert_eq!(dm2.n_chunks(), 2);
    let hits = dm2.search(&axis(0), 1, &SearchFilter::default());
    assert_eq!(hits[0].doc_id, "big");
    assert!(hits[0].text.contains("chunk one"));
}

#[test]
fn saved_documents_of_another_version_are_refused() {
    let mut snap = empty(8).build_snapshot();
    snap.schema_version = DOC_SCHEMA_VERSION + 1;
    let r = Memory::from_snapshot(Arc::new(Floats), snap, MockEncoder::new(Arc::new(Floats), 8));
    assert!(matches!(r, Err(PersistError::Corrupt(_))));
}

#[test]
fn ann_fast_path_matches_exact_no_filter() {
    let mut exact = make();
    exact.add_document("a", "alpha bravo charlie delta", Vec::new(), NOW);
    exact.add_document("b", "xi omicron pi rho", Vec::new(), NOW);
    let mut base = make();
    base.add_document("a", "alpha bravo charlie delta", Vec::new(), NOW);
    base.add_document("b", "xi omicron pi rho", Vec::new(), NOW);
    let ann = base.with_ann(BruteForceIndex::new(Arc::new(Floats)));

    let q = "alpha bravo charlie delta";
    let he = exact.semantic_search::<Test>(q, 5, None);
    let ha = ann.semantic_search::<Test>(q, 5, None);
    assert!(!he.is_empty() && !ha.is_empty());
    assert_eq!(ha[0].chunk_id, he[0].chunk_id, "ANN top must match exact (no filter)");
}

#[test]
fn an_index_follows_the_documents() {
    let mut dm = empty(8).with_ann(BruteForceIndex::new(Arc::new(Floats)));
    dm.add_document_with_embeddings("a", texts(&["x"]), vec![axis(0)], Vec::new(), NOW);
    dm.add_document_with_embeddings("b", texts(&["y"]), vec![axis(1)], Vec::new(), NOW);
    assert_eq!(dm.search(&axis(0), 1, &SearchFilter::default())[0].doc_id, "a");
    dm.forget_document("a");
    let hits = dm.search(&axis(0), 5, &SearchFilter::default());
    assert_eq!(hits.len(), 1);
    assert_eq!(hits[0].doc_id, "b");
    assert_eq!(dm.document_ids(), texts(&["b"]));
    assert!(dm.document("a").is_none());
    assert_eq!(dm.document("b").unwrap().doc_id, "b");
}

#[test]
fn chunks_without_vectors_are_not_taken_in() {
    let mut dm = empty(8);
    let n = dm.add_document_with_embeddings(
        "a",
        texts(&["x", "y"]),
        vec![axis(0)],
        Vec::new(),
        NOW,
    );
    assert_eq!(n, 0);
    assert_eq!(dm.n_documents(), 0);
    assert_eq!(dm.add_document("a", "   ", Vec::new(), NOW), 0);
}

#[test]
fn no_more_hits_than_asked_for() {
    let mut dm = make();
    for id in ["a", "b", "c"] {
        dm.add_document(id, "same text", Vec::new(), NOW);
    }
    let hits = dm.semantic_search::<Test>("same text", 2, None);
    assert_eq!(hits.len(), 2);
    assert_eq!((hits[0].doc_id.as_str(), hits[1].doc_id.as_str()), ("a", "b"));
}

// ---------------------------------------------------------------------
// Indices
// ---------------------------------------------------------------------

fn data() -> Vec<(u64, Vec<u32>)> {
    vec![
        (1, bits(&[1.0, 0.0, 0.0])),
        (2, bits(&[0.0, 1.0, 0.0])),
        (3, bits(&[0.9, 0.1, 0.0])),
    ]
}

#[test]
fn brute_force_exact_topk() {
    let mut idx = BruteForceIndex::new(Arc::new(Floats));
    for (id, v) in data() {
        idx.add(id, v);
    }
    let hits = idx.search(&bits(&[1.0, 0.0, 0.0]), 2);
    assert_eq!(idx.len(), 3);
    assert_eq!(hits[0].0, 1);
    assert_eq!(hits[1].0, 3);
    assert_eq!(hits.len(), 2);
}

#[test]
fn brute_force_rebuild_drops_old() {
    let idx = BruteForceIndex::new(Arc::new(Floats));
    let idx = idx.rebuild(data());
    let idx = idx.rebuild(vec![(2, bits(&[0.0, 1.0, 0.0]))]);
    let hits = idx.search(&bits(&[1.0, 0.0, 0.0]), 5);
    assert_eq!(hits.len(), 1);
    assert_eq!(hits[0].0, 2);
}

#[test]
fn hnsw_finds_exact_match() {
    let h = HnswIndex::<Floats, Hnsw>::new(Arc::new(Floats));
    let h = h.rebuild(data());
    let hits = h.search(&bits(&[1.0, 0.0, 0.0]), 1);
    assert_eq!(hits[0].0, 1);
}

#[test]
fn a_graph_out_of_date_is_not_asked() {
    let h = HnswIndex::<Floats, Hnsw>::new(Arc::new(Floats));
    assert!(h.is_empty());
    let mut h = h.rebuild(data());
    h.add(9, bits(&[0.0, 0.0, 1.0]));
    let hits = h.search(&bits(&[0.0, 0.0, 1.0]), 1);
    assert_eq!(hits, vec![(9, 1.0f32.to_bits())]);
    assert_eq!(h.len(), 4);
    let none = h.rebuild(Vec::new());
    assert!(none.search(&bits(&[1.0, 0.0, 0.0]), 3).is_empty());
}

#[test]
fn vectors_without_length_are_similar_to_nothing() {
    let zero = 0.0f32.to_bits();
    let one = 1.0f32.to_bits();
    assert_eq!(cosine_of_parts(&Floats, one, zero, one), zero);
    assert_eq!(cosine_of_parts(&Floats, 3.0f32.to_bits(), 2.0f32.to_bits(), one), 1.5f32.to_bits());
}

#[test]
fn a_graph_gives_no_more_than_asked_for() {
    let h = HnswIndex::<Floats, Hnsw>::new(Arc::new(Floats)).rebuild(data());
    for k in 0..5 {
        assert_eq!(h.search(&bits(&[1.0, 0.0, 0.0]), k).len(), k.min(3));
    }
}

#[test]
fn parts_of_a_store_can_be_cloned() {
    let mut dm = make();
    dm.add_document("d", "hello there", meta("note"), NOW);
    let entry = dm.document("d").unwrap().clone();
    assert_eq!(kind_of(&entry.metadata), Some("note"));
    assert_eq!(dm.chunk(0).unwrap().clone().text(), "hello there");
    let hits = dm.semantic_search::<Test>("hello", 1, None);
    assert_eq!(hits[0].clone().doc_id, "d");
    let filter = SearchFilter { metadata: meta("note"), ..SearchFilter::default() };
    assert!(filter.clone().doc_matches(&entry));
}

#[test]
fn equal_keys_rank_by_position() {
    assert_eq!(top_positions(&vec![3, 9, 3, 9, 1], 3), vec![1, 3, 0]);
    assert_eq!(top_positions(&vec![3, 9], 5), vec![1, 0]);
    assert!(top_positions(&vec![3, 9], 0).is_empty());
}

// ---------------------------------------------------------------------
// Encoders
// ---------------------------------------------------------------------

#[test]
fn the_encoder_hashes_bytes() {
    let enc = MockEncoder::new(Arc::new(Floats), 2);
    let got = enc.encode(&texts(&["ab c", ""]));
    let raw = [97.0 - 127.5 + 32.0 - 127.5, 98.0 - 127.5 + 99.0 - 127.5f32];
    let norm = (raw[0] * raw[0] + raw[1] * raw[1]).sqrt();
    assert_eq!(numbers(&got[0]), vec![raw[0] / norm, raw[1] / norm]);
    assert_eq!(numbers(&got[1]), vec![0.0, 0.0]);
    assert_eq!(enc.encode_query(&texts(&["ab c"])), vec![got[0].clone()]);
    assert_eq!(enc.dim(), 2);
}

#[test]
fn prefixes_stand_before_the_texts() {
    assert_eq!(with_prefix(QUERY_PREFIX, &texts(&["x"])), texts(&["query: x"]));
    assert_eq!(with_prefix(PASSAGE_PREFIX, &texts(&["x", ""])), texts(&["passage: x", "passage: "]));
}
