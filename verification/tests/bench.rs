//! Counting how well a ranking finds what is relevant.

use memory_plant::audit::Timestamp;
use memory_plant::bench::{
    bench_of, count_query, first_relevant_rank, measure_texts, measure_vectors, read_bench,
    take_texts, take_vectors, Agg, Tally, NO_BENCHMARK,
};
use memory_plant::document::{DocumentEntry, DocumentMemory, MockEncoder};
use memory_plant::index::BruteForceIndex;
use memory_plant::json;
use memory_plant::kernel::Kernel;
use std::sync::Arc;

/// Binary32 arithmetic on bit patterns.
struct Floats;

fn f(b: u32) -> f32 {
    f32::from_bits(b)
}

/// The bit patterns of numbers.
fn bits(v: &[f32]) -> Vec<u32> {
    v.iter().map(|x| x.to_bits()).collect()
}

impl Kernel for Floats {
    fn plus(&self, a: u32, b: u32) -> u32 {
        (f(a) + f(b)).to_bits()
    }

    fn minus(&self, a: u32, b: u32) -> u32 {
        (f(a) - f(b)).to_bits()
    }

    fn times(&self, a: u32, b: u32) -> u32 {
        (f(a) * f(b)).to_bits()
    }

    fn divide(&self, a: u32, b: u32) -> u32 {
        (f(a) / f(b)).to_bits()
    }

    fn root(&self, a: u32) -> u32 {
        f(a).sqrt().to_bits()
    }

    fn dot(&self, a: &Vec<u32>, b: &Vec<u32>) -> u32 {
        let n = a.len().min(b.len());
        let (a, b) = (&a[..n], &b[..n]);
        let mut lanes = [0.0f32; 8];
        let (x, y) = (a.chunks_exact(8), b.chunks_exact(8));
        let (xr, yr) = (x.remainder(), y.remainder());
        for (p, q) in x.zip(y) {
            for i in 0..8 {
                lanes[i] += f(p[i]) * f(q[i]);
            }
        }
        let mut sum = 0.0f32;
        sum += lanes[0] + lanes[4];
        sum += lanes[1] + lanes[5];
        sum += lanes[2] + lanes[6];
        sum += lanes[3] + lanes[7];
        for (p, q) in xr.iter().zip(yr) {
            sum += f(*p) * f(*q);
        }
        sum.to_bits()
    }

    fn serial_dot(&self, a: &Vec<u32>, b: &Vec<u32>) -> u32 {
        let s: f32 = a.iter().zip(b).map(|(x, y)| f(*x) * f(*y)).sum();
        s.to_bits()
    }

    fn uniform(&self, draw: u32) -> u32 {
        ((draw >> 8) as f32 * (1.0 / 16777216.0) * 2.0 - 1.0).to_bits()
    }

    fn centered(&self, byte: u8) -> u32 {
        (byte as f32 - 127.5).to_bits()
    }

    fn phase_cosine(&self, a: &Vec<u8>, b: &Vec<u8>, k: u8) -> u32 {
        let scale = std::f32::consts::TAU / (1u32 << k) as f32;
        let mut acc = 0.0f64;
        for (x, y) in a.iter().zip(b) {
            acc += (*x as f32 * scale - *y as f32 * scale).cos() as f64;
        }
        ((acc / a.len() as f64) as f32).to_bits()
    }
}

fn texts(v: &[&str]) -> Vec<String> {
    v.iter().map(|s| s.to_string()).collect()
}

#[test]
fn the_first_relevant_id_counts() {
    let ranked = texts(&["a", "b", "c", "b"]);
    assert_eq!(first_relevant_rank(&ranked, &texts(&["c", "b"])), 2);
    assert_eq!(first_relevant_rank(&ranked, &texts(&["a"])), 1);
    assert_eq!(first_relevant_rank(&ranked, &texts(&["z"])), 0);
    assert_eq!(first_relevant_rank(&texts(&[]), &texts(&["z"])), 0);
}

#[test]
fn places_are_counted() {
    let mut a = Agg::default();
    for rank in [1, 2, 0, 5, 6, 3, 1] {
        a.add(rank);
    }
    assert_eq!((a.n(), a.r1(), a.r3(), a.r5()), (7, 2, 4, 5));
    assert_eq!(a.places(), &vec![1, 2, 0, 5, 6, 3, 1]);
}

#[test]
fn queries_are_counted_by_language() {
    let mut t = Tally::default();
    let ranked = texts(&["a", "b", "c", "d"]);
    for (lang, want) in [("ru", "b"), ("en", "a"), ("kz", "z"), ("ru", "d"), ("en", "a"), ("e", "c")] {
        count_query(&mut t, lang, &ranked, &texts(&[want]));
    }
    assert_eq!(t.overall().places(), &vec![2, 1, 0, 4, 1, 3]);
    let rows: Vec<(&str, Vec<usize>)> = (0..t.n_languages())
        .map(|i| t.language(i).map(|(l, a)| (l, a.places().clone())).unwrap())
        .collect();
    assert_eq!(
        rows,
        vec![("e", vec![3]), ("en", vec![1, 1]), ("kz", vec![0]), ("ru", vec![2, 4])]
    );
    assert!(t.language(4).is_none());
    let mut names = vec!["б", "a", "", "ab", "B", "aa", "я", "b"];
    let mut t = Tally::default();
    for n in &names {
        count_query(&mut t, n, &ranked, &ranked);
    }
    names.sort();
    let got: Vec<&str> = (0..t.n_languages()).map(|i| t.language(i).unwrap().0).collect();
    assert_eq!(got, names);
}

const SET: &str = r#"{
    "model": "m", "dim": 2,
    "corpus": [
        {"id": "x", "text": "alpha", "emb": [1.0, 0]},
        {"id": "y", "text": "beta beta", "emb": [0, 1e0]}
    ],
    "queries": [
        {"lang": "en", "text": "alpha", "relevant": ["x"], "emb": [0.9, 0.1]},
        {"lang": "ru", "text": "beta beta", "relevant": ["x", "q"], "emb": [-0.5, 2]}
    ]
}"#;

#[test]
fn a_benchmark_is_read() {
    let b = read_bench(SET).unwrap();
    assert_eq!(b.model.as_deref(), Some("m"));
    assert_eq!((b.dim, b.docs.len(), b.queries.len()), (2, 2, 2));
    assert_eq!((b.docs[1].id.as_str(), b.docs[1].text.as_str()), ("y", "beta beta"));
    assert_eq!(b.docs[1].emb, texts(&["0", "1.0"]));
    assert_eq!((b.queries[1].lang.as_str(), b.queries[1].text.as_str()), ("ru", "beta beta"));
    assert_eq!(b.queries[1].relevant, texts(&["x", "q"]));
    assert_eq!(b.queries[1].emb, texts(&["-0.5", "2"]));
    assert!(read_bench(&SET.replace("\"model\": \"m\", ", "")).unwrap().model.is_none());
}

#[test]
fn what_is_no_benchmark_is_refused() {
    for (a, b) in [
        ("\"dim\": 2", "\"dim\": -2"),
        ("\"dim\": 2", "\"dim\": \"2\""),
        ("\"corpus\"", "\"corpora\""),
        ("\"queries\"", "\"asked\""),
        ("\"id\": \"y\"", "\"id\": 1"),
        ("[1.0, 0]", "[1.0, \"0\"]"),
        ("\"lang\": \"ru\", ", ""),
        ("[\"x\", \"q\"]", "[\"x\", 3]"),
    ] {
        assert!(SET.contains(a), "{a}");
        assert_eq!(read_bench(&SET.replacen(a, b, 1)).unwrap_err(), NO_BENCHMARK);
    }
    let e = read_bench("{").unwrap_err();
    assert_eq!(e, json::parse("{").unwrap_err());
    assert_eq!(bench_of(&json::parse("3").unwrap()).unwrap_err(), NO_BENCHMARK);
}

type Store = DocumentMemory<Floats, MockEncoder<Floats>, BruteForceIndex<Floats>>;

#[test]
fn a_benchmark_is_run() {
    let b = read_bench(SET).unwrap();
    let now = Timestamp { secs: 1, nanos: 0 };
    let store = || -> Store {
        DocumentMemory::new(Arc::new(Floats), MockEncoder::new(Arc::new(Floats), 16))
    };
    let vector = |v: &[String]| bits(&v.iter().map(|n| n.parse().unwrap()).collect::<Vec<f32>>());

    let mut given = store();
    let vectors: Vec<Vec<u32>> = b.docs.iter().map(|d| vector(&d.emb)).collect();
    take_vectors(&mut given, &b.docs, &vectors, now);
    assert_eq!((given.n_documents(), given.n_chunks()), (2, 2));
    let asked: Vec<Vec<u32>> = b.queries.iter().map(|q| vector(&q.emb)).collect();
    let t = measure_vectors(&given, &b.queries, &asked);
    assert_eq!(t.overall().places(), &vec![1, 2]);
    assert_eq!(t.language(1).unwrap().0, "ru");

    let mut hashed = store();
    take_texts(&mut hashed, &b.docs, now);
    assert_eq!(hashed.n_documents(), 2);
    let t = measure_texts::<_, _, _, fn(&DocumentEntry) -> bool>(&hashed, &b.queries);
    assert_eq!(t.overall().places(), &vec![1, 2]);
}
