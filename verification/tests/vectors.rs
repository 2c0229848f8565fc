//! Binding, vocabularies, packed phases and the order of scores.

use memory_plant::hlb::{
    bind_hlb, cosine_of_parts, cosine_similarity, normalize, poles_of, random_hlb_role,
    scale_by_norm, unbind_hlb, HlbError,
};
use memory_plant::kernel::{add_vectors, subtract_vectors, zeros, Kernel};
use memory_plant::packing::{bytes_needed, pack_phase, unpack_phase, zero_bytes};
use memory_plant::resonator;
use memory_plant::score::{is_less, nan, negate, place, total_place};
use memory_plant::vocab::{best_of, Vocab};
use memory_plant::vsa::{Phase, VsaError};
use rand::{Rng, SeedableRng};
use rand_chacha::ChaCha8Rng;
use sha2::{Digest, Sha256};

/// Binary32 arithmetic on bit patterns.
struct Floats;

fn f(b: u32) -> f32 {
    f32::from_bits(b)
}

/// The bit patterns of numbers.
fn bits(v: &[f32]) -> Vec<u32> {
    v.iter().map(|x| x.to_bits()).collect()
}

impl Kernel for Floats {
    fn plus(&self, a: u32, b: u32) -> u32 {
        (f(a) + f(b)).to_bits()
    }

    fn minus(&self, a: u32, b: u32) -> u32 {
        (f(a) - f(b)).to_bits()
    }

    fn times(&self, a: u32, b: u32) -> u32 {
        (f(a) * f(b)).to_bits()
    }

    fn divide(&self, a: u32, b: u32) -> u32 {
        (f(a) / f(b)).to_bits()
    }

    fn root(&self, a: u32) -> u32 {
        f(a).sqrt().to_bits()
    }

    fn dot(&self, a: &Vec<u32>, b: &Vec<u32>) -> u32 {
        let n = a.len().min(b.len());
        let (a, b) = (&a[..n], &b[..n]);
        let mut lanes = [0.0f32; 8];
        let (x, y) = (a.chunks_exact(8), b.chunks_exact(8));
        let (xr, yr) = (x.remainder(), y.remainder());
        for (p, q) in x.zip(y) {
            for i in 0..8 {
                lanes[i] += f(p[i]) * f(q[i]);
            }
        }
        let mut sum = 0.0f32;
        sum += lanes[0] + lanes[4];
        sum += lanes[1] + lanes[5];
        sum += lanes[2] + lanes[6];
        sum += lanes[3] + lanes[7];
        for (p, q) in xr.iter().zip(yr) {
            sum += f(*p) * f(*q);
        }
        sum.to_bits()
    }

    fn serial_dot(&self, a: &Vec<u32>, b: &Vec<u32>) -> u32 {
        let s: f32 = a.iter().zip(b).map(|(x, y)| f(*x) * f(*y)).sum();
        s.to_bits()
    }

    fn uniform(&self, draw: u32) -> u32 {
        ((draw >> 8) as f32 * (1.0 / 16777216.0) * 2.0 - 1.0).to_bits()
    }

    fn centered(&self, byte: u8) -> u32 {
        (byte as f32 - 127.5).to_bits()
    }

    fn phase_cosine(&self, a: &Vec<u8>, b: &Vec<u8>, k: u8) -> u32 {
        let scale = std::f32::consts::TAU / (1u32 << k) as f32;
        let mut acc = 0.0f64;
        for (x, y) in a.iter().zip(b) {
            acc += (*x as f32 * scale - *y as f32 * scale).cos() as f64;
        }
        ((acc / a.len() as f64) as f32).to_bits()
    }
}

fn close(a: f32, b: f32, eps: f32) -> bool {
    (a - b).abs() <= eps
}

// ---------------------------------------------------------------------
// Binding
// ---------------------------------------------------------------------

#[test]
fn normalize_unit_vector_unchanged() {
    let mut v = bits(&[1.0, 0.0, 0.0]);
    normalize(&Floats, &mut v).unwrap();
    assert!(close(f(v[0]), 1.0, 1e-6));
}

#[test]
fn normalize_zero_errors() {
    let mut v = bits(&[0.0, 0.0, 0.0]);
    let result = normalize(&Floats, &mut v);
    assert!(matches!(result, Err(HlbError::ZeroNorm)));
}

#[test]
fn normalize_scales_to_length_one() {
    let mut v = bits(&[3.0, 4.0]);
    normalize(&Floats, &mut v).unwrap();
    assert_eq!(v, bits(&[0.6, 0.8]));
}

#[test]
fn a_refused_vector_is_left_as_it_is() {
    let mut v = bits(&[1e-8, 0.0]);
    assert!(scale_by_norm(&Floats, &mut v, 1e-8f32.to_bits()).is_err());
    assert_eq!(v, bits(&[1e-8, 0.0]));
}

#[test]
fn cosine_identical_vectors_is_one() {
    let v = bits(&[1.0, 2.0, 3.0]);
    let c = f(cosine_similarity(&Floats, &v, &v).unwrap());
    assert!(close(c, 1.0, 1e-6));
}

#[test]
fn cosine_orthogonal_is_zero() {
    let a = bits(&[1.0, 0.0]);
    let b = bits(&[0.0, 1.0]);
    let c = f(cosine_similarity(&Floats, &a, &b).unwrap());
    assert!(close(c, 0.0, 1e-6));
}

#[test]
fn cosine_with_a_vector_without_length_is_zero() {
    let a = bits(&[1.0, 0.0]);
    let b = bits(&[0.0, 0.0]);
    assert_eq!(f(cosine_similarity(&Floats, &a, &b).unwrap()), 0.0);
    assert_eq!(f(cosine_of_parts(&Floats, 6.0f32.to_bits(), 2.0f32.to_bits(), 4.0f32.to_bits())), 0.75);
}

#[test]
fn cosine_of_short_parallel_vectors_is_one() {
    let a = bits(&[1e-4, 0.0]);
    let c = f(cosine_similarity(&Floats, &a, &a).unwrap());
    assert!(close(c, 1.0, 1e-6));
    let tiny = bits(&[1e-20, 2e-20]);
    let c = f(cosine_similarity(&Floats, &tiny, &bits(&[1.0, 2.0])).unwrap());
    assert!(close(c, 1.0, 1e-2));
}

#[test]
fn bind_unbind_roundtrip_exact_single_fact() {
    let role = random_hlb_role(512, Some(42));
    let value = random_hlb_role(512, Some(7));
    let memory = bind_hlb(&Floats, &role, &value).unwrap();
    let recovered = unbind_hlb(&Floats, &memory, &role).unwrap();
    for (got, want) in recovered.iter().zip(value.iter()) {
        assert!(close(f(*got), f(*want), 1e-6));
    }
}

#[test]
fn unbinding_undoes_binding_bit_for_bit() {
    let role = random_hlb_role(64, Some(3));
    let value: Vec<u32> = (0..64).map(|i| (i as f32 * 0.37 - 9.0).to_bits()).collect();
    let memory = bind_hlb(&Floats, &role, &value).unwrap();
    assert_ne!(memory, value);
    assert_eq!(unbind_hlb(&Floats, &memory, &role).unwrap(), value);
}

#[test]
fn superposition_then_amp_lookup() {
    const DIM: usize = 1024;
    const K: usize = 64;
    const N: usize = 10;
    let vocab: Vec<Vec<u32>> = (0..K)
        .map(|i| {
            let mut rng = ChaCha8Rng::seed_from_u64(1000 + i as u64);
            let mut v: Vec<u32> =
                (0..DIM).map(|_| (rng.random::<f32>() * 2.0 - 1.0).to_bits()).collect();
            normalize(&Floats, &mut v).unwrap();
            v
        })
        .collect();
    let mut roles = Vec::with_capacity(N);
    let mut truth: Vec<usize> = Vec::with_capacity(N);
    let mut memory = zeros(DIM);
    for i in 0..N {
        let role = random_hlb_role(DIM, Some(2000 + i as u64));
        let vocab_idx = (i * 7) % K;
        let bound = bind_hlb(&Floats, &role, &vocab[vocab_idx]).unwrap();
        memory = add_vectors(&Floats, &memory, &bound);
        roles.push(role);
        truth.push(vocab_idx);
    }
    let mut correct = 0;
    for i in 0..N {
        let unbound = unbind_hlb(&Floats, &memory, &roles[i]).unwrap();
        let mut best = (0, f32::NEG_INFINITY);
        for (idx, v) in vocab.iter().enumerate() {
            let c = f(cosine_similarity(&Floats, &unbound, v).unwrap());
            if c >= best.1 {
                best = (idx, c);
            }
        }
        if best.0 == truth[i] {
            correct += 1;
        }
    }
    assert_eq!(correct, N, "expected 100% recall at safe load");
}

#[test]
fn dim_mismatch_errors() {
    let a = bits(&[1.0, 2.0]);
    let b = bits(&[1.0, 2.0, 3.0]);
    assert!(bind_hlb(&Floats, &a, &b).is_err());
    assert!(unbind_hlb(&Floats, &a, &b).is_err());
    assert!(cosine_similarity(&Floats, &a, &b).is_err());
    let e = bind_hlb(&Floats, &a, &b).unwrap_err();
    assert!(matches!(e, HlbError::DimMismatch { lhs: 2, rhs: 3 }));
    assert_eq!(e.message(), "dim mismatch: lhs=2, rhs=3");
}

#[test]
fn role_is_bipolar() {
    let role = random_hlb_role(256, Some(99));
    for x in role.iter() {
        assert!(f(*x) == 1.0 || f(*x) == -1.0, "non-bipolar entry: {}", f(*x));
    }
}

#[test]
fn roles_without_a_seed_differ() {
    let a = random_hlb_role(256, None);
    let b = random_hlb_role(256, None);
    assert_eq!(a.len(), 256);
    assert_ne!(a, b);
}

#[test]
fn roles_are_the_flips_of_the_seeded_generator() {
    let mut rng = ChaCha8Rng::seed_from_u64(42);
    let want: Vec<u32> = (0..40)
        .map(|_| if rng.random::<bool>() { 1.0f32.to_bits() } else { (-1.0f32).to_bits() })
        .collect();
    assert_eq!(random_hlb_role(40, Some(42)), want);
    assert_eq!(poles_of(&vec![true, false]), bits(&[1.0, -1.0]));
}

#[test]
fn messages_of_the_store() {
    assert_eq!(HlbError::ZeroNorm.message(), "zero-norm vector: cannot normalize");
    let full = HlbError::VocabFull { cap: 3, attempted: "a\"b".to_string() };
    assert_eq!(full.message(), "vocab full: cap=3, attempted to register \"a\\\"b\"");
    let missing = HlbError::KeyNotFound { key: "k".to_string() };
    assert_eq!(missing.message(), "key not found in any shard: \"k\"");
}

#[test]
fn vectors_add_and_subtract_entry_by_entry() {
    let a = bits(&[1.0, 2.5]);
    let b = bits(&[0.5, -2.0]);
    assert_eq!(add_vectors(&Floats, &a, &b), bits(&[1.5, 0.5]));
    assert_eq!(subtract_vectors(&Floats, &a, &b), bits(&[0.5, 4.5]));
    assert_eq!(zeros(3), bits(&[0.0, 0.0, 0.0]));
}

// ---------------------------------------------------------------------
// Vocabularies
// ---------------------------------------------------------------------

#[test]
fn register_idempotent() {
    let mut v = Vocab::new(&Floats, 8, 128, 42).unwrap();
    let i1 = v.register("apple").unwrap();
    let i2 = v.register("apple").unwrap();
    assert_eq!(i1, i2);
    assert_eq!(v.len(), 1);
}

#[test]
fn register_appends_distinct() {
    let mut v = Vocab::new(&Floats, 8, 128, 42).unwrap();
    v.register("apple").unwrap();
    v.register("banana").unwrap();
    v.register("cherry").unwrap();
    assert_eq!(v.len(), 3);
    assert_eq!(v.get("banana"), Some(1));
    assert_eq!(v.get("durian"), None);
    assert_eq!(v.key_at(2), Some("cherry"));
    assert_eq!(v.key_at(3), None);
    assert!(!v.is_empty());
    assert_eq!((v.cap(), v.dim(), v.seed()), (8, 128, 42));
}

#[test]
fn register_full_errors() {
    let mut v = Vocab::new(&Floats, 2, 64, 42).unwrap();
    v.register("a").unwrap();
    v.register("b").unwrap();
    let result = v.register("c");
    assert!(matches!(result, Err(HlbError::VocabFull { .. })));
    assert_eq!(v.len(), 2);
    assert_eq!(v.register("a").unwrap(), 0);
}

#[test]
fn nearest_recovers_self() {
    let mut v = Vocab::new(&Floats, 4, 256, 42).unwrap();
    v.register("alpha").unwrap();
    v.register("beta").unwrap();
    v.register("gamma").unwrap();
    let row = v.row(1).clone();
    let (idx, score) = v.nearest(&Floats, &row).unwrap();
    assert_eq!(idx, 1);
    assert!(f(score) > 0.99, "self-cosine should be ~1, got {}", f(score));
}

#[test]
fn nearest_empty_is_none() {
    let v = Vocab::new(&Floats, 4, 64, 42).unwrap();
    let q = zeros(64);
    assert!(v.nearest(&Floats, &q).is_none());
}

#[test]
fn nothing_is_nearest_to_a_query_of_any_length_without_values() {
    let v = Vocab::new(&Floats, 4, 64, 42).unwrap();
    assert!(v.nearest(&Floats, &zeros(3)).is_none());
}

#[test]
fn rows_come_from_the_seeded_generator() {
    let v = Vocab::new(&Floats, 2, 3, 42).unwrap();
    let mut rng = ChaCha8Rng::seed_from_u64(42);
    for i in 0..2 {
        let raw: Vec<f32> = (0..3).map(|_| rng.random::<f32>() * 2.0 - 1.0).collect();
        let norm = raw.iter().map(|x| x * x).sum::<f32>().sqrt();
        for (got, x) in v.row(i).iter().zip(raw) {
            assert!(close(f(*got), x / norm, 1e-6));
        }
    }
}

#[test]
fn vectors_without_entries_cannot_be_scaled() {
    assert!(matches!(Vocab::new(&Floats, 1, 0, 42), Err(HlbError::ZeroNorm)));
}

#[test]
fn the_first_of_equal_scores_is_best() {
    let one = Some(1.0f32.to_bits());
    let two = Some(2.0f32.to_bits());
    assert_eq!(best_of(&vec![one, two, None, two]), (1, 2.0f32.to_bits()));
    assert_eq!(best_of(&vec![None, None]), (0, f32::NEG_INFINITY.to_bits()));
}

// ---------------------------------------------------------------------
// Roles from keys
// ---------------------------------------------------------------------

#[test]
fn role_is_deterministic() {
    let r1 = resonator::role_from_key("alice|works_as|hr", 512);
    let r2 = resonator::role_from_key("alice|works_as|hr", 512);
    for (a, b) in r1.iter().zip(r2.iter()) {
        assert!(close(f(*a), f(*b), 1e-9));
    }
}

#[test]
fn role_differs_for_different_keys() {
    let r1 = resonator::role_from_key("alice", 256);
    let r2 = resonator::role_from_key("bob", 256);
    let agree = r1.iter().zip(r2.iter()).filter(|(a, b)| a == b).count();
    let frac = agree as f32 / 256.0;
    assert!(
        (0.4..0.6).contains(&frac),
        "agreement {:.2} not near 0.5 — roles too correlated",
        frac
    );
}

#[test]
fn roles_of_one_key_differ_between_dimensions() {
    let short = resonator::role_from_key("k", 64);
    let long = resonator::role_from_key("k", 65);
    assert_eq!(short.len(), 64);
    assert_ne!(short[..], long[..64]);
}

/// The generator that a key seeds.
fn generator(key: &str, dim: usize, more: &[u8]) -> ChaCha8Rng {
    let mut h = Sha256::new();
    h.update(key.as_bytes());
    h.update(b":");
    h.update((dim as u64).to_le_bytes());
    h.update(more);
    ChaCha8Rng::from_seed(h.finalize().into())
}

#[test]
fn roles_are_the_flips_that_the_digest_of_the_key_seeds() {
    let mut rng = generator("алиса|p", 48, &[]);
    let want: Vec<u32> = (0..48)
        .map(|_| if rng.random::<bool>() { 1.0f32.to_bits() } else { (-1.0f32).to_bits() })
        .collect();
    assert_eq!(resonator::role_from_key("алиса|p", 48), want);
}

#[test]
fn phases_are_the_words_that_the_digest_of_the_key_seeds() {
    let role = Phase::role_from_key("k", 20, 4).unwrap();
    let mut rng = generator("k", 20, &[4]);
    for i in 0..20 {
        assert_eq!(role.phase_at(i) as u32, rng.random::<u32>() % 16);
    }
    let role = Phase::role_from_key("k", 20, 1).unwrap();
    let mut rng = generator("k", 20, &[1]);
    for i in 0..20 {
        assert_eq!(role.phase_at(i), if rng.random::<bool>() { 0 } else { 1 });
    }
    let role = Phase::random_role(20, 2, 9).unwrap();
    let mut rng = ChaCha8Rng::seed_from_u64(9);
    for i in 0..20 {
        assert_eq!(role.phase_at(i) as u32, rng.random::<u32>() % 4);
    }
}

#[test]
fn half_of_all_words_exceed_one_half() {
    for x in (0u32..4096).map(|i| 2_147_481_728 + i) {
        assert_eq!(x as f32 / u32::MAX as f32 > 0.5, x > 2_147_483_776, "{x}");
    }
}

#[test]
fn no_passes_give_the_first_guesses() {
    let mut vocab = Vocab::new(&Floats, 8, 128, 42).unwrap();
    vocab.register("a").unwrap();
    vocab.register("b").unwrap();
    let role = resonator::role_from_key("k", 128);
    let memory = bind_hlb(&Floats, &role, vocab.row(1)).unwrap();
    let keys = vec!["k".to_string()];
    let got = resonator::decode(&Floats, &vocab, &memory, &keys, &vec![role], 0).unwrap();
    assert_eq!(got, vec![1]);
}

// ---------------------------------------------------------------------
// Phases
// ---------------------------------------------------------------------

#[test]
fn hlb_real_roundtrip() {
    let role = Phase::random_role(512, 1, 42).unwrap();
    let value = Phase::random_role(512, 1, 7).unwrap();
    let memory = role.bind(&value).unwrap();
    let recovered = memory.unbind(&role).unwrap();
    if let (Phase::Real(rec), Phase::Real(val)) = (&recovered, &value) {
        for (a, b) in rec.iter().zip(val.iter()) {
            assert!(close(f(*a), f(*b), 1e-6));
        }
    } else {
        panic!("expected Real variant");
    }
}

#[test]
fn qfhrr_k2_roundtrip() {
    let role = Phase::random_role(256, 2, 42).unwrap();
    let value = Phase::random_role(256, 2, 7).unwrap();
    let memory = role.bind(&value).unwrap();
    let recovered = memory.unbind(&role).unwrap();
    for i in 0..256 {
        assert_eq!(recovered.phase_at(i), value.phase_at(i), "mismatch at i={i}");
    }
}

#[test]
fn qfhrr_k4_roundtrip() {
    let role = Phase::random_role(128, 4, 42).unwrap();
    let value = Phase::random_role(128, 4, 7).unwrap();
    let memory = role.bind(&value).unwrap();
    let recovered = memory.unbind(&role).unwrap();
    for i in 0..128 {
        assert_eq!(recovered.phase_at(i), value.phase_at(i));
    }
}

#[test]
fn qfhrr_k8_roundtrip() {
    let role = Phase::random_role(64, 8, 42).unwrap();
    let value = Phase::random_role(64, 8, 7).unwrap();
    let memory = role.bind(&value).unwrap();
    let recovered = memory.unbind(&role).unwrap();
    for i in 0..64 {
        assert_eq!(recovered.phase_at(i), value.phase_at(i));
    }
}

#[test]
fn role_from_key_deterministic() {
    let a = Phase::role_from_key("test_key", 256, 2).unwrap();
    let b = Phase::role_from_key("test_key", 256, 2).unwrap();
    for i in 0..256 {
        assert_eq!(a.phase_at(i), b.phase_at(i));
    }
}

#[test]
fn different_keys_different_roles() {
    let a = Phase::role_from_key("alice", 256, 2).unwrap();
    let b = Phase::role_from_key("bob", 256, 2).unwrap();
    let agree = (0..256).filter(|i| a.phase_at(*i) == b.phase_at(*i)).count();
    let frac = agree as f32 / 256.0;
    assert!((0.15..0.35).contains(&frac), "agreement {frac:.2} not near 0.25");
}

#[test]
fn cosine_self_is_one() {
    for k in [1, 2, 4, 8] {
        let r = Phase::random_role(256, k, 42).unwrap();
        let c = f(r.cosine(&Floats, &r).unwrap());
        assert!(close(c, 1.0, 1e-4));
    }
}

#[test]
fn storage_scales_with_k() {
    let h = Phase::random_role(1024, 1, 1).unwrap();
    let q2 = Phase::random_role(1024, 2, 1).unwrap();
    let q4 = Phase::random_role(1024, 4, 1).unwrap();
    let q8 = Phase::random_role(1024, 8, 1).unwrap();
    assert_eq!(h.storage_bytes(), 1024 * 4);
    assert_eq!(q2.storage_bytes(), 1024 * 2 / 8);
    assert_eq!(q4.storage_bytes(), 1024 * 4 / 8);
    assert_eq!(q8.storage_bytes(), 1024);
}

#[test]
fn k_mismatch_errors() {
    let a = Phase::random_role(64, 2, 1).unwrap();
    let b = Phase::random_role(64, 4, 1).unwrap();
    let r = a.bind(&b);
    assert!(matches!(r, Err(VsaError::KMismatch { .. })));
    assert_eq!(r.unwrap_err().message(), "k mismatch: lhs=2 rhs=4");
}

#[test]
fn invalid_k_errors() {
    let r = Phase::random_role(64, 3, 1);
    assert!(matches!(r, Err(VsaError::InvalidK(3))));
}

#[test]
fn an_invalid_width_is_refused_at_any_length() {
    for k in [0, 3, 5, 6, 7, 9, 255] {
        let r = Phase::random_role(usize::MAX, k, 1);
        assert!(matches!(r, Err(VsaError::InvalidK(x)) if x == k));
    }
    let p = Phase::random_role(8, 4, 1).unwrap();
    let q = p.clone();
    assert_eq!((q.dim(), q.k()), (8, 4));
    assert!((0..8).all(|i| p.phase_at(i) == q.phase_at(i)));
}

#[test]
fn phases_of_different_lengths_do_not_bind() {
    let a = Phase::random_role(64, 2, 1).unwrap();
    let b = Phase::random_role(32, 2, 1).unwrap();
    assert!(matches!(a.bind(&b), Err(VsaError::DimMismatch { lhs: 64, rhs: 32 })));
    assert!(matches!(a.unbind(&b), Err(VsaError::DimMismatch { lhs: 64, rhs: 32 })));
    assert!(matches!(a.cosine(&Floats, &b), Err(VsaError::DimMismatch { lhs: 64, rhs: 32 })));
    assert_eq!((a.dim(), a.k()), (64, 2));
}

#[test]
fn superposition_then_amp_lookup_k2() {
    const DIM: usize = 512;
    const VOCAB: usize = 8;
    const N: usize = 5;
    let vocab: Vec<Phase> =
        (0..VOCAB).map(|i| Phase::random_role(DIM, 2, 1000 + i as u64).unwrap()).collect();
    for i in 0..N {
        let role = Phase::random_role(DIM, 2, 2000 + i as u64).unwrap();
        let idx = i % VOCAB;
        let memory = role.bind(&vocab[idx]).unwrap();
        let decoded = memory.unbind(&role).unwrap();
        for j in 0..DIM {
            assert_eq!(
                decoded.phase_at(j),
                vocab[idx].phase_at(j),
                "decoded fact {i} differs at dim {j}"
            );
        }
    }
}

#[test]
fn packed_items_keep_their_neighbours() {
    assert_eq!(bytes_needed(5, 3), 2);
    let mut buf = zero_bytes(2);
    pack_phase(&mut buf, 1, 5, 3, 5);
    pack_phase(&mut buf, 2, 7, 3, 5);
    pack_phase(&mut buf, 2, 6, 3, 5);
    let got: Vec<u8> = (0..5).map(|i| unpack_phase(&buf, i, 3, 5)).collect();
    assert_eq!(got, vec![0, 5, 6, 0, 0]);
    assert_eq!(buf, vec![0b1010_1000, 0b1]);
}

#[test]
fn packing_masks_and_leaves_the_other_bits() {
    for k in [1u8, 2, 4, 8] {
        let mut buf = vec![0xA5u8; 9];
        let dim = 8 * 8 / k as usize;
        pack_phase(&mut buf, 3, 0xFE, k, dim);
        assert_eq!(unpack_phase(&buf, 3, k, dim) as u32, 0xFE % (1u32 << k));
        let at = 3 * k as usize / 8;
        for (b, x) in buf.iter().enumerate() {
            if b != at {
                assert_eq!(*x, 0xA5, "width {k}, byte {b}");
            }
        }
        let whole = vec![0xA5u8; 9];
        for j in (0..dim).filter(|j| *j != 3) {
            assert_eq!(unpack_phase(&buf, j, k, dim), unpack_phase(&whole, j, k, dim));
        }
    }
}

// ---------------------------------------------------------------------
// Scores
// ---------------------------------------------------------------------

#[test]
fn scores_are_ordered_as_numbers() {
    let list =
        [f32::NEG_INFINITY, -2.0, -1e-40, -0.0, 0.0, 1e-40, 0.5, 3.0, f32::INFINITY, f32::NAN];
    for a in list {
        for b in list {
            assert_eq!(is_less(a.to_bits(), b.to_bits()), a < b);
            assert_eq!(
                total_place(a.to_bits()).cmp(&total_place(b.to_bits())),
                a.total_cmp(&b)
            );
        }
        assert_eq!(nan(a.to_bits()), a.is_nan());
        assert_eq!(negate(a.to_bits()), (-a).to_bits());
        assert_eq!(negate(negate(a.to_bits())), a.to_bits());
    }
    assert_eq!(place(0.0f32.to_bits()), place((-0.0f32).to_bits()));
}
