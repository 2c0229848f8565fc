//! Encoders: from texts to vectors.

use crate::bytes::utf8;
use crate::hlb;
use crate::index;
use crate::kernel::{self, zeros, Kernel};
use crate::score::{self, is_less, EPSILON, ZERO};
use crate::text;
use std::sync::Arc;
use vstd::prelude::*;

verus! {

broadcast use vstd::string::group_string_axioms;

/// Turns texts into vectors of one length.
pub trait Encoder {
    /// Encodes texts that are stored.
    fn encode(&self, texts: &Vec<String>) -> Vec<Vec<u32>>;

    /// Encodes texts that are searched for: the same way, unless an encoder
    /// treats the two differently.
    fn encode_query(&self, texts: &Vec<String>) -> (r: Vec<Vec<u32>>)
        default_ensures
            call_ensures(Self::encode, (self, texts), r),
    {
        self.encode(texts)
    }

    /// The length of the vectors.
    fn dim(&self) -> usize;
}

/// The vectors in a list.
pub open spec fn vectors(v: Seq<Vec<u32>>) -> Seq<Seq<u32>> {
    v.map_values(|x: Vec<u32>| x@)
}

/// `r` holds the vectors that the encoder gives for stored texts.
pub open spec fn encode_gives<E: Encoder>(e: E, texts: Seq<Seq<char>>, r: Seq<Seq<u32>>) -> bool {
    exists|t: Vec<String>, v: Vec<Vec<u32>>|
        text::texts(t@) == texts && vectors(v@) == r && #[trigger] call_ensures(
            E::encode,
            (&e, &t),
            v,
        )
}

/// `r` holds the vectors that the encoder gives for texts searched for.
pub open spec fn encode_query_gives<E: Encoder>(
    e: E,
    texts: Seq<Seq<char>>,
    r: Seq<Seq<u32>>,
) -> bool {
    exists|t: Vec<String>, v: Vec<Vec<u32>>|
        text::texts(t@) == texts && vectors(v@) == r && #[trigger] call_ensures(
            E::encode_query,
            (&e, &t),
            v,
        )
}

// ---------------------------------------------------------------------
// Prefixes for asymmetric models
// ---------------------------------------------------------------------

/// What a model with prefixes is given for a stored text.
pub const PASSAGE_PREFIX: &'static str = "passage: ";

/// What a model with prefixes is given for a text searched for.
pub const QUERY_PREFIX: &'static str = "query: ";

/// Each text with a prefix before it.
pub open spec fn prefixed(prefix: Seq<char>, texts: Seq<Seq<char>>) -> Seq<Seq<char>> {
    texts.map_values(|t: Seq<char>| prefix + t)
}

/// Puts a prefix before each text.
pub fn with_prefix(prefix: &str, texts: &Vec<String>) -> (r: Vec<String>)
    ensures
        text::texts(r@) == prefixed(prefix@, text::texts(texts@)),
        r@.len() == texts@.len(),
        forall|i: int| 0 <= i < r@.len() ==> (#[trigger] r@[i])@ == prefix@ + texts@[i]@,
{
    let mut out: Vec<String> = Vec::with_capacity(texts.len());
    let mut i: usize = 0;
    while i < texts.len()
        invariant
            i <= texts@.len(),
            out@.len() == i,
            forall|j: int| 0 <= j < i ==> (#[trigger] out@[j])@ == prefix@ + texts@[j]@,
        decreases texts@.len() - i,
    {
        let mut t = String::new();
        t.append(prefix);
        t.append(&texts[i]);
        assert(t@ =~= prefix@ + texts@[i as int]@);
        out.push(t);
        i += 1;
    }
    assert(text::texts(out@) =~= prefixed(prefix@, text::texts(texts@)));
    out
}

// ---------------------------------------------------------------------
// A reproducible encoder without a model
// ---------------------------------------------------------------------

/// An encoder that adds the bytes of a text into the entries of a vector in
/// turn and scales the result to length one.
pub struct MockEncoder<K> {
    kernel: Arc<K>,
    dim: usize,
}

/// `v` is what adding the bytes `b` into a zero vector of length `dim` gives.
pub open spec fn spread_gives<K: Kernel>(k: K, dim: nat, b: Seq<u8>, v: Seq<u32>) -> bool
    decreases b.len(),
{
    if b.len() == 0 || dim == 0 {
        v == Seq::new(dim, |i: int| ZERO)
    } else {
        let at = (b.len() - 1) % dim as int;
        exists|before: Seq<u32>, c: u32, sum: u32|
            #![trigger kernel::plus_gives(k, before[at], c, sum)]
            {
                &&& spread_gives(k, dim, b.drop_last(), before)
                &&& kernel::centered_gives(k, b.last(), c)
                &&& kernel::plus_gives(k, before[at], c, sum)
                &&& v == before.update(at, sum)
            }
    }
}

/// Adding bytes keeps the length.
proof fn spread_keeps_the_length<K: Kernel>(k: K, dim: nat, b: Seq<u8>, v: Seq<u32>)
    requires
        spread_gives(k, dim, b, v),
    ensures
        v.len() == dim,
    decreases b.len(),
{
    if b.len() > 0 && dim > 0 {
        let at = (b.len() - 1) % dim as int;
        let (before, c, sum) = choose|before: Seq<u32>, c: u32, sum: u32|
            #![trigger kernel::plus_gives(k, before[at], c, sum)]
            {
                &&& spread_gives(k, dim, b.drop_last(), before)
                &&& kernel::centered_gives(k, b.last(), c)
                &&& kernel::plus_gives(k, before[at], c, sum)
                &&& v == before.update(at, sum)
            };
        spread_keeps_the_length(k, dim, b.drop_last(), before);
        assert(0 <= at < dim);
    }
}

/// One more byte changes one entry, the one at its place counted round the vector:
/// its centered number is added there.
pub proof fn a_byte_is_added_at_its_place<K: Kernel>(
    k: K,
    dim: nat,
    b: Seq<u8>,
    x: u8,
    v: Seq<u32>,
) -> (before: Seq<u32>)
    requires
        dim > 0,
        spread_gives(k, dim, b.push(x), v),
    ensures
        spread_gives(k, dim, b, before),
        v.len() == before.len() == dim,
        forall|j: int| 0 <= j < v.len() && j != b.len() % dim ==> v[j] == before[j],
        exists|c: u32| #[trigger]
            kernel::centered_gives(k, x, c) && kernel::plus_gives(
                k,
                before[(b.len() % dim) as int],
                c,
                v[(b.len() % dim) as int],
            ),
{
    let all = b.push(x);
    let at = (all.len() - 1) % dim as int;
    assert(all.drop_last() =~= b);
    let (before, c, sum) = choose|before: Seq<u32>, c: u32, sum: u32|
        #![trigger kernel::plus_gives(k, before[at], c, sum)]
        {
            &&& spread_gives(k, dim, all.drop_last(), before)
            &&& kernel::centered_gives(k, all.last(), c)
            &&& kernel::plus_gives(k, before[at], c, sum)
            &&& v == before.update(at, sum)
        };
    spread_keeps_the_length(k, dim, b, before);
    assert(0 <= at < dim);
    before
}

/// `v` is `raw` scaled to length one, unless its norm `n` does not exceed the
/// machine epsilon.
pub open spec fn leveled<K: Kernel>(k: K, raw: Seq<u32>, n: u32, v: Seq<u32>) -> bool {
    if score::less(EPSILON, n) {
        hlb::quotient_gives(k, raw, n, v)
    } else {
        v == raw
    }
}

/// `v` is the vector for a text.
pub open spec fn mock_gives<K: Kernel>(k: K, dim: nat, text: Seq<char>, v: Seq<u32>) -> bool {
    exists|raw: Seq<u32>, n: u32| #[trigger]
        leveled(k, raw, n, v) && spread_gives(k, dim, vstd::utf8::encode_utf8(text), raw)
            && index::serial_norm_gives(k, raw, n)
}

/// The vector for a text is the sum of its bytes, each entry divided by the norm
/// where that is above two to the power of minus twenty-three, and as it is where
/// not.
pub proof fn a_text_is_encoded_by_its_bytes<K: Kernel>(
    k: K,
    dim: nat,
    text: Seq<char>,
    v: Seq<u32>,
) -> (found: (Seq<u32>, u32))
    requires
        mock_gives(k, dim, text, v),
    ensures
        spread_gives(k, dim, vstd::utf8::encode_utf8(text), found.0),
        index::serial_norm_gives(k, found.0, found.1),
        v.len() == dim,
        score::less(0x3400_0000, found.1) ==> forall|i: int|
            0 <= i < dim ==> kernel::divide_gives(k, found.0[i], found.1, #[trigger] v[i]),
        !score::less(0x3400_0000, found.1) ==> v == found.0,
{
    let (raw, n) = choose|raw: Seq<u32>, n: u32| #[trigger]
        leveled(k, raw, n, v) && spread_gives(k, dim, vstd::utf8::encode_utf8(text), raw)
            && index::serial_norm_gives(k, raw, n);
    spread_keeps_the_length(k, dim, vstd::utf8::encode_utf8(text), raw);
    (raw, n)
}

impl<K: Kernel> MockEncoder<K> {
    /// The kernel that computes for this encoder.
    pub closed spec fn arithmetic(&self) -> K {
        *self.kernel
    }

    /// The length of the vectors.
    pub closed spec fn width(&self) -> nat {
        self.dim as nat
    }

    /// An encoder for vectors of length `dim`.
    pub fn new(kernel: Arc<K>, dim: usize) -> (r: Self)
        ensures
            r.width() == dim,
            r.arithmetic() == *kernel,
    {
        MockEncoder { kernel, dim }
    }

    /// Adds the bytes of a text into a zero vector.
    fn spread(&self, b: &Vec<u8>) -> (r: Vec<u32>)
        ensures
            r@.len() == self.width(),
            spread_gives(self.arithmetic(), self.width(), b@, r@),
    {
        let mut v = zeros(self.dim);
        if self.dim == 0 {
            return v;
        }
        let mut i: usize = 0;
        assert(b@.take(0).len() == 0);
        while i < b.len()
            invariant
                self.dim > 0,
                i <= b@.len(),
                v@.len() == self.dim,
                spread_gives(self.arithmetic(), self.width(), b@.take(i as int), v@),
            decreases b@.len() - i,
        {
            let ghost before = v@;
            let at = i % self.dim;
            let c = self.kernel.centered(b[i]);
            let sum = self.kernel.plus(v[at], c);
            v.set(at, sum);
            proof {
                let now = b@.take(i + 1);
                assert(now.drop_last() =~= b@.take(i as int));
                assert(now.last() == b@[i as int]);
                assert(kernel::centered_gives(self.arithmetic(), now.last(), c));
                assert(kernel::plus_gives(self.arithmetic(), before[at as int], c, sum));
                assert(v@ == before.update(at as int, sum));
                assert(spread_gives(self.arithmetic(), self.width(), now, v@));
            }
            i += 1;
        }
        assert(b@.take(i as int) =~= b@);
        v
    }

    /// The vector for one text.
    fn encode_one(&self, s: &str) -> (r: Vec<u32>)
        ensures
            mock_gives(self.arithmetic(), self.width(), s@, r@),
    {
        let raw = self.spread(&utf8(s));
        let d = self.kernel.serial_dot(&raw, &raw);
        assert(kernel::serial_dot_gives(self.arithmetic(), raw@, raw@, d));
        let n = self.kernel.root(d);
        assert(index::serial_norm_gives(self.arithmetic(), raw@, n));
        let mut out: Vec<u32> = Vec::with_capacity(raw.len());
        if !is_less(EPSILON, n) {
            assert(leveled(self.arithmetic(), raw@, n, raw@));
            return raw;
        }
        let mut i: usize = 0;
        while i < raw.len()
            invariant
                i <= raw@.len(),
                out@.len() == i,
                forall|j: int|
                    0 <= j < i ==> kernel::divide_gives(
                        self.arithmetic(),
                        raw@[j],
                        n,
                        #[trigger] out@[j],
                    ),
            decreases raw@.len() - i,
        {
            let q = self.kernel.divide(raw[i], n);
            out.push(q);
            i += 1;
        }
        assert(leveled(self.arithmetic(), raw@, n, out@));
        out
    }
}

impl<K: Kernel> Encoder for MockEncoder<K> {
    fn encode(&self, texts: &Vec<String>) -> (r: Vec<Vec<u32>>)
        ensures
            r@.len() == texts@.len(),
            forall|i: int|
                0 <= i < texts@.len() ==> mock_gives(
                    self.arithmetic(),
                    self.width(),
                    texts@[i]@,
                    (#[trigger] r@[i])@,
                ),
    {
        let mut out: Vec<Vec<u32>> = Vec::with_capacity(texts.len());
        let mut i: usize = 0;
        while i < texts.len()
            invariant
                i <= texts@.len(),
                out@.len() == i,
                forall|j: int|
                    0 <= j < i ==> mock_gives(
                        self.arithmetic(),
                        self.width(),
                        texts@[j]@,
                        (#[trigger] out@[j])@,
                    ),
            decreases texts@.len() - i,
        {
            out.push(self.encode_one(&texts[i]));
            i += 1;
        }
        out
    }

    fn dim(&self) -> (r: usize)
        ensures
            r == self.width(),
    {
        self.dim
    }
}

} // verus!
