//! The vocabulary: the values that can be stored.
//!
//! A vocabulary is made with a fixed number of random unit vectors. Each new
//! value takes the next free one. A noisy vector is read back as the value
//! whose vector is nearest to it.

use crate::entropy::{self, words_from_seed};
use crate::hlb::{self, normalize, HlbError};
use crate::kernel::{self, inner_product, norm, Kernel};
use crate::score::{self, is_less, EPSILON, NEG_INFINITY, ZERO};
use vstd::hash_map::StringHashMap;
use vstd::prelude::*;

verus! {

broadcast use vstd::string::group_string_axioms;

/// An append-only list of distinct values, each with a vector of its own.
pub struct Vocab {
    /// One vector per value that can be registered.
    tensor: Vec<Vec<u32>>,
    keys: Vec<String>,
    index: StringHashMap<usize>,
    cap: usize,
    dim: usize,
    seed: u64,
}

// ---------------------------------------------------------------------
// Random unit vectors
// ---------------------------------------------------------------------

/// `raw` holds the kernel's numbers for the random words `words`.
pub open spec fn raw_gives<K: Kernel>(k: K, words: Seq<u32>, raw: Seq<u32>) -> bool {
    &&& raw.len() == words.len()
    &&& forall|i: int|
        0 <= i < words.len() ==> kernel::uniform_gives(k, words[i], #[trigger] raw[i])
}

/// What scaling the numbers for `words` to length one comes to: `row`, or an
/// error.
pub open spec fn unit_gives<K: Kernel>(
    k: K,
    words: Seq<u32>,
    row: Seq<u32>,
    r: Result<(), HlbError>,
) -> bool {
    exists|raw: Seq<u32>, n: u32| #[trigger]
        hlb::scaled(k, raw, n, row, r) && raw_gives(k, words, raw) && kernel::norm_gives(k, raw, n)
}

/// The words that the vector with number `i` is made from.
pub open spec fn row_words(words: Seq<u32>, dim: nat, i: int) -> Seq<u32> {
    words.subrange(i * dim, i * dim + dim)
}

/// Every vector is made from words of its own: entry `j` of the vector with number
/// `i` from the word at `i` times the length plus `j`.
pub proof fn each_row_has_words_of_its_own(words: Seq<u32>, dim: nat, i: int, j: int)
    requires
        0 <= i,
        0 <= j < dim,
        i * dim + dim <= words.len(),
    ensures
        row_words(words, dim, i).len() == dim,
        row_words(words, dim, i)[j] == words[i * dim + j],
{
    assert(0 <= i * dim) by (nonlinear_arith)
        requires
            0 <= i,
    ;
}

/// The unit vector for `dim` random words that start at `from`.
fn unit_vector<K: Kernel>(kernel: &K, words: &Vec<u32>, from: usize, dim: usize) -> (r: Result<
    Vec<u32>,
    HlbError,
>)
    requires
        from + dim <= words@.len(),
    ensures
        match r {
            Ok(row) => row@.len() == dim && unit_gives(
                *kernel,
                words@.subrange(from as int, from + dim),
                row@,
                Ok(()),
            ),
            Err(e) => e == HlbError::ZeroNorm && exists|raw: Seq<u32>| #[trigger]
                unit_gives(
                    *kernel,
                    words@.subrange(from as int, from + dim),
                    raw,
                    Err(HlbError::ZeroNorm),
                ),
        },
{
    let ghost mine = words@.subrange(from as int, from + dim);
    let total = words.len();
    let mut row: Vec<u32> = Vec::with_capacity(dim);
    let mut j: usize = 0;
    while j < dim
        invariant
            from + dim <= total == words@.len(),
            mine == words@.subrange(from as int, from + dim),
            j <= dim,
            row@.len() == j,
            forall|i: int| 0 <= i < j ==> kernel::uniform_gives(*kernel, mine[i], #[trigger] row@[i]),
        decreases dim - j,
    {
        let x = kernel.uniform(words[from + j]);
        assert(words@[from + j] == mine[j as int]);
        row.push(x);
        j += 1;
    }
    let ghost raw = row@;
    assert(raw_gives(*kernel, mine, raw));
    let outcome = normalize(kernel, &mut row);
    proof {
        let n = choose|n: u32| #[trigger]
            kernel::norm_gives(*kernel, raw, n) && hlb::scaled(*kernel, raw, n, row@, outcome);
        assert(hlb::scaled(*kernel, raw, n, row@, outcome));
        assert(unit_gives(*kernel, mine, row@, outcome));
    }
    match outcome {
        Ok(done) => {
            assert(done == ());
            Ok(row)
        },
        Err(e) => Err(e),
    }
}

// ---------------------------------------------------------------------
// Nearest vector
// ---------------------------------------------------------------------

/// `s` is the cosine of `row` and `query`, whose norms are `rn` and `qn`.
pub open spec fn similarity_gives<K: Kernel>(
    k: K,
    row: Seq<u32>,
    query: Seq<u32>,
    rn: u32,
    qn: u32,
    s: u32,
) -> bool {
    exists|d: u32, p: u32|
        kernel::dot_gives(k, row, query, d) && kernel::times_gives(k, qn, rn, p) && #[trigger]
        kernel::divide_gives(k, d, p, s)
}

/// `s` is the score of `row` for a query with norm `qn`: none when the norm
/// of the row is below the machine epsilon.
pub open spec fn score_gives<K: Kernel>(
    k: K,
    row: Seq<u32>,
    query: Seq<u32>,
    qn: u32,
    s: Option<u32>,
) -> bool {
    exists|rn: u32| #[trigger]
        kernel::norm_gives(k, row, rn) && if score::less(rn, EPSILON) {
            s is None
        } else {
            s is Some && similarity_gives(k, row, query, rn, qn, s->0)
        }
}

/// `scores` holds a score for each row.
pub open spec fn scores_give<K: Kernel>(
    k: K,
    rows: Seq<Seq<u32>>,
    query: Seq<u32>,
    qn: u32,
    scores: Seq<Option<u32>>,
) -> bool {
    &&& scores.len() == rows.len()
    &&& forall|i: int| 0 <= i < rows.len() ==> score_gives(k, rows[i], query, qn, #[trigger] scores[i])
}

/// The first position with the greatest score, and that score. With nothing
/// to choose from it is position zero and negative infinity.
pub open spec fn best(scores: Seq<Option<u32>>) -> (int, u32)
    decreases scores.len(),
{
    if scores.len() == 0 {
        (0, NEG_INFINITY)
    } else {
        let before = best(scores.drop_last());
        match scores.last() {
            Some(s) => if score::less(before.1, s) {
                (scores.len() - 1, s)
            } else {
                before
            },
            None => before,
        }
    }
}

/// `r` is the position and score of the row nearest to `query`. A query whose
/// norm is below the machine epsilon gets position zero and score zero.
pub open spec fn nearest_gives<K: Kernel>(
    k: K,
    rows: Seq<Seq<u32>>,
    query: Seq<u32>,
    r: (int, u32),
) -> bool {
    exists|qn: u32| #[trigger]
        kernel::norm_gives(k, query, qn) && if score::less(qn, EPSILON) {
            r == (0int, ZERO)
        } else {
            exists|scores: Seq<Option<u32>>| #[trigger]
                scores_give(k, rows, query, qn, scores) && r == best(scores)
        }
}

/// With a steady kernel there is one nearest row.
pub proof fn steady_nearest<K: Kernel>(
    k: K,
    rows: Seq<Seq<u32>>,
    query: Seq<u32>,
    a: (int, u32),
    b: (int, u32),
)
    requires
        kernel::steady(k),
        nearest_gives(k, rows, query, a),
        nearest_gives(k, rows, query, b),
    ensures
        a == b,
{
    let qa = choose|qn: u32| #[trigger]
        kernel::norm_gives(k, query, qn) && if score::less(qn, EPSILON) {
            a == (0int, ZERO)
        } else {
            exists|scores: Seq<Option<u32>>| #[trigger]
                scores_give(k, rows, query, qn, scores) && a == best(scores)
        };
    let qb = choose|qn: u32| #[trigger]
        kernel::norm_gives(k, query, qn) && if score::less(qn, EPSILON) {
            b == (0int, ZERO)
        } else {
            exists|scores: Seq<Option<u32>>| #[trigger]
                scores_give(k, rows, query, qn, scores) && b == best(scores)
        };
    kernel::steady_norm(k, query, qa, qb);
    if !score::less(qa, EPSILON) {
        let sa = choose|scores: Seq<Option<u32>>| #[trigger]
            scores_give(k, rows, query, qa, scores) && a == best(scores);
        let sb = choose|scores: Seq<Option<u32>>| #[trigger]
            scores_give(k, rows, query, qa, scores) && b == best(scores);
        assert forall|i: int| 0 <= i < rows.len() implies sa[i] == sb[i] by {
            steady_score(k, rows[i], query, qa, sa[i], sb[i]);
        }
        assert(sa =~= sb);
    }
}

/// With a steady kernel a row has one score.
proof fn steady_score<K: Kernel>(
    k: K,
    row: Seq<u32>,
    query: Seq<u32>,
    qn: u32,
    a: Option<u32>,
    b: Option<u32>,
)
    requires
        kernel::steady(k),
        score_gives(k, row, query, qn, a),
        score_gives(k, row, query, qn, b),
    ensures
        a == b,
{
    let ra = choose|rn: u32| #[trigger]
        kernel::norm_gives(k, row, rn) && if score::less(rn, EPSILON) {
            a is None
        } else {
            a is Some && similarity_gives(k, row, query, rn, qn, a->0)
        };
    let rb = choose|rn: u32| #[trigger]
        kernel::norm_gives(k, row, rn) && if score::less(rn, EPSILON) {
            b is None
        } else {
            b is Some && similarity_gives(k, row, query, rn, qn, b->0)
        };
    kernel::steady_norm(k, row, ra, rb);
    if a is Some && b is Some {
        let (d, p) = choose|d: u32, p: u32|
            kernel::dot_gives(k, row, query, d) && kernel::times_gives(k, qn, ra, p) && #[trigger]
            kernel::divide_gives(k, d, p, a->0);
        let (e, q) = choose|d: u32, p: u32|
            kernel::dot_gives(k, row, query, d) && kernel::times_gives(k, qn, ra, p) && #[trigger]
            kernel::divide_gives(k, d, p, b->0);
        assert(d == e && p == q);
    }
}

/// The chosen position lies within the scores.
pub proof fn best_in_range(scores: Seq<Option<u32>>)
    ensures
        0 <= best(scores).0,
        scores.len() > 0 ==> best(scores).0 < scores.len(),
    decreases scores.len(),
{
    if scores.len() > 0 {
        best_in_range(scores.drop_last());
    }
}

/// The chosen score is one that no other exceeds; and when it is above
/// negative infinity, it is the score at the chosen position and no earlier
/// position has one as great.
pub proof fn best_is_argmax(scores: Seq<Option<u32>>)
    ensures
        !score::is_nan(best(scores).1),
        forall|i: int|
            0 <= i < scores.len() && scores[i] is Some ==> !score::less(
                best(scores).1,
                (#[trigger] scores[i])->0,
            ),
        score::less(NEG_INFINITY, best(scores).1) ==> {
            &&& 0 <= best(scores).0 < scores.len()
            &&& scores[best(scores).0] == Some(best(scores).1)
            &&& forall|i: int|
                0 <= i < best(scores).0 && scores[i] is Some ==> score::is_nan(
                    (#[trigger] scores[i])->0,
                ) || score::less(scores[i]->0, best(scores).1)
        },
        !score::less(NEG_INFINITY, best(scores).1) ==> best(scores) == (0int, NEG_INFINITY),
    decreases scores.len(),
{
    if scores.len() > 0 {
        let init = scores.drop_last();
        best_is_argmax(init);
        best_in_range(init);
        assert forall|i: int| 0 <= i < scores.len() && scores[i] is Some implies !score::less(
            best(scores).1,
            (#[trigger] scores[i])->0,
        ) by {
            if i < scores.len() - 1 {
                assert(init[i] == scores[i]);
            }
        }
        if score::less(NEG_INFINITY, best(scores).1) {
            assert forall|i: int| 0 <= i < best(scores).0 && scores[i] is Some implies score::is_nan(
                (#[trigger] scores[i])->0,
            ) || score::less(scores[i]->0, best(scores).1) by {
                assert(init[i] == scores[i]);
            }
            if best(scores) == best(init) {
                assert(init[best(init).0] == scores[best(init).0]);
            }
        }
    }
}

/// No row is more similar to a query than the nearest one: with a steady kernel,
/// the inner product of row number `i` with the query, divided by the product of
/// their norms, is not above the score that is given, unless one of the norms is
/// too small to divide by.
pub proof fn no_row_is_nearer<K: Kernel>(
    k: K,
    rows: Seq<Seq<u32>>,
    query: Seq<u32>,
    r: (int, u32),
    i: int,
    qn: u32,
    rn: u32,
    d: u32,
    p: u32,
    s: u32,
)
    requires
        kernel::steady(k),
        nearest_gives(k, rows, query, r),
        0 <= i < rows.len(),
        kernel::norm_gives(k, query, qn),
        !score::less(qn, EPSILON),
        kernel::norm_gives(k, rows[i], rn),
        !score::less(rn, EPSILON),
        kernel::dot_gives(k, rows[i], query, d),
        kernel::times_gives(k, qn, rn, p),
        kernel::divide_gives(k, d, p, s),
    ensures
        !score::less(r.1, s),
        r.0 == i && score::less(NEG_INFINITY, r.1) ==> r.1 == s,
        r.0 > i ==> score::is_nan(s) || score::less(s, r.1),
{
    let norm = choose|n: u32| #[trigger]
        kernel::norm_gives(k, query, n) && if score::less(n, EPSILON) {
            r == (0int, ZERO)
        } else {
            exists|scores: Seq<Option<u32>>| #[trigger]
                scores_give(k, rows, query, n, scores) && r == best(scores)
        };
    kernel::steady_norm(k, query, norm, qn);
    let scores = choose|scores: Seq<Option<u32>>| #[trigger]
        scores_give(k, rows, query, qn, scores) && r == best(scores);
    assert(score_gives(k, rows[i], query, qn, scores[i]));
    assert(similarity_gives(k, rows[i], query, rn, qn, s));
    assert(score_gives(k, rows[i], query, qn, Some(s)));
    steady_score(k, rows[i], query, qn, scores[i], Some(s));
    best_is_argmax(scores);
}

/// A row whose norm is too small to divide by is never the nearest, unless nothing
/// is; and for a query whose norm is too small the first row is given, with a
/// score of zero. With a steady kernel.
pub proof fn vanishing_vectors_are_not_compared<K: Kernel>(
    k: K,
    rows: Seq<Seq<u32>>,
    query: Seq<u32>,
    r: (int, u32),
    qn: u32,
    rn: u32,
)
    requires
        kernel::steady(k),
        nearest_gives(k, rows, query, r),
        kernel::norm_gives(k, query, qn),
    ensures
        score::less(qn, 0x3400_0000) ==> r.0 == 0 && r.1 == 0,
        !score::less(qn, 0x3400_0000) && 0 <= r.0 < rows.len() && kernel::norm_gives(
            k,
            rows[r.0],
            rn,
        ) && score::less(rn, 0x3400_0000) ==> r == (0int, NEG_INFINITY),
{
    let norm = choose|n: u32| #[trigger]
        kernel::norm_gives(k, query, n) && if score::less(n, EPSILON) {
            r == (0int, ZERO)
        } else {
            exists|scores: Seq<Option<u32>>| #[trigger]
                scores_give(k, rows, query, n, scores) && r == best(scores)
        };
    kernel::steady_norm(k, query, norm, qn);
    if !score::less(qn, EPSILON) && 0 <= r.0 < rows.len() && kernel::norm_gives(k, rows[r.0], rn)
        && score::less(rn, EPSILON) {
        let scores = choose|scores: Seq<Option<u32>>| #[trigger]
            scores_give(k, rows, query, qn, scores) && r == best(scores);
        assert(score_gives(k, rows[r.0], query, qn, scores[r.0]));
        assert(score_gives(k, rows[r.0], query, qn, None));
        steady_score(k, rows[r.0], query, qn, scores[r.0], None);
        best_is_argmax(scores);
    }
}

/// The first position with the greatest score, and that score.
pub fn best_of(scores: &Vec<Option<u32>>) -> (r: (usize, u32))
    ensures
        (r.0 as int, r.1) == best(scores@),
{
    let mut best_idx: usize = 0;
    let mut best_score: u32 = NEG_INFINITY;
    let mut i: usize = 0;
    while i < scores.len()
        invariant
            i <= scores@.len(),
            (best_idx as int, best_score) == best(scores@.take(i as int)),
        decreases scores@.len() - i,
    {
        assert(scores@.take(i + 1).drop_last() =~= scores@.take(i as int));
        if let Some(s) = scores[i] {
            if is_less(best_score, s) {
                best_score = s;
                best_idx = i;
            }
        }
        i += 1;
    }
    assert(scores@.take(i as int) =~= scores@);
    (best_idx, best_score)
}

/// The score of one row.
fn score_of<K: Kernel>(kernel: &K, row: &Vec<u32>, query: &Vec<u32>, qn: u32) -> (s: Option<u32>)
    ensures
        score_gives(*kernel, row@, query@, qn, s),
{
    let rn = norm(kernel, row);
    if is_less(rn, EPSILON) {
        return None;
    }
    let d = inner_product(kernel, row, query);
    let p = kernel.times(qn, rn);
    assert(kernel::times_gives(*kernel, qn, rn, p));
    let s = kernel.divide(d, p);
    assert(kernel::divide_gives(*kernel, d, p, s));
    Some(s)
}

// ---------------------------------------------------------------------
// Vocabulary
// ---------------------------------------------------------------------

impl Vocab {
    /// The registered values in the order of their registration.
    pub closed spec fn names(&self) -> Seq<Seq<char>> {
        self.keys@.map_values(|s: String| s@)
    }

    /// How many values can be registered.
    pub closed spec fn room(&self) -> nat {
        self.cap as nat
    }

    /// The length of each vector.
    pub closed spec fn width(&self) -> nat {
        self.dim as nat
    }

    /// The seed that the vectors were drawn from.
    pub closed spec fn origin(&self) -> u64 {
        self.seed
    }

    /// The vectors, one for each value that can be registered.
    pub closed spec fn rows(&self) -> Seq<Seq<u32>> {
        self.tensor@.map_values(|r: Vec<u32>| r@)
    }

    /// The vectors of the registered values.
    pub open spec fn live(&self) -> Seq<Seq<u32>> {
        self.rows().take(self.names().len() as int)
    }

    /// There is one vector of the right length for each value that can be
    /// registered, no more values than that, and the index finds each value
    /// at its place and nothing else.
    pub closed spec fn wf(&self) -> bool {
        &&& self.tensor@.len() == self.cap
        &&& forall|i: int| 0 <= i < self.tensor@.len() ==> (#[trigger] self.tensor@[i])@.len() == self.dim
        &&& self.keys@.len() <= self.cap
        &&& forall|i: int|
            0 <= i < self.keys@.len() ==> self.index@.contains_key((#[trigger] self.keys@[i])@)
                && self.index@[self.keys@[i]@] == i
        &&& forall|key: Seq<char>| #[trigger]
            self.index@.contains_key(key) ==> self.index@[key] < self.keys@.len()
                && self.keys@[self.index@[key] as int]@ == key
    }

    /// What holds of every well-formed vocabulary: it holds no value twice
    /// and no more than it has room for, and its vectors have one length.
    pub proof fn wf_facts(&self)
        requires
            self.wf(),
        ensures
            self.names().no_duplicates(),
            self.names().len() <= self.room(),
            self.rows().len() == self.room(),
            forall|i: int| 0 <= i < self.rows().len() ==> (#[trigger] self.rows()[i]).len() == self.width(),
            self.live().len() == self.names().len(),
            self.room() <= usize::MAX,
            self.width() <= usize::MAX,
    {
        assert forall|i: int, j: int|
            0 <= i < self.names().len() && 0 <= j < self.names().len() && i
                != j implies self.names()[i] != self.names()[j] by {
            assert(self.index@[self.keys@[i]@] == i);
            assert(self.index@[self.keys@[j]@] == j);
        }
        assert forall|i: int| 0 <= i < self.rows().len() implies (#[trigger] self.rows()[i]).len()
            == self.width() by {
            assert(self.tensor@[i]@.len() == self.dim);
        }
    }

    /// A vocabulary for `cap` values with vectors of length `dim`, drawn from
    /// `seed`. It is refused when one of the random vectors is too short to
    /// be scaled to length one.
    pub fn new<K: Kernel>(kernel: &K, cap: usize, dim: usize, seed: u64) -> (r: Result<
        Self,
        HlbError,
    >)
        requires
            cap * dim <= usize::MAX,
        ensures
            match r {
                Ok(v) => {
                    &&& v.wf()
                    &&& v.names() == Seq::<Seq<char>>::empty()
                    &&& v.room() == cap
                    &&& v.width() == dim
                    &&& v.origin() == seed
                    &&& forall|i: int|
                        0 <= i < cap ==> unit_gives(
                            *kernel,
                            row_words(
                                entropy::seeded_words(seed, (cap * dim) as nat),
                                dim as nat,
                                i,
                            ),
                            #[trigger] v.rows()[i],
                            Ok(()),
                        )
                },
                Err(e) => e == HlbError::ZeroNorm && exists|i: int, raw: Seq<u32>|
                    0 <= i < cap && #[trigger] unit_gives(
                        *kernel,
                        row_words(entropy::seeded_words(seed, (cap * dim) as nat), dim as nat, i),
                        raw,
                        Err(HlbError::ZeroNorm),
                    ),
            },
    {
        let total: usize = cap * dim;
        let words = words_from_seed(seed, total);
        let mut tensor: Vec<Vec<u32>> = Vec::with_capacity(cap);
        let mut from: usize = 0;
        let mut i: usize = 0;
        while i < cap
            invariant
                words@ == entropy::seeded_words(seed, (cap * dim) as nat),
                words@.len() == cap * dim == total,
                i <= cap,
                from == i * dim,
                from <= words@.len(),
                tensor@.len() == i,
                forall|j: int| 0 <= j < i ==> (#[trigger] tensor@[j])@.len() == dim,
                forall|j: int|
                    0 <= j < i ==> unit_gives(
                        *kernel,
                        row_words(words@, dim as nat, j),
                        (#[trigger] tensor@[j])@,
                        Ok(()),
                    ),
            decreases cap - i,
        {
            assert(from + dim == (i + 1) * dim && (i + 1) * dim <= cap * dim) by (nonlinear_arith)
                requires
                    from == i * dim,
                    i < cap,
            ;
            match unit_vector(kernel, &words, from, dim) {
                Ok(row) => {
                    assert(words@.subrange(from as int, from + dim) == row_words(
                        words@,
                        dim as nat,
                        i as int,
                    ));
                    tensor.push(row);
                },
                Err(e) => {
                    assert(words@.subrange(from as int, from + dim) == row_words(
                        words@,
                        dim as nat,
                        i as int,
                    ));
                    return Err(e);
                },
            }
            from = from + dim;
            i += 1;
        }
        let v = Vocab {
            tensor,
            keys: Vec::new(),
            index: StringHashMap::new(),
            cap,
            dim,
            seed,
        };
        assert(v.names() =~= Seq::<Seq<char>>::empty());
        Ok(v)
    }

    /// The length of each vector.
    pub fn dim(&self) -> (r: usize)
        ensures
            r == self.width(),
    {
        self.dim
    }

    /// How many values can be registered.
    pub fn cap(&self) -> (r: usize)
        ensures
            r == self.room(),
    {
        self.cap
    }

    /// The seed that the vectors were drawn from.
    pub fn seed(&self) -> (r: u64)
        ensures
            r == self.origin(),
    {
        self.seed
    }

    /// How many values are registered.
    pub fn len(&self) -> (r: usize)
        ensures
            r == self.names().len(),
    {
        self.keys.len()
    }

    /// Whether no value is registered.
    pub fn is_empty(&self) -> (r: bool)
        ensures
            r == (self.names().len() == 0),
    {
        self.keys.len() == 0
    }

    /// The index of a registered value.
    pub fn get(&self, value: &str) -> (r: Option<usize>)
        requires
            self.wf(),
        ensures
            match r {
                Some(i) => i < self.names().len() && self.names()[i as int] == value@,
                None => !self.names().contains(value@),
            },
    {
        match self.index.get(value) {
            Some(i) => Some(*i),
            None => {
                assert(!self.names().contains(value@)) by {
                    if self.names().contains(value@) {
                        let i = self.names().index_of(value@);
                        assert(self.keys@[i]@ == value@);
                    }
                }
                None
            },
        }
    }

    /// The vector with the given index.
    pub fn row(&self, idx: usize) -> (r: &Vec<u32>)
        requires
            self.wf(),
            idx < self.room(),
        ensures
            r@ == self.rows()[idx as int],
            r@.len() == self.width(),
    {
        &self.tensor[idx]
    }

    /// The value with the given index.
    pub fn key_at(&self, idx: usize) -> (r: Option<&str>)
        ensures
            match r {
                Some(s) => idx < self.names().len() && s@ == self.names()[idx as int],
                None => idx >= self.names().len(),
            },
    {
        if idx < self.keys.len() {
            Some(self.keys[idx].as_str())
        } else {
            None
        }
    }

    /// Registers a value and gives its index. A value that is registered
    /// already keeps its index; a new one is refused when there is no room.
    pub fn register(&mut self, value: &str) -> (r: Result<usize, HlbError>)
        requires
            old(self).wf(),
        ensures
            final(self).wf(),
            final(self).rows() == old(self).rows(),
            final(self).room() == old(self).room(),
            final(self).width() == old(self).width(),
            final(self).origin() == old(self).origin(),
            registered(old(self).names(), old(self).room(), value@, final(self).names(), r),
    {
        if let Some(i) = self.get(value) {
            return Ok(i);
        }
        if self.keys.len() >= self.cap {
            return Err(HlbError::VocabFull { cap: self.cap, attempted: value.to_string() });
        }
        let idx = self.keys.len();
        let ghost before = self.names();
        self.index.insert(value.to_string(), idx);
        self.keys.push(value.to_string());
        proof {
            assert(self.names() =~= before.push(value@));
            assert forall|i: int| 0 <= i < self.keys@.len() implies self.index@.contains_key(
                (#[trigger] self.keys@[i])@,
            ) && self.index@[self.keys@[i]@] == i by {
                if i < idx {
                    assert(self.keys@[i] == old(self).keys@[i]);
                    assert(before[i] == self.keys@[i]@);
                    assert(before.contains(before[i]));
                }
            }
        }
        Ok(idx)
    }

    /// The registered value whose vector is nearest to `query`, as its index,
    /// and the cosine. Nothing where no value is registered.
    pub fn nearest<K: Kernel>(&self, kernel: &K, query: &Vec<u32>) -> (r: Option<(usize, u32)>)
        requires
            self.wf(),
            self.names().len() > 0 ==> query@.len() == self.width(),
        ensures
            match r {
                Some(hit) => hit.0 < self.names().len() && nearest_gives(
                    *kernel,
                    self.live(),
                    query@,
                    (hit.0 as int, hit.1),
                ),
                None => self.names().len() == 0,
            },
    {
        if self.is_empty() {
            return None;
        }
        let qn = norm(kernel, query);
        if is_less(qn, EPSILON) {
            return Some((0, ZERO));
        }
        proof {
            self.wf_facts();
        }
        let n = self.keys.len();
        let mut scores: Vec<Option<u32>> = Vec::with_capacity(n);
        let mut i: usize = 0;
        while i < n
            invariant
                i <= n == self.names().len(),
                n <= self.tensor@.len(),
                scores@.len() == i,
                forall|j: int|
                    0 <= j < i ==> score_gives(
                        *kernel,
                        self.live()[j],
                        query@,
                        qn,
                        #[trigger] scores@[j],
                    ),
            decreases n - i,
        {
            assert(self.live()[i as int] == self.tensor@[i as int]@);
            let s = score_of(kernel, &self.tensor[i], query, qn);
            scores.push(s);
            i += 1;
        }
        assert(scores_give(*kernel, self.live(), query@, qn, scores@));
        let hit = best_of(&scores);
        proof {
            best_in_range(scores@);
        }
        Some(hit)
    }
}

/// What registering `value` comes to: the index that it has already, an error
/// when there is no room, or the next index.
pub open spec fn registered(
    before: Seq<Seq<char>>,
    room: nat,
    value: Seq<char>,
    after: Seq<Seq<char>>,
    r: Result<usize, HlbError>,
) -> bool {
    if before.contains(value) {
        &&& after == before
        &&& r matches Ok(i) && i < before.len() && before[i as int] == value
    } else if before.len() >= room {
        &&& after == before
        &&& r matches Err(HlbError::VocabFull { cap, attempted }) && cap == room && attempted@
            == value
    } else {
        &&& after == before.push(value)
        &&& r == Ok::<usize, HlbError>(before.len() as usize)
    }
}

/// Registering a value a second time changes nothing and gives the same
/// index.
pub proof fn register_is_idempotent(
    first: Seq<Seq<char>>,
    room: nat,
    value: Seq<char>,
    second: Seq<Seq<char>>,
    third: Seq<Seq<char>>,
    r1: Result<usize, HlbError>,
    r2: Result<usize, HlbError>,
)
    requires
        first.no_duplicates(),
        first.len() <= usize::MAX,
        registered(first, room, value, second, r1),
        registered(second, room, value, third, r2),
        r1 is Ok,
    ensures
        third == second,
        r2 == r1,
{
    if first.contains(value) {
    } else {
        assert(second.last() == value);
        assert(second.contains(value));
        let i = r2->Ok_0 as int;
        if i < first.len() {
            assert(first[i] == value);
        }
    }
}

} // verus!
