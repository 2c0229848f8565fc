//! The floating-point operations the engine needs, on bit patterns.
//!
//! The engine never computes on floating-point numbers itself: it holds
//! binary32 patterns and asks a [`Kernel`] for each operation. Nothing is
//! assumed of an implementation, so every contract that involves one speaks
//! of the values the kernel gave back.

use vstd::prelude::*;

verus! {

/// Binary32 arithmetic on bit patterns.
pub trait Kernel {
    /// The sum of two numbers.
    fn plus(&self, a: u32, b: u32) -> u32;

    /// The difference of two numbers.
    fn minus(&self, a: u32, b: u32) -> u32;

    /// The product of two numbers.
    fn times(&self, a: u32, b: u32) -> u32;

    /// The quotient of two numbers.
    fn divide(&self, a: u32, b: u32) -> u32;

    /// The square root of a number.
    fn root(&self, a: u32) -> u32;

    /// The inner product of two vectors of the same length.
    fn dot(&self, a: &Vec<u32>, b: &Vec<u32>) -> u32;

    /// The sum of the products of the entries that both vectors have, added
    /// one after the other.
    fn serial_dot(&self, a: &Vec<u32>, b: &Vec<u32>) -> u32;

    /// The number between minus one and one for a random word whose bits
    /// are all independent.
    fn uniform(&self, draw: u32) -> u32;

    /// A byte as a number, less the middle of the range of bytes.
    fn centered(&self, byte: u8) -> u32;

    /// The mean cosine of the angles between the phases of `a` and `b`, which
    /// have the same length. A phase counts in steps of a full turn divided
    /// by two to the power of `k`.
    fn phase_cosine(&self, a: &Vec<u8>, b: &Vec<u8>, k: u8) -> u32;
}

/// `r` is a sum of `a` and `b` that the kernel gives.
pub open spec fn plus_gives<K: Kernel>(k: K, a: u32, b: u32, r: u32) -> bool {
    call_ensures(K::plus, (&k, a, b), r)
}

/// `r` is a difference of `a` and `b` that the kernel gives.
pub open spec fn minus_gives<K: Kernel>(k: K, a: u32, b: u32, r: u32) -> bool {
    call_ensures(K::minus, (&k, a, b), r)
}

/// `r` is a product of `a` and `b` that the kernel gives.
pub open spec fn times_gives<K: Kernel>(k: K, a: u32, b: u32, r: u32) -> bool {
    call_ensures(K::times, (&k, a, b), r)
}

/// `r` is a quotient of `a` and `b` that the kernel gives.
pub open spec fn divide_gives<K: Kernel>(k: K, a: u32, b: u32, r: u32) -> bool {
    call_ensures(K::divide, (&k, a, b), r)
}

/// `r` is a square root of `a` that the kernel gives.
pub open spec fn root_gives<K: Kernel>(k: K, a: u32, r: u32) -> bool {
    call_ensures(K::root, (&k, a), r)
}

/// `r` is an inner product of `a` and `b` that the kernel gives.
pub open spec fn dot_gives<K: Kernel>(k: K, a: Seq<u32>, b: Seq<u32>, r: u32) -> bool {
    exists|x: Vec<u32>, y: Vec<u32>|
        x@ == a && y@ == b && #[trigger] call_ensures(K::dot, (&k, &x, &y), r)
}

/// `r` is a serial inner product of `a` and `b` that the kernel gives.
pub open spec fn serial_dot_gives<K: Kernel>(k: K, a: Seq<u32>, b: Seq<u32>, r: u32) -> bool {
    exists|x: Vec<u32>, y: Vec<u32>|
        x@ == a && y@ == b && #[trigger] call_ensures(K::serial_dot, (&k, &x, &y), r)
}

/// `r` is the number the kernel gives for the random word `draw`.
pub open spec fn uniform_gives<K: Kernel>(k: K, draw: u32, r: u32) -> bool {
    call_ensures(K::uniform, (&k, draw), r)
}

/// `r` is the centered number the kernel gives for a byte.
pub open spec fn centered_gives<K: Kernel>(k: K, byte: u8, r: u32) -> bool {
    call_ensures(K::centered, (&k, byte), r)
}

/// `r` is the mean phase cosine of `a` and `b` that the kernel gives.
pub open spec fn phase_cosine_gives<K: Kernel>(
    k: K,
    a: Seq<u8>,
    b: Seq<u8>,
    bits: u8,
    r: u32,
) -> bool {
    exists|x: Vec<u8>, y: Vec<u8>|
        x@ == a && y@ == b && #[trigger] call_ensures(K::phase_cosine, (&k, &x, &y, bits), r)
}

/// `r` is an element-wise sum of `a` and `b`.
pub open spec fn sum_gives<K: Kernel>(k: K, a: Seq<u32>, b: Seq<u32>, r: Seq<u32>) -> bool {
    &&& r.len() == a.len()
    &&& forall|i: int| 0 <= i < a.len() ==> plus_gives(k, a[i], b[i], #[trigger] r[i])
}

/// `r` is an element-wise difference of `a` and `b`.
pub open spec fn difference_gives<K: Kernel>(k: K, a: Seq<u32>, b: Seq<u32>, r: Seq<u32>) -> bool {
    &&& r.len() == a.len()
    &&& forall|i: int| 0 <= i < a.len() ==> minus_gives(k, a[i], b[i], #[trigger] r[i])
}

/// `n` is a Euclidean norm of `a`: a square root of an inner product of `a`
/// with itself.
pub open spec fn norm_gives<K: Kernel>(k: K, a: Seq<u32>, n: u32) -> bool {
    exists|d: u32| #[trigger] dot_gives(k, a, a, d) && root_gives(k, d, n)
}

/// The kernel gives the same result for the same numbers.
pub open spec fn steady<K: Kernel>(k: K) -> bool {
    &&& forall|a: u32, b: u32, r: u32, s: u32| #[trigger]
        plus_gives(k, a, b, r) && #[trigger] plus_gives(k, a, b, s) ==> r == s
    &&& forall|a: u32, b: u32, r: u32, s: u32| #[trigger]
        minus_gives(k, a, b, r) && #[trigger] minus_gives(k, a, b, s) ==> r == s
    &&& forall|a: u32, b: u32, r: u32, s: u32| #[trigger]
        times_gives(k, a, b, r) && #[trigger] times_gives(k, a, b, s) ==> r == s
    &&& forall|a: u32, b: u32, r: u32, s: u32| #[trigger]
        divide_gives(k, a, b, r) && #[trigger] divide_gives(k, a, b, s) ==> r == s
    &&& forall|a: u32, r: u32, s: u32| #[trigger]
        root_gives(k, a, r) && #[trigger] root_gives(k, a, s) ==> r == s
    &&& forall|a: Seq<u32>, b: Seq<u32>, r: u32, s: u32| #[trigger]
        dot_gives(k, a, b, r) && #[trigger] dot_gives(k, a, b, s) ==> r == s
}

/// A steady kernel gives one sum of two vectors.
pub proof fn steady_sum<K: Kernel>(k: K, a: Seq<u32>, b: Seq<u32>, r: Seq<u32>, s: Seq<u32>)
    requires
        steady(k),
        sum_gives(k, a, b, r),
        sum_gives(k, a, b, s),
    ensures
        r == s,
{
    assert forall|i: int| 0 <= i < a.len() implies r[i] == s[i] by {
        assert(plus_gives(k, a[i], b[i], r[i]) && plus_gives(k, a[i], b[i], s[i]));
    }
    assert(r =~= s);
}

/// A steady kernel gives one difference of two vectors.
pub proof fn steady_difference<K: Kernel>(k: K, a: Seq<u32>, b: Seq<u32>, r: Seq<u32>, s: Seq<u32>)
    requires
        steady(k),
        difference_gives(k, a, b, r),
        difference_gives(k, a, b, s),
    ensures
        r == s,
{
    assert forall|i: int| 0 <= i < a.len() implies r[i] == s[i] by {
        assert(minus_gives(k, a[i], b[i], r[i]) && minus_gives(k, a[i], b[i], s[i]));
    }
    assert(r =~= s);
}

/// A steady kernel gives one norm of a vector.
pub proof fn steady_norm<K: Kernel>(k: K, a: Seq<u32>, m: u32, n: u32)
    requires
        steady(k),
        norm_gives(k, a, m),
        norm_gives(k, a, n),
    ensures
        m == n,
{
    let d = choose|d: u32| #[trigger] dot_gives(k, a, a, d) && root_gives(k, d, m);
    let e = choose|e: u32| #[trigger] dot_gives(k, a, a, e) && root_gives(k, e, n);
    assert(d == e);
}

/// Adds two vectors element by element.
pub fn add_vectors<K: Kernel>(kernel: &K, a: &Vec<u32>, b: &Vec<u32>) -> (r: Vec<u32>)
    requires
        a@.len() == b@.len(),
    ensures
        sum_gives(*kernel, a@, b@, r@),
{
    let mut out: Vec<u32> = Vec::with_capacity(a.len());
    let mut i: usize = 0;
    while i < a.len()
        invariant
            i <= a@.len() == b@.len(),
            sum_gives(*kernel, a@.take(i as int), b@.take(i as int), out@),
        decreases a@.len() - i,
    {
        let x = kernel.plus(a[i], b[i]);
        out.push(x);
        i += 1;
        assert forall|j: int| 0 <= j < i implies plus_gives(
            *kernel,
            a@.take(i as int)[j],
            b@.take(i as int)[j],
            #[trigger] out@[j],
        ) by {
            if j < i - 1 {
                assert(a@.take(i as int)[j] == a@.take(i - 1)[j]);
                assert(b@.take(i as int)[j] == b@.take(i - 1)[j]);
            }
        }
    }
    assert(a@.take(i as int) =~= a@);
    assert(b@.take(i as int) =~= b@);
    out
}

/// Subtracts one vector from another element by element.
pub fn subtract_vectors<K: Kernel>(kernel: &K, a: &Vec<u32>, b: &Vec<u32>) -> (r: Vec<u32>)
    requires
        a@.len() == b@.len(),
    ensures
        difference_gives(*kernel, a@, b@, r@),
{
    let mut out: Vec<u32> = Vec::with_capacity(a.len());
    let mut i: usize = 0;
    while i < a.len()
        invariant
            i <= a@.len() == b@.len(),
            difference_gives(*kernel, a@.take(i as int), b@.take(i as int), out@),
        decreases a@.len() - i,
    {
        let x = kernel.minus(a[i], b[i]);
        out.push(x);
        i += 1;
        assert forall|j: int| 0 <= j < i implies minus_gives(
            *kernel,
            a@.take(i as int)[j],
            b@.take(i as int)[j],
            #[trigger] out@[j],
        ) by {
            if j < i - 1 {
                assert(a@.take(i as int)[j] == a@.take(i - 1)[j]);
                assert(b@.take(i as int)[j] == b@.take(i - 1)[j]);
            }
        }
    }
    assert(a@.take(i as int) =~= a@);
    assert(b@.take(i as int) =~= b@);
    out
}

/// The inner product of two vectors.
pub fn inner_product<K: Kernel>(kernel: &K, a: &Vec<u32>, b: &Vec<u32>) -> (r: u32)
    ensures
        dot_gives(*kernel, a@, b@, r),
{
    kernel.dot(a, b)
}

/// The Euclidean norm of a vector.
pub fn norm<K: Kernel>(kernel: &K, a: &Vec<u32>) -> (r: u32)
    ensures
        norm_gives(*kernel, a@, r),
{
    let d = inner_product(kernel, a, a);
    kernel.root(d)
}

/// A vector of zeros.
pub fn zeros(n: usize) -> (r: Vec<u32>)
    ensures
        r@ == Seq::new(n as nat, |i: int| crate::score::ZERO),
{
    let mut out: Vec<u32> = Vec::with_capacity(n);
    let mut i: usize = 0;
    while i < n
        invariant
            i <= n,
            out@ == Seq::new(i as nat, |j: int| crate::score::ZERO),
        decreases n - i,
    {
        out.push(crate::score::ZERO);
        i += 1;
        assert(out@ =~= Seq::new(i as nat, |j: int| crate::score::ZERO));
    }
    out
}

} // verus!
