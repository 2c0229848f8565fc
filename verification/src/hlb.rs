//! Binding by element-wise multiplication.
//!
//! A fact `(role, value)` is stored as the element-wise product of a bipolar
//! role vector (every entry one or minus one) and a value vector. Because the
//! square of a bipolar entry is one, multiplying by the role again gives the
//! value back.
//!
//! Vectors hold binary32 bit patterns. Multiplying by one keeps a pattern and
//! multiplying by minus one changes its sign, so for bipolar roles binding
//! needs no arithmetic at all.

use crate::entropy::{self, flips_from_seed, flips_from_system};
use crate::kernel::{self, inner_product, norm, Kernel};
use crate::score::{self, is_less, negate, EPSILON, MINUS_ONE, ONE, ZERO};
use crate::text::{self, decimal_string, quote};
use vstd::prelude::*;

verus! {

broadcast use vstd::string::group_string_axioms;

/// What can go wrong in the vector store.
#[derive(Debug)]
pub enum HlbError {
    /// Two vectors that have to have the same length do not.
    DimMismatch { lhs: usize, rhs: usize },
    /// A vector is too short to be scaled to length one.
    ZeroNorm,
    /// The vocabulary has no room for another value.
    VocabFull { cap: usize, attempted: String },
    /// No shard holds the key.
    KeyNotFound { key: String },
}

/// The message for an error.
pub open spec fn error_text(e: HlbError) -> Seq<char> {
    match e {
        HlbError::DimMismatch { lhs, rhs } => "dim mismatch: lhs="@ + text::decimal(lhs as nat)
            + ", rhs="@ + text::decimal(rhs as nat),
        HlbError::ZeroNorm => "zero-norm vector: cannot normalize"@,
        HlbError::VocabFull { cap, attempted } => "vocab full: cap="@ + text::decimal(cap as nat)
            + ", attempted to register "@ + text::quoted(attempted@),
        HlbError::KeyNotFound { key } => "key not found in any shard: "@ + text::quoted(key@),
    }
}

impl HlbError {
    /// The message for this error.
    pub fn message(&self) -> (r: String)
        ensures
            r@ == error_text(*self),
    {
        let mut out = String::new();
        match self {
            HlbError::DimMismatch { lhs, rhs } => {
                out.append("dim mismatch: lhs=");
                out.append(&decimal_string(*lhs as u64));
                out.append(", rhs=");
                out.append(&decimal_string(*rhs as u64));
            },
            HlbError::ZeroNorm => {
                out.append("zero-norm vector: cannot normalize");
            },
            HlbError::VocabFull { cap, attempted } => {
                out.append("vocab full: cap=");
                out.append(&decimal_string(*cap as u64));
                out.append(", attempted to register ");
                out.append(&quote(attempted));
            },
            HlbError::KeyNotFound { key } => {
                out.append("key not found in any shard: ");
                out.append(&quote(key));
            },
        }
        assert(out@ =~= error_text(*self));
        out
    }
}

// ---------------------------------------------------------------------
// Norm and similarity
// ---------------------------------------------------------------------

/// `w` is `v` with every entry divided by `n`.
pub open spec fn quotient_gives<K: Kernel>(k: K, v: Seq<u32>, n: u32, w: Seq<u32>) -> bool {
    &&& w.len() == v.len()
    &&& forall|i: int| 0 <= i < v.len() ==> kernel::divide_gives(k, v[i], n, #[trigger] w[i])
}

/// What dividing `v` by the norm `n` comes to: an error that leaves `v` as it
/// is when the norm is below the machine epsilon, else the scaled vector.
pub open spec fn scaled<K: Kernel>(
    k: K,
    v: Seq<u32>,
    n: u32,
    w: Seq<u32>,
    r: Result<(), HlbError>,
) -> bool {
    if score::less(n, EPSILON) {
        r == Err::<(), HlbError>(HlbError::ZeroNorm) && w == v
    } else {
        r is Ok && quotient_gives(k, v, n, w)
    }
}

/// Divides every entry of `v` by `n`, which is its norm.
pub fn scale_by_norm<K: Kernel>(kernel: &K, v: &mut Vec<u32>, n: u32) -> (r: Result<(), HlbError>)
    ensures
        scaled(*kernel, old(v)@, n, final(v)@, r),
{
    if is_less(n, EPSILON) {
        return Err(HlbError::ZeroNorm);
    }
    let ghost start = v@;
    let mut out: Vec<u32> = Vec::with_capacity(v.len());
    let mut i: usize = 0;
    while i < v.len()
        invariant
            v@ == start,
            i <= v@.len(),
            out@.len() == i,
            forall|j: int| 0 <= j < i ==> kernel::divide_gives(*kernel, start[j], n, #[trigger] out@[j]),
        decreases v@.len() - i,
    {
        let x = kernel.divide(v[i], n);
        out.push(x);
        i += 1;
    }
    *v = out;
    Ok(())
}

/// Scales `v` to length one. A vector whose norm is below the machine epsilon
/// is refused and left as it is.
pub fn normalize<K: Kernel>(kernel: &K, v: &mut Vec<u32>) -> (r: Result<(), HlbError>)
    ensures
        exists|n: u32| #[trigger]
            kernel::norm_gives(*kernel, old(v)@, n) && scaled(*kernel, old(v)@, n, final(v)@, r),
{
    let n = norm(kernel, v);
    scale_by_norm(kernel, v, n)
}

/// `c` is the cosine for the inner product `dot` of two vectors with norms
/// `na` and `nb`: zero when one of the norms is zero.
pub open spec fn cosine_from<K: Kernel>(k: K, dot: u32, na: u32, nb: u32, c: u32) -> bool {
    if score::magnitude(na) == 0 || score::magnitude(nb) == 0 {
        c == ZERO
    } else {
        exists|p: u32| #[trigger]
            kernel::times_gives(k, na, nb, p) && kernel::divide_gives(k, dot, p, c)
    }
}

/// `c` is a cosine similarity of `a` and `b`.
pub open spec fn cosine_gives<K: Kernel>(k: K, a: Seq<u32>, b: Seq<u32>, c: u32) -> bool {
    exists|dot: u32, na: u32, nb: u32| #[trigger]
        cosine_from(k, dot, na, nb, c) && kernel::dot_gives(k, a, b, dot) && kernel::norm_gives(k, a, na)
            && kernel::norm_gives(k, b, nb)
}

/// The cosine of two vectors is their inner product divided by the product of
/// their norms, and zero where a norm is zero. With a steady kernel there is one.
pub proof fn a_cosine_is_a_scaled_inner_product<K: Kernel>(
    k: K,
    a: Seq<u32>,
    b: Seq<u32>,
    c: u32,
    dot: u32,
    na: u32,
    nb: u32,
    p: u32,
    q: u32,
)
    requires
        kernel::steady(k),
        cosine_gives(k, a, b, c),
        kernel::dot_gives(k, a, b, dot),
        kernel::norm_gives(k, a, na),
        kernel::norm_gives(k, b, nb),
        kernel::times_gives(k, na, nb, p),
        kernel::divide_gives(k, dot, p, q),
    ensures
        na == 0 || na == 0x8000_0000 || nb == 0 || nb == 0x8000_0000 ==> c == 0,
        na != 0 && na != 0x8000_0000 && nb != 0 && nb != 0x8000_0000 ==> c == q,
{
    let (d, ma, mb) = choose|dot: u32, na: u32, nb: u32| #[trigger]
        cosine_from(k, dot, na, nb, c) && kernel::dot_gives(k, a, b, dot) && kernel::norm_gives(
            k,
            a,
            na,
        ) && kernel::norm_gives(k, b, nb);
    kernel::steady_norm(k, a, ma, na);
    kernel::steady_norm(k, b, mb, nb);
    assert(d == dot);
}

/// Scaling divides every entry by the norm, unless that is below two to the power
/// of minus twenty-three: then it is refused and nothing changes.
pub proof fn scaling_divides_by_the_norm<K: Kernel>(
    k: K,
    v: Seq<u32>,
    n: u32,
    w: Seq<u32>,
    r: Result<(), HlbError>,
)
    requires
        scaled(k, v, n, w, r),
    ensures
        r is Err <==> score::less(n, 0x3400_0000),
        r is Err ==> w == v,
        r is Ok ==> w.len() == v.len() && forall|i: int|
            0 <= i < v.len() ==> kernel::divide_gives(k, v[i], n, #[trigger] w[i]),
{
}

/// Each message names what went wrong and with what.
pub proof fn errors_say_what_went_wrong(lhs: usize, rhs: usize, cap: usize, value: String)
    ensures
        error_text(HlbError::DimMismatch { lhs, rhs }) == "dim mismatch: lhs="@ + text::decimal(
            lhs as nat,
        ) + ", rhs="@ + text::decimal(rhs as nat),
        error_text(HlbError::ZeroNorm) == "zero-norm vector: cannot normalize"@,
        error_text(HlbError::VocabFull { cap, attempted: value }) == "vocab full: cap="@
            + text::decimal(cap as nat) + ", attempted to register "@ + text::quoted(value@),
        error_text(HlbError::KeyNotFound { key: value }) == "key not found in any shard: "@
            + text::quoted(value@),
{
}

/// The cosine for an inner product and two norms.
pub fn cosine_of_parts<K: Kernel>(kernel: &K, dot: u32, na: u32, nb: u32) -> (c: u32)
    ensures
        cosine_from(*kernel, dot, na, nb, c),
{
    if na == ZERO || na == score::SIGN || nb == ZERO || nb == score::SIGN {
        ZERO
    } else {
        let p = kernel.times(na, nb);
        assert(kernel::times_gives(*kernel, na, nb, p));
        kernel.divide(dot, p)
    }
}

/// The cosine similarity of two vectors, which need not have length one.
pub fn cosine_similarity<K: Kernel>(kernel: &K, a: &Vec<u32>, b: &Vec<u32>) -> (r: Result<
    u32,
    HlbError,
>)
    ensures
        a@.len() != b@.len() ==> r == Err::<u32, HlbError>(
            HlbError::DimMismatch { lhs: a@.len() as usize, rhs: b@.len() as usize },
        ),
        a@.len() == b@.len() ==> r is Ok && cosine_gives(*kernel, a@, b@, r->Ok_0),
{
    if a.len() != b.len() {
        return Err(HlbError::DimMismatch { lhs: a.len(), rhs: b.len() });
    }
    let dot = inner_product(kernel, a, b);
    let na = norm(kernel, a);
    let nb = norm(kernel, b);
    Ok(cosine_of_parts(kernel, dot, na, nb))
}

// ---------------------------------------------------------------------
// Binding
// ---------------------------------------------------------------------

/// Every entry is one or minus one.
pub open spec fn all_bipolar(role: Seq<u32>) -> bool {
    forall|i: int| 0 <= i < role.len() ==> score::bipolar(#[trigger] role[i])
}

/// The product of a bipolar role and a value.
pub open spec fn signed(role: Seq<u32>, value: Seq<u32>) -> Seq<u32> {
    Seq::new(
        value.len(),
        |i: int|
            if role[i] == ONE {
                value[i]
            } else {
                score::negated(value[i])
            },
    )
}

/// `p` is the product of the role entry `role` and `x`, with the role first.
pub open spec fn role_times<K: Kernel>(k: K, role: u32, x: u32, p: u32) -> bool {
    if role == ONE {
        p == x
    } else if role == MINUS_ONE {
        p == score::negated(x)
    } else {
        kernel::times_gives(k, role, x, p)
    }
}

/// `p` is the product of `x` and the role entry `role`, with the role last.
pub open spec fn times_role<K: Kernel>(k: K, x: u32, role: u32, p: u32) -> bool {
    if role == ONE {
        p == x
    } else if role == MINUS_ONE {
        p == score::negated(x)
    } else {
        kernel::times_gives(k, x, role, p)
    }
}

/// `m` is `role` bound to `value`.
pub open spec fn bound_gives<K: Kernel>(
    k: K,
    role: Seq<u32>,
    value: Seq<u32>,
    m: Seq<u32>,
) -> bool {
    &&& m.len() == value.len()
    &&& forall|i: int| 0 <= i < value.len() ==> role_times(k, role[i], value[i], #[trigger] m[i])
}

/// `v` is what unbinding `role` from `memory` gives.
pub open spec fn unbound_gives<K: Kernel>(
    k: K,
    memory: Seq<u32>,
    role: Seq<u32>,
    v: Seq<u32>,
) -> bool {
    &&& v.len() == memory.len()
    &&& forall|i: int| 0 <= i < memory.len() ==> times_role(k, memory[i], role[i], #[trigger] v[i])
}

/// For a bipolar role binding and unbinding are both [`signed`].
pub proof fn bipolar_products<K: Kernel>(k: K, role: Seq<u32>, x: Seq<u32>, p: Seq<u32>)
    requires
        all_bipolar(role),
        role.len() == x.len(),
    ensures
        bound_gives(k, role, x, p) <==> p == signed(role, x),
        unbound_gives(k, x, role, p) <==> p == signed(role, x),
{
    if bound_gives(k, role, x, p) || unbound_gives(k, x, role, p) {
        assert forall|i: int| 0 <= i < x.len() implies p[i] == signed(role, x)[i] by {
            assert(score::bipolar(role[i]));
        }
        assert(p =~= signed(role, x));
    }
    if p == signed(role, x) {
        assert forall|i: int| 0 <= i < x.len() implies role_times(k, role[i], x[i], #[trigger] p[i])
            && times_role(k, x[i], role[i], p[i]) by {
            assert(score::bipolar(role[i]));
        }
    }
}

/// Multiplying by a bipolar role twice gives the value back.
pub proof fn signed_is_involution(role: Seq<u32>, value: Seq<u32>)
    ensures
        signed(role, signed(role, value)) == value,
{
    assert forall|i: int| 0 <= i < value.len() implies signed(role, signed(role, value))[i]
        == value[i] by {
        score::negated_is_involution(value[i]);
    }
    assert(signed(role, signed(role, value)) =~= value);
}

/// Unbinding the role that a value was bound to recovers the value exactly,
/// when the memory holds that one fact.
pub proof fn unbind_undoes_bind<K: Kernel>(
    k: K,
    role: Seq<u32>,
    value: Seq<u32>,
    memory: Seq<u32>,
    recovered: Seq<u32>,
)
    requires
        all_bipolar(role),
        role.len() == value.len(),
        bound_gives(k, role, value, memory),
        unbound_gives(k, memory, role, recovered),
    ensures
        recovered == value,
{
    bipolar_products(k, role, value, memory);
    bipolar_products(k, role, memory, recovered);
    signed_is_involution(role, value);
}

/// Binds a role to a value: their element-wise product.
pub fn bind_hlb<K: Kernel>(kernel: &K, role: &Vec<u32>, value: &Vec<u32>) -> (r: Result<
    Vec<u32>,
    HlbError,
>)
    ensures
        role@.len() != value@.len() ==> r == Err::<Vec<u32>, HlbError>(
            HlbError::DimMismatch { lhs: role@.len() as usize, rhs: value@.len() as usize },
        ),
        role@.len() == value@.len() ==> r is Ok && bound_gives(
            *kernel,
            role@,
            value@,
            r->Ok_0@,
        ),
{
    if role.len() != value.len() {
        return Err(HlbError::DimMismatch { lhs: role.len(), rhs: value.len() });
    }
    let mut out: Vec<u32> = Vec::with_capacity(value.len());
    let mut i: usize = 0;
    while i < value.len()
        invariant
            i <= value@.len() == role@.len(),
            out@.len() == i,
            forall|j: int|
                0 <= j < i ==> role_times(*kernel, role@[j], value@[j], #[trigger] out@[j]),
        decreases value@.len() - i,
    {
        let p = if role[i] == ONE {
            value[i]
        } else if role[i] == MINUS_ONE {
            negate(value[i])
        } else {
            kernel.times(role[i], value[i])
        };
        out.push(p);
        i += 1;
    }
    Ok(out)
}

/// Recovers what was bound to `role` from `memory`: their element-wise
/// product.
pub fn unbind_hlb<K: Kernel>(kernel: &K, memory: &Vec<u32>, role: &Vec<u32>) -> (r: Result<
    Vec<u32>,
    HlbError,
>)
    ensures
        memory@.len() != role@.len() ==> r == Err::<Vec<u32>, HlbError>(
            HlbError::DimMismatch { lhs: memory@.len() as usize, rhs: role@.len() as usize },
        ),
        memory@.len() == role@.len() ==> r is Ok && unbound_gives(
            *kernel,
            memory@,
            role@,
            r->Ok_0@,
        ),
{
    if memory.len() != role.len() {
        return Err(HlbError::DimMismatch { lhs: memory.len(), rhs: role.len() });
    }
    let mut out: Vec<u32> = Vec::with_capacity(memory.len());
    let mut i: usize = 0;
    while i < memory.len()
        invariant
            i <= memory@.len() == role@.len(),
            out@.len() == i,
            forall|j: int|
                0 <= j < i ==> times_role(*kernel, memory@[j], role@[j], #[trigger] out@[j]),
        decreases memory@.len() - i,
    {
        let p = if role[i] == ONE {
            memory[i]
        } else if role[i] == MINUS_ONE {
            negate(memory[i])
        } else {
            kernel.times(memory[i], role[i])
        };
        out.push(p);
        i += 1;
    }
    Ok(out)
}

// ---------------------------------------------------------------------
// Roles
// ---------------------------------------------------------------------

/// The bipolar vector for a sequence of coin flips: one for heads.
pub open spec fn poles(flips: Seq<bool>) -> Seq<u32> {
    flips.map_values(
        |f: bool|
            if f {
                ONE
            } else {
                MINUS_ONE
            },
    )
}

/// Heads is the pattern of one, and tails that of minus one.
pub proof fn flips_become_signs(flips: Seq<bool>, i: int)
    requires
        0 <= i < flips.len(),
    ensures
        poles(flips).len() == flips.len(),
        flips[i] ==> poles(flips)[i] == 0x3f80_0000,
        !flips[i] ==> poles(flips)[i] == 0xbf80_0000,
{
}

/// The bipolar vector for coin flips.
pub fn poles_of(flips: &Vec<bool>) -> (r: Vec<u32>)
    ensures
        r@ == poles(flips@),
        all_bipolar(r@),
{
    let mut out: Vec<u32> = Vec::with_capacity(flips.len());
    let mut i: usize = 0;
    while i < flips.len()
        invariant
            i <= flips@.len(),
            out@ == poles(flips@.take(i as int)),
        decreases flips@.len() - i,
    {
        out.push(
            if flips[i] {
                ONE
            } else {
                MINUS_ONE
            },
        );
        i += 1;
        assert(out@ =~= poles(flips@.take(i as int)));
    }
    assert(flips@.take(i as int) =~= flips@);
    out
}

/// A random role of `dim` entries, each one or minus one: the same for the
/// same seed, or from the operating system's entropy where there is none.
pub fn random_hlb_role(dim: usize, seed: Option<u64>) -> (r: Vec<u32>)
    ensures
        r@.len() == dim,
        all_bipolar(r@),
        seed is Some ==> r@ == poles(entropy::seeded_flips(seed->0, dim as nat)),
{
    let flips = match seed {
        Some(s) => flips_from_seed(s, dim),
        None => flips_from_system(dim),
    };
    poles_of(&flips)
}

} // verus!
