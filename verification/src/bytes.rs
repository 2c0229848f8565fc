//! Numbers and texts as bytes.

use vstd::prelude::*;

verus! {

broadcast use vstd::string::group_string_axioms;

/// The `width` low-order bytes of `n`, least significant first.
pub open spec fn le_bytes(n: nat, width: nat) -> Seq<u8>
    decreases width,
{
    if width == 0 {
        Seq::empty()
    } else {
        seq![(n % 256) as u8] + le_bytes(n / 256, (width - 1) as nat)
    }
}

/// The number whose bytes, least significant first, are `b`.
pub open spec fn le_number(b: Seq<u8>) -> nat
    decreases b.len(),
{
    if b.len() == 0 {
        0
    } else {
        b[0] as nat + 256 * le_number(b.skip(1))
    }
}

/// The least significant byte comes first: it is the remainder by two hundred and
/// fifty-six, and the bytes behind it are those of the quotient.
pub proof fn the_least_byte_comes_first(n: nat, width: nat, b: Seq<u8>)
    requires
        width > 0,
        b.len() > 0,
    ensures
        le_bytes(n, width)[0] == n % 256,
        le_bytes(n, width).skip(1) == le_bytes(n / 256, (width - 1) as nat),
        le_number(b) == b[0] + 256 * le_number(b.skip(1)),
        le_number(Seq::empty()) == 0,
{
    assert(le_bytes(n, width).skip(1) =~= le_bytes(n / 256, (width - 1) as nat));
}

/// A number is given back by its bytes, when they are enough to hold it.
pub proof fn le_number_of_le_bytes(n: nat, width: nat)
    requires
        n < vstd::arithmetic::power::pow(256, width),
    ensures
        le_number(le_bytes(n, width)) == n,
        le_bytes(n, width).len() == width,
    decreases width,
{
    if width == 0 {
        vstd::arithmetic::power::lemma_pow0(256);
    } else {
        vstd::arithmetic::power::lemma_pow1(256);
        vstd::arithmetic::power::lemma_pow_adds(256, 1, (width - 1) as nat);
        le_number_of_le_bytes(n / 256, (width - 1) as nat);
        assert(le_bytes(n, width).skip(1) =~= le_bytes(n / 256, (width - 1) as nat));
    }
}

/// Appends the eight bytes of `n`, least significant first.
pub fn push_le_bytes(out: &mut Vec<u8>, n: u64)
    ensures
        final(out)@ == old(out)@ + le_bytes(n as nat, 8),
{
    let ghost start = out@;
    let mut rest: u64 = n;
    let mut i: usize = 0;
    assert(start + le_bytes(n as nat, 8) =~= out@ + le_bytes(rest as nat, 8));
    while i < 8
        invariant
            i <= 8,
            start + le_bytes(n as nat, 8) == out@ + le_bytes(rest as nat, (8 - i) as nat),
        decreases 8 - i,
    {
        let ghost before = out@;
        let ghost tail = le_bytes(rest as nat, (8 - i) as nat);
        out.push((rest % 256) as u8);
        assert(tail == seq![(rest % 256) as u8] + le_bytes((rest / 256) as nat, (7 - i) as nat));
        assert(out@ + le_bytes((rest / 256) as nat, (7 - i) as nat) =~= before + tail);
        rest = rest / 256;
        i += 1;
    }
    assert(out@ + le_bytes(rest as nat, 0) =~= out@);
}

/// The number held by the first four bytes, least significant first.
pub fn first_word(b: &Vec<u8>) -> (r: u32)
    requires
        b@.len() >= 4,
    ensures
        r == le_number(b@.take(4)),
{
    proof {
        let s = b@.take(4);
        reveal_with_fuel(le_number, 5);
        assert(s.skip(1).skip(1) =~= s.skip(2));
        assert(s.skip(2).skip(1) =~= s.skip(3));
        assert(s.skip(3).skip(1) =~= s.skip(4));
    }
    b[0] as u32 + 256 * (b[1] as u32) + 65536 * (b[2] as u32) + 16777216 * (b[3] as u32)
}

/// Appends the bytes of one vector to another.
pub fn push_all(out: &mut Vec<u8>, more: &Vec<u8>)
    ensures
        final(out)@ == old(out)@ + more@,
{
    let ghost start = out@;
    let mut i: usize = 0;
    while i < more.len()
        invariant
            i <= more@.len(),
            out@ == start + more@.take(i as int),
        decreases more@.len() - i,
    {
        out.push(more[i]);
        i += 1;
        assert(out@ =~= start + more@.take(i as int));
    }
    assert(more@.take(i as int) =~= more@);
}

/// The UTF-8 bytes of a text.
pub fn utf8(s: &str) -> (r: Vec<u8>)
    ensures
        r@ == vstd::utf8::encode_utf8(s@),
{
    s.as_bytes_vec()
}

} // verus!
