//! Little- and big-endian integer fields in byte sequences.
use vstd::prelude::*;

verus! {

/// Unsigned value of `n` bytes of `b` starting at `at`, least significant byte first.
pub open spec fn le_value(b: Seq<u8>, at: int, n: nat) -> nat
    decreases n,
{
    if n == 0 {
        0
    } else {
        b[at] as nat + 256 * le_value(b, at + 1, (n - 1) as nat)
    }
}

/// Unsigned value of `n` bytes of `b` starting at `at`, most significant byte first.
pub open spec fn be_value(b: Seq<u8>, at: int, n: nat) -> nat
    decreases n,
{
    if n == 0 {
        0
    } else {
        be_value(b, at, (n - 1) as nat) * 256 + b[at + n - 1] as nat
    }
}

/// The `n` least significant bytes of `v`, least significant first.
pub open spec fn le_bytes(v: nat, n: nat) -> Seq<u8>
    decreases n,
{
    if n == 0 {
        Seq::empty()
    } else {
        seq![(v % 256) as u8] + le_bytes(v / 256, (n - 1) as nat)
    }
}

/// The `n` least significant bytes of `v`, most significant first.
pub open spec fn be_bytes(v: nat, n: nat) -> Seq<u8>
    decreases n,
{
    if n == 0 {
        Seq::empty()
    } else {
        be_bytes(v / 256, (n - 1) as nat) + seq![(v % 256) as u8]
    }
}

pub open spec fn pow256(n: nat) -> nat
    decreases n,
{
    if n == 0 {
        1
    } else {
        256 * pow256((n - 1) as nat)
    }
}

/// Two's complement reading of a 32-bit pattern.
pub open spec fn i32_of(u: u32) -> i32 {
    if u < 0x8000_0000 {
        u as i32
    } else {
        (u - 0x1_0000_0000) as i32
    }
}

/// Two's complement bit pattern of a signed 32-bit value.
pub open spec fn bits_of_i32(v: i32) -> u32 {
    if v >= 0 {
        v as u32
    } else {
        (v + 0x1_0000_0000) as u32
    }
}

pub proof fn lemma_le_value_bound(b: Seq<u8>, at: int, n: nat)
    ensures
        le_value(b, at, n) < pow256(n),
    decreases n,
{
    if n > 0 {
        lemma_le_value_bound(b, at + 1, (n - 1) as nat);
    }
}

pub proof fn lemma_be_value_bound(b: Seq<u8>, at: int, n: nat)
    ensures
        be_value(b, at, n) < pow256(n),
    decreases n,
{
    if n > 0 {
        lemma_be_value_bound(b, at, (n - 1) as nat);
        let p = pow256((n - 1) as nat);
        let x = be_value(b, at, (n - 1) as nat);
        assert(x * 256 + (b[at + n - 1] as nat) < pow256(n)) by (nonlinear_arith)
            requires
                x < p,
                pow256(n) == 256 * p,
                b[at + n - 1] < 256,
        ;
    }
}

pub proof fn lemma_le_bytes_len(v: nat, n: nat)
    ensures
        le_bytes(v, n).len() == n,
    decreases n,
{
    if n > 0 {
        lemma_le_bytes_len(v / 256, (n - 1) as nat);
    }
}

pub proof fn lemma_be_bytes_len(v: nat, n: nat)
    ensures
        be_bytes(v, n).len() == n,
    decreases n,
{
    if n > 0 {
        lemma_be_bytes_len(v / 256, (n - 1) as nat);
    }
}

/// Reading back what `le_bytes` wrote gives the value.
pub proof fn lemma_le_roundtrip(v: nat, n: nat)
    requires
        v < pow256(n),
    ensures
        le_value(le_bytes(v, n), 0, n) == v,
    decreases n,
{
    lemma_le_bytes_len(v, n);
    if n > 0 {
        let rest = le_bytes(v / 256, (n - 1) as nat);
        lemma_le_bytes_len(v / 256, (n - 1) as nat);
        let p = pow256((n - 1) as nat);
        assert(v / 256 < p) by (nonlinear_arith)
            requires
                v < 256 * p,
        ;
        lemma_le_roundtrip(v / 256, (n - 1) as nat);
        lemma_le_value_shift(seq![(v % 256) as u8], rest, 0, (n - 1) as nat);
    }
}

/// Reading back what `be_bytes` wrote gives the value.
pub proof fn lemma_be_roundtrip(v: nat, n: nat)
    requires
        v < pow256(n),
    ensures
        be_value(be_bytes(v, n), 0, n) == v,
    decreases n,
{
    lemma_be_bytes_len(v, n);
    if n > 0 {
        let rest = be_bytes(v / 256, (n - 1) as nat);
        lemma_be_bytes_len(v / 256, (n - 1) as nat);
        let p = pow256((n - 1) as nat);
        assert(v / 256 < p) by (nonlinear_arith)
            requires
                v < 256 * p,
        ;
        lemma_be_roundtrip(v / 256, (n - 1) as nat);
        lemma_be_value_prefix(rest, seq![(v % 256) as u8], 0, (n - 1) as nat);
    }
}

/// The value of a field does not depend on bytes before it.
pub proof fn lemma_le_value_shift(pre: Seq<u8>, b: Seq<u8>, at: int, n: nat)
    requires
        0 <= at,
        at + n <= b.len(),
    ensures
        le_value(pre + b, pre.len() + at, n) == le_value(b, at, n),
    decreases n,
{
    if n > 0 {
        lemma_le_value_shift(pre, b, at + 1, (n - 1) as nat);
    }
}

/// The value of a field does not depend on bytes before it.
pub proof fn lemma_be_value_shift(pre: Seq<u8>, b: Seq<u8>, at: int, n: nat)
    requires
        0 <= at,
        at + n <= b.len(),
    ensures
        be_value(pre + b, pre.len() + at, n) == be_value(b, at, n),
    decreases n,
{
    if n > 0 {
        lemma_be_value_shift(pre, b, at, (n - 1) as nat);
    }
}

/// The value of a field does not depend on bytes after it.
pub proof fn lemma_le_value_prefix(b: Seq<u8>, post: Seq<u8>, at: int, n: nat)
    requires
        0 <= at,
        at + n <= b.len(),
    ensures
        le_value(b + post, at, n) == le_value(b, at, n),
    decreases n,
{
    if n > 0 {
        lemma_le_value_prefix(b, post, at + 1, (n - 1) as nat);
    }
}

/// The value of a field does not depend on bytes after it.
pub proof fn lemma_be_value_prefix(b: Seq<u8>, post: Seq<u8>, at: int, n: nat)
    requires
        0 <= at,
        at + n <= b.len(),
    ensures
        be_value(b + post, at, n) == be_value(b, at, n),
    decreases n,
{
    if n > 0 {
        lemma_be_value_prefix(b, post, at, (n - 1) as nat);
    }
}

pub proof fn lemma_pow256()
    ensures
        pow256(1) == 0x100,
        pow256(2) == 0x1_0000,
        pow256(4) == 0x1_0000_0000,
        pow256(8) == 0x1_0000_0000_0000_0000,
{
    reveal_with_fuel(pow256, 9);
}

/// Little-endian `u16` at `at`.
pub fn u16_at(b: &[u8], at: usize) -> (r: u16)
    requires
        at + 2 <= b@.len(),
    ensures
        r == le_value(b@, at as int, 2),
{
    proof {
        reveal_with_fuel(le_value, 3);
    }
    b[at] as u16 + (b[at + 1] as u16) * 256
}

/// Little-endian `u32` at `at`.
pub fn u32_at(b: &[u8], at: usize) -> (r: u32)
    requires
        at + 4 <= b@.len(),
    ensures
        r == le_value(b@, at as int, 4),
{
    proof {
        reveal_with_fuel(le_value, 5);
    }
    let b0 = b[at] as u32;
    let b1 = b[at + 1] as u32;
    let b2 = b[at + 2] as u32;
    let b3 = b[at + 3] as u32;
    b0 + 256 * (b1 + 256 * (b2 + 256 * b3))
}

/// Little-endian `u64` at `at`.
pub fn u64_at(b: &[u8], at: usize) -> (r: u64)
    requires
        at + 8 <= b@.len(),
    ensures
        r == le_value(b@, at as int, 8),
{
    proof {
        reveal_with_fuel(le_value, 9);
    }
    let _len = b.len();
    let lo = u32_at(b, at) as u64;
    let hi = u32_at(b, at + 4) as u64;
    proof {
        reveal_with_fuel(le_value, 9);
        assert(le_value(b@, at as int, 8) == le_value(b@, at as int, 4) + 0x1_0000_0000
            * le_value(b@, at + 4, 4));
    }
    lo + hi * 0x1_0000_0000
}

/// Big-endian value of `n` bytes at `at`, for `n` of at most eight.
pub fn be_at(b: &[u8], at: usize, n: usize) -> (r: u64)
    requires
        at + n <= b@.len(),
        n <= 8,
    ensures
        r == be_value(b@, at as int, n as nat),
{
    let _len = b.len();
    let mut v: u64 = 0;
    let mut i: usize = 0;
    while i < n
        invariant
            i <= n <= 8,
            at + n <= b@.len() <= usize::MAX,
            v == be_value(b@, at as int, i as nat),
        decreases n - i,
    {
        proof {
            lemma_be_value_bound(b@, at as int, i as nat);
            assert(pow256(i as nat) <= pow256(7)) by {
                lemma_pow256_mono(i as nat, 7);
            }
            reveal_with_fuel(pow256, 8);
            assert(pow256(7) == 0x100_0000_0000_0000);
        }
        v = v * 256 + b[at + i] as u64;
        i = i + 1;
    }
    v
}

pub proof fn lemma_pow256_mono(a: nat, b: nat)
    requires
        a <= b,
    ensures
        pow256(a) <= pow256(b),
    decreases b,
{
    if a < b {
        lemma_pow256_mono(a, (b - 1) as nat);
    }
}

/// Appends the `n` least significant bytes of `v`, least significant first.
pub fn push_le(out: &mut Vec<u8>, v: u64, n: usize)
    requires
        n <= 8,
    ensures
        final(out)@ == old(out)@ + le_bytes(v as nat, n as nat),
{
    let mut x = v;
    let mut i: usize = 0;
    assert(pow256(0) == 1);
    while i < n
        invariant
            i <= n <= 8,
            x as nat == v as nat / pow256(i as nat),
            out@ + le_bytes(x as nat, (n - i) as nat) == old(out)@ + le_bytes(v as nat, n as nat),
        decreases n - i,
    {
        out.push((x % 256) as u8);
        proof {
            let rest = le_bytes(x as nat / 256, (n - i - 1) as nat);
            assert(le_bytes(x as nat, (n - i) as nat) == seq![(x % 256) as u8] + rest);
            lemma_div_pow256(v as nat, i as nat);
        }
        x = x / 256;
        i = i + 1;
    }
}

pub proof fn lemma_div_pow256(v: nat, i: nat)
    ensures
        v / pow256(i) / 256 == v / pow256(i + 1),
{
    assert(pow256(i + 1) == 256 * pow256(i));
    assert(pow256(i) > 0) by {
        lemma_pow256_positive(i);
    }
    vstd::arithmetic::div_mod::lemma_div_denominator(v as int, pow256(i) as int, 256);
}

pub proof fn lemma_pow256_positive(i: nat)
    ensures
        pow256(i) > 0,
    decreases i,
{
    if i > 0 {
        lemma_pow256_positive((i - 1) as nat);
    }
}

/// Appends the `n` least significant bytes of `v`, most significant first.
pub fn push_be(out: &mut Vec<u8>, v: u64, n: usize)
    requires
        n <= 8,
    ensures
        final(out)@ == old(out)@ + be_bytes(v as nat, n as nat),
{
    let mut tmp: Vec<u8> = Vec::new();
    push_le(&mut tmp, v, n);
    proof {
        lemma_le_bytes_len(v as nat, n as nat);
    }
    let mut i: usize = n;
    proof {
        lemma_be_bytes_zero(v as nat / pow256(n as nat));
        assert(out@ =~= old(out)@ + be_bytes(v as nat / pow256(n as nat), 0));
    }
    while i > 0
        invariant
            i <= n <= 8,
            tmp@ == le_bytes(v as nat, n as nat),
            tmp@.len() == n,
            out@ == old(out)@ + be_bytes(v as nat / pow256(i as nat), (n - i) as nat),
        decreases i,
    {
        proof {
            lemma_le_bytes_index(v as nat, n as nat, (i - 1) as nat);
            lemma_div_pow256(v as nat, (i - 1) as nat);
            let y = v as nat / pow256((i - 1) as nat);
            lemma_be_bytes_step(y, (n - i) as nat);
        }
        out.push(tmp[i - 1]);
        i = i - 1;
    }
    proof {
        assert(pow256(0) == 1);
        assert(v as nat / 1 == v as nat);
        assert(v as nat / pow256(0) == v as nat);
        assert(out@ == old(out)@ + be_bytes(v as nat, n as nat));
    }
}

pub proof fn lemma_be_bytes_zero(y: nat)
    ensures
        be_bytes(y, 0) == Seq::<u8>::empty(),
{
}

pub proof fn lemma_be_bytes_step(y: nat, m: nat)
    ensures
        be_bytes(y, m + 1) == be_bytes(y / 256, m) + seq![(y % 256) as u8],
{
}

/// Byte `k` of the little-endian encoding.
pub proof fn lemma_le_bytes_index(v: nat, n: nat, k: nat)
    requires
        k < n,
    ensures
        le_bytes(v, n).len() == n,
        le_bytes(v, n)[k as int] == (v / pow256(k) % 256) as u8,
    decreases k,
{
    lemma_le_bytes_len(v, n);
    lemma_le_bytes_len(v / 256, (n - 1) as nat);
    if k > 0 {
        lemma_le_bytes_index(v / 256, (n - 1) as nat, (k - 1) as nat);
        lemma_div_pow256_front(v, (k - 1) as nat);
        assert(le_bytes(v, n)[k as int] == le_bytes(v / 256, (n - 1) as nat)[k - 1]);
    } else {
        assert(pow256(0) == 1);
        assert(v / 1 == v);
        assert(le_bytes(v, n) == seq![(v % 256) as u8] + le_bytes(v / 256, (n - 1) as nat));
    }
}

pub proof fn lemma_div_pow256_front(v: nat, i: nat)
    ensures
        v / 256 / pow256(i) == v / pow256(i + 1),
{
    assert(pow256(i + 1) == 256 * pow256(i));
    lemma_pow256_positive(i);
    vstd::arithmetic::div_mod::lemma_div_denominator(v as int, 256, pow256(i) as int);
}

/// The bit pattern of a signed value, the inverse of `i32_of`.
pub fn i32_bits(v: i32) -> (r: u32)
    ensures
        r == bits_of_i32(v),
        i32_of(r) == v,
{
    if v >= 0 {
        v as u32
    } else {
        let w: i64 = v as i64 + 0x1_0000_0000;
        w as u32
    }
}

/// Two's complement reading of a bit pattern, the inverse of `i32_bits`.
pub fn i32_from_bits(u: u32) -> (r: i32)
    ensures
        r == i32_of(u),
        bits_of_i32(r) == u,
{
    if u < 0x8000_0000 {
        u as i32
    } else {
        let w: i64 = u as i64 - 0x1_0000_0000;
        w as i32
    }
}

} // verus!
