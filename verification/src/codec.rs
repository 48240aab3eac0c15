//! Big-endian integers of fixed width, the packed three-byte sector offset,
//! and zero padding up to a sector boundary.

use vstd::prelude::*;

verus! {

/// The two bytes at `at`, read as a big-endian number.
pub open spec fn be_u16(s: Seq<u8>, at: int) -> int {
    s[at] * 0x100 + s[at + 1]
}

/// The three bytes at `at`, read as a big-endian number.
pub open spec fn be_u24(s: Seq<u8>, at: int) -> int {
    s[at] * 0x1_0000 + s[at + 1] * 0x100 + s[at + 2]
}

/// The four bytes at `at`, read as a big-endian number.
pub open spec fn be_u32(s: Seq<u8>, at: int) -> int {
    s[at] * 0x100_0000 + s[at + 1] * 0x1_0000 + s[at + 2] * 0x100 + s[at + 3]
}

/// The eight bytes at `at`, read as a big-endian number.
pub open spec fn be_u64(s: Seq<u8>, at: int) -> int {
    be_u32(s, at) * 0x1_0000_0000 + be_u32(s, at + 4)
}

/// The two bytes that hold `x` big-endian.
pub open spec fn u16_be(x: int) -> Seq<u8> {
    seq![((x / 0x100) % 0x100) as u8, (x % 0x100) as u8]
}

/// The three bytes that hold the low 24 bits of `x` big-endian.
pub open spec fn u24_be(x: int) -> Seq<u8> {
    seq![((x / 0x1_0000) % 0x100) as u8, ((x / 0x100) % 0x100) as u8, (x % 0x100) as u8]
}

/// The four bytes that hold `x` big-endian.
pub open spec fn u32_be(x: int) -> Seq<u8> {
    seq![
        ((x / 0x100_0000) % 0x100) as u8,
        ((x / 0x1_0000) % 0x100) as u8,
        ((x / 0x100) % 0x100) as u8,
        (x % 0x100) as u8,
    ]
}

/// The eight bytes that hold `x` big-endian.
pub open spec fn u64_be(x: int) -> Seq<u8> {
    u32_be(x / 0x1_0000_0000) + u32_be(x % 0x1_0000_0000)
}

/// `n` zero bytes.
pub open spec fn zeros(n: int) -> Seq<u8> {
    Seq::new(n as nat, |i: int| 0u8)
}

/// How many whole sectors `len` bytes take.
pub open spec fn sectors_for(len: int) -> int {
    (len + 4095) / 4096
}

/// Dividing `q * d + r` by `d` gives `q` and leaves `r`, where `0 <= r < d`.
proof fn lemma_split(q: int, r: int, d: int)
    requires
        d > 0,
        0 <= r < d,
    ensures
        (q * d + r) / d == q,
        (q * d + r) % d == r,
{
    vstd::arithmetic::div_mod::lemma_fundamental_div_mod_converse(q * d + r, d, q, r);
}

/// The big-endian digits of a number below `2^32`, taken apart.
proof fn lemma_digits(b0: int, b1: int, b2: int, b3: int)
    requires
        0 <= b0 < 0x100,
        0 <= b1 < 0x100,
        0 <= b2 < 0x100,
        0 <= b3 < 0x100,
    ensures
        ({
            let x = b0 * 0x100_0000 + b1 * 0x1_0000 + b2 * 0x100 + b3;
            &&& 0 <= x < 0x1_0000_0000
            &&& (x / 0x100_0000) % 0x100 == b0
            &&& (x / 0x1_0000) % 0x100 == b1
            &&& (x / 0x100) % 0x100 == b2
            &&& x % 0x100 == b3
        }),
{
    let x = b0 * 0x100_0000 + b1 * 0x1_0000 + b2 * 0x100 + b3;
    lemma_split(b0, b1 * 0x1_0000 + b2 * 0x100 + b3, 0x100_0000);
    lemma_split(0, b0, 0x100);
    lemma_split(b0 * 0x100 + b1, b2 * 0x100 + b3, 0x1_0000);
    lemma_split(b0, b1, 0x100);
    lemma_split(b0 * 0x1_0000 + b1 * 0x100 + b2, b3, 0x100);
    lemma_split(b0 * 0x100 + b1, b2, 0x100);
}

/// A number below `2^32` is the sum of its four big-endian digits.
proof fn lemma_undigits(x: int)
    requires
        0 <= x < 0x1_0000_0000,
    ensures
        x == ((x / 0x100_0000) % 0x100) * 0x100_0000 + ((x / 0x1_0000) % 0x100) * 0x1_0000 + ((x
            / 0x100) % 0x100) * 0x100 + x % 0x100,
        0 <= x / 0x100_0000 < 0x100,
{
    let b3 = x % 0x100;
    let x1 = x / 0x100;
    let b2 = x1 % 0x100;
    let x2 = x1 / 0x100;
    let b1 = x2 % 0x100;
    let b0 = x2 / 0x100;
    assert(x == b0 * 0x100_0000 + b1 * 0x1_0000 + b2 * 0x100 + b3);
    lemma_digits(b0, b1, b2, b3);
}

/// Reading back a written `u16` gives the number again.
pub proof fn lemma_u16_round_trip(x: int)
    requires
        0 <= x < 0x1_0000,
    ensures
        u16_be(x).len() == 2,
        be_u16(u16_be(x), 0) == x,
{
}

/// Reading back a written three-byte number gives the number again.
pub proof fn lemma_u24_round_trip(x: int)
    requires
        0 <= x < 0x100_0000,
    ensures
        u24_be(x).len() == 3,
        be_u24(u24_be(x), 0) == x,
{
    lemma_undigits(x);
}

/// Reading back a written `u32` gives the number again.
pub proof fn lemma_u32_round_trip(x: int)
    requires
        0 <= x < 0x1_0000_0000,
    ensures
        u32_be(x).len() == 4,
        be_u32(u32_be(x), 0) == x,
{
    lemma_undigits(x);
}

/// Reading back a written `u64` gives the number again.
pub proof fn lemma_u64_round_trip(x: int)
    requires
        0 <= x < 0x1_0000_0000_0000_0000,
    ensures
        u64_be(x).len() == 8,
        be_u64(u64_be(x), 0) == x,
{
    let hi = x / 0x1_0000_0000;
    let lo = x % 0x1_0000_0000;
    let s = u64_be(x);
    lemma_u32_round_trip(hi);
    lemma_u32_round_trip(lo);
    assert(be_u32(s, 0) == be_u32(u32_be(hi), 0));
    assert(be_u32(s, 4) == be_u32(u32_be(lo), 0));
}

/// A `u16` read from bytes fits its width, and writing it gives the bytes again.
pub proof fn lemma_u16_bytes(s: Seq<u8>, at: int)
    requires
        0 <= at,
        at + 2 <= s.len(),
    ensures
        0 <= be_u16(s, at) < 0x1_0000,
        u16_be(be_u16(s, at)) == s.subrange(at, at + 2),
{
    lemma_digits(0, 0, s[at] as int, s[at + 1] as int);
    assert(u16_be(be_u16(s, at)) =~= s.subrange(at, at + 2));
}

/// A three-byte number read from bytes fits its width, and writing it gives the bytes again.
pub proof fn lemma_u24_bytes(s: Seq<u8>, at: int)
    requires
        0 <= at,
        at + 3 <= s.len(),
    ensures
        0 <= be_u24(s, at) < 0x100_0000,
        u24_be(be_u24(s, at)) == s.subrange(at, at + 3),
{
    lemma_digits(0, s[at] as int, s[at + 1] as int, s[at + 2] as int);
    assert(u24_be(be_u24(s, at)) =~= s.subrange(at, at + 3));
}

/// A `u32` read from bytes fits its width, and writing it gives the bytes again.
pub proof fn lemma_u32_bytes(s: Seq<u8>, at: int)
    requires
        0 <= at,
        at + 4 <= s.len(),
    ensures
        0 <= be_u32(s, at) < 0x1_0000_0000,
        u32_be(be_u32(s, at)) == s.subrange(at, at + 4),
{
    lemma_digits(s[at] as int, s[at + 1] as int, s[at + 2] as int, s[at + 3] as int);
    assert(u32_be(be_u32(s, at)) =~= s.subrange(at, at + 4));
}

/// A `u64` read from bytes fits its width, and writing it gives the bytes again.
pub proof fn lemma_u64_bytes(s: Seq<u8>, at: int)
    requires
        0 <= at,
        at + 8 <= s.len(),
    ensures
        0 <= be_u64(s, at) < 0x1_0000_0000_0000_0000,
        u64_be(be_u64(s, at)) == s.subrange(at, at + 8),
{
    let x = be_u64(s, at);
    lemma_u32_bytes(s, at);
    lemma_u32_bytes(s, at + 4);
    lemma_split(be_u32(s, at), be_u32(s, at + 4), 0x1_0000_0000);
    assert(u64_be(x) =~= s.subrange(at, at + 8));
}

/// Reads the big-endian `u16` at `at`.
pub fn read_u16_be(data: &[u8], at: usize) -> (x: u16)
    requires
        at + 2 <= data@.len(),
    ensures
        x == be_u16(data@, at as int),
{
    (data[at] as u16) * 0x100 + (data[at + 1] as u16)
}

/// Reads the big-endian three-byte number at `at`.
pub fn read_u24_be(data: &[u8], at: usize) -> (x: u32)
    requires
        at + 3 <= data@.len(),
    ensures
        x == be_u24(data@, at as int),
        x < 0x100_0000,
{
    (data[at] as u32) * 0x1_0000 + (data[at + 1] as u32) * 0x100 + (data[at + 2] as u32)
}

/// Reads the big-endian `u32` at `at`.
pub fn read_u32_be(data: &[u8], at: usize) -> (x: u32)
    requires
        at + 4 <= data@.len(),
    ensures
        x == be_u32(data@, at as int),
{
    (data[at] as u32) * 0x100_0000 + (data[at + 1] as u32) * 0x1_0000 + (data[at + 2] as u32)
        * 0x100 + (data[at + 3] as u32)
}

/// Reads the big-endian `u64` at `at`.
pub fn read_u64_be(data: &[u8], at: usize) -> (x: u64)
    requires
        at + 8 <= data@.len(),
    ensures
        x == be_u64(data@, at as int),
{
    let size: usize = data.len();
    assert(at + 8 <= size);
    let hi: u32 = read_u32_be(data, at);
    let lo: u32 = read_u32_be(data, at + 4);
    (hi as u64) * 0x1_0000_0000 + (lo as u64)
}

/// Appends `x` as two big-endian bytes.
pub fn push_u16_be(out: &mut Vec<u8>, x: u16)
    ensures
        final(out)@ == old(out)@ + u16_be(x as int),
{
    proof {
        lemma_digits(0, 0, (x / 0x100) as int, (x % 0x100) as int);
    }
    out.push((x / 0x100) as u8);
    out.push((x % 0x100) as u8);
    assert(out@ =~= old(out)@ + u16_be(x as int));
}

/// Appends the low 24 bits of `x` as three big-endian bytes.
pub fn push_u24_be(out: &mut Vec<u8>, x: u32)
    ensures
        final(out)@ == old(out)@ + u24_be(x as int),
{
    out.push(((x / 0x1_0000) % 0x100) as u8);
    out.push(((x / 0x100) % 0x100) as u8);
    out.push((x % 0x100) as u8);
    assert(out@ =~= old(out)@ + u24_be(x as int));
}

/// Appends `x` as four big-endian bytes.
pub fn push_u32_be(out: &mut Vec<u8>, x: u32)
    ensures
        final(out)@ == old(out)@ + u32_be(x as int),
{
    proof {
        lemma_undigits(x as int);
    }
    out.push((x / 0x100_0000) as u8);
    out.push(((x / 0x1_0000) % 0x100) as u8);
    out.push(((x / 0x100) % 0x100) as u8);
    out.push((x % 0x100) as u8);
    assert(out@ =~= old(out)@ + u32_be(x as int));
}

/// Appends `x` as eight big-endian bytes.
pub fn push_u64_be(out: &mut Vec<u8>, x: u64)
    ensures
        final(out)@ == old(out)@ + u64_be(x as int),
{
    push_u32_be(out, (x / 0x1_0000_0000) as u32);
    push_u32_be(out, (x % 0x1_0000_0000) as u32);
    assert(out@ =~= old(out)@ + u64_be(x as int));
}

/// Appends `n` zero bytes.
pub fn push_zeros(out: &mut Vec<u8>, n: usize)
    ensures
        final(out)@ == old(out)@ + zeros(n as int),
{
    let mut i: usize = 0;
    while i < n
        invariant
            i <= n,
            out@ == old(out)@ + zeros(i as int),
        decreases n - i,
    {
        out.push(0u8);
        i += 1;
        assert(out@ =~= old(out)@ + zeros(i as int));
    }
}

/// Appends all of `bytes`.
pub fn push_bytes(out: &mut Vec<u8>, bytes: &[u8])
    ensures
        final(out)@ == old(out)@ + bytes@,
{
    let mut i: usize = 0;
    while i < bytes.len()
        invariant
            i <= bytes@.len(),
            out@ == old(out)@ + bytes@.subrange(0, i as int),
        decreases bytes@.len() - i,
    {
        out.push(bytes[i]);
        i += 1;
        assert(out@ =~= old(out)@ + bytes@.subrange(0, i as int));
    }
    assert(bytes@.subrange(0, bytes@.len() as int) =~= bytes@);
}

} // verus!
