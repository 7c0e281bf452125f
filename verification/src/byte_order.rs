//! Big-endian access to byte buffers, through the `byteorder` crate.
use byteorder::{BigEndian, ByteOrder};
use vstd::prelude::*;

verus! {

/// The big-endian value of the two bytes of `s` at `i`.
pub open spec fn be16_at(s: Seq<u8>, i: int) -> nat {
    (s[i] as nat) * 256 + (s[i + 1] as nat)
}

/// The big-endian value of the four bytes of `s` at `i`.
pub open spec fn be32_at(s: Seq<u8>, i: int) -> nat {
    (s[i] as nat) * 0x100_0000 + (s[i + 1] as nat) * 0x1_0000 + (s[i + 2] as nat) * 0x100 + (
    s[i + 3] as nat)
}

/// `s` with the big-endian bytes of `n` written at `i`.
pub open spec fn put_be16(s: Seq<u8>, i: int, n: u16) -> Seq<u8> {
    s.update(i, (n / 256) as u8).update(i + 1, (n % 256) as u8)
}

/// `s` with the big-endian bytes of `n` written at `i`.
pub open spec fn put_be32(s: Seq<u8>, i: int, n: u32) -> Seq<u8> {
    s.update(i, (n / 0x100_0000) as u8).update(i + 1, ((n / 0x1_0000) % 256) as u8).update(
        i + 2,
        ((n / 0x100) % 256) as u8,
    ).update(i + 3, (n % 256) as u8)
}

/// `BigEndian::read_u16` of `byteorder` on the bytes of `buf` from `at`:
/// the big-endian value of the two bytes there (the crate indexes
/// `buf[..2]`, so fewer than two bytes would panic).
#[verifier::external_body]
pub(crate) fn read_be16(buf: &[u8], at: usize) -> (r: u16)
    requires
        at + 2 <= buf@.len(),
    ensures
        r as nat == be16_at(buf@, at as int),
{
    BigEndian::read_u16(&buf[at..])
}

/// `BigEndian::read_u32` of `byteorder` on the bytes of `buf` from `at`:
/// the big-endian value of the four bytes there.
#[verifier::external_body]
pub(crate) fn read_be32(buf: &[u8], at: usize) -> (r: u32)
    requires
        at + 4 <= buf@.len(),
    ensures
        r as nat == be32_at(buf@, at as int),
{
    BigEndian::read_u32(&buf[at..])
}

/// `BigEndian::write_u16` of `byteorder` on the bytes of `buf` from `at`:
/// it stores the high byte of `n` at `at` and the low byte at `at + 1`,
/// leaving every other byte as it was.
#[verifier::external_body]
pub(crate) fn write_be16(buf: &mut [u8], at: usize, n: u16)
    requires
        at + 2 <= old(buf)@.len(),
    ensures
        final(buf)@ == put_be16(old(buf)@, at as int, n),
{
    BigEndian::write_u16(&mut buf[at..], n)
}

/// `BigEndian::write_u32` of `byteorder` on the bytes of `buf` from `at`:
/// it stores the four bytes of `n`, most significant first, from `at`,
/// leaving every other byte as it was.
#[verifier::external_body]
pub(crate) fn write_be32(buf: &mut [u8], at: usize, n: u32)
    requires
        at + 4 <= old(buf)@.len(),
    ensures
        final(buf)@ == put_be32(old(buf)@, at as int, n),
{
    BigEndian::write_u32(&mut buf[at..], n)
}

/// `s` with the bytes of `src` written from `at` on.
pub open spec fn splice(s: Seq<u8>, at: int, src: Seq<u8>) -> Seq<u8> {
    s.subrange(0, at) + src + s.subrange(at + src.len(), s.len() as int)
}

/// The bitwise complement of a 16-bit value.
pub open spec fn not16(c: nat) -> nat {
    (0xFFFF - c) as nat
}

/// Copies `src` into `dst` from `at` on, byte by byte.
pub fn copy_into(dst: &mut Vec<u8>, at: usize, src: &[u8])
    requires
        at + src@.len() <= old(dst)@.len(),
    ensures
        final(dst)@ == splice(old(dst)@, at as int, src@),
{
    let n = src.len();
    let dlen = dst.len();
    let mut k: usize = 0;
    while k < n
        invariant
            n == src@.len(),
            dlen == dst@.len(),
            k <= n,
            at + n <= dst@.len(),
            dst@.len() == old(dst)@.len(),
            dst@ =~= splice(old(dst)@, at as int, src@.subrange(0, k as int)),
        decreases n - k,
    {
        dst.set(at + k, src[k]);
        k = k + 1;
        assert(dst@ =~= splice(old(dst)@, at as int, src@.subrange(0, k as int)));
    }
    assert(src@.subrange(0, n as int) =~= src@);
}

/// Reading back two bytes just written gives the value written.
pub proof fn lemma_be16_roundtrip(s: Seq<u8>, i: int, n: u16)
    requires
        0 <= i,
        i + 2 <= s.len(),
    ensures
        be16_at(put_be16(s, i, n), i) == n as nat,
        put_be16(s, i, n).len() == s.len(),
{
    let t = put_be16(s, i, n);
    assert(t[i] == (n / 256) as u8);
    assert(t[i + 1] == (n % 256) as u8);
}

/// Reading back four bytes just written gives the value written.
pub proof fn lemma_be32_roundtrip(s: Seq<u8>, i: int, n: u32)
    requires
        0 <= i,
        i + 4 <= s.len(),
    ensures
        be32_at(put_be32(s, i, n), i) == n as nat,
        put_be32(s, i, n).len() == s.len(),
{
    let t = put_be32(s, i, n);
    assert(t[i] == (n / 0x100_0000) as u8);
    assert(t[i + 1] == ((n / 0x1_0000) % 256) as u8);
    assert(t[i + 2] == ((n / 0x100) % 256) as u8);
    assert(t[i + 3] == (n % 256) as u8);
    let a = n / 0x100_0000;
    let b = (n / 0x1_0000) % 256;
    let c = (n / 0x100) % 256;
    let d = n % 256;
    assert(a * 0x100_0000 + b * 0x1_0000 + c * 0x100 + d == n) by (nonlinear_arith)
        requires
            a == n / 0x100_0000,
            b == (n / 0x1_0000) % 256,
            c == (n / 0x100) % 256,
            d == n % 256,
            n < 0x1_0000_0000,
    ;
}

} // verus!
