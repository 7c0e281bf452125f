//! The Internet checksum (RFC 1071) over byte buffers.
//!
//! The accumulator reads the input as big-endian 32-bit words, adds them
//! into a 64-bit sum and handles a 1 to 3 byte remainder as a 16-bit word
//! and a trailing high byte; the fold reduces that sum to 16 bits in one's
//! complement arithmetic.
use crate::byte_order::{be16_at, be32_at, read_be16, read_be32};
use vstd::arithmetic::div_mod::{lemma_add_mod_noop, lemma_fundamental_div_mod, lemma_mod_multiples_vanish};
use vstd::prelude::*;

verus! {

/// The unfolded sum that the accumulator adds to its initial value: the
/// big-endian 32-bit words of `s`, then a big-endian 16-bit word of a
/// remainder of two or three bytes, then a last odd byte as the high byte of
/// a 16-bit word.
pub open spec fn word_sum(s: Seq<u8>) -> nat
    decreases s.len(),
{
    if s.len() >= 4 {
        be32_at(s, 0) + word_sum(s.subrange(4, s.len() as int))
    } else if s.len() >= 2 {
        be16_at(s, 0) + word_sum(s.subrange(2, s.len() as int))
    } else if s.len() == 1 {
        (s[0] as nat) * 256
    } else {
        0
    }
}

/// The one's complement fold of `a` to 16 bits: 0 stays 0, and any other
/// value becomes the member of `1..=0xFFFF` congruent to it modulo 0xFFFF.
pub open spec fn fold16(a: nat) -> nat {
    if a == 0 {
        0
    } else if a % 0xFFFF == 0 {
        0xFFFF
    } else {
        a % 0xFFFF
    }
}

/// The 16-bit one's complement checksum of `s` added to `initial`.
pub open spec fn checksum_spec(s: Seq<u8>, initial: nat) -> nat {
    fold16(initial + word_sum(s))
}

/// The unfolded sum of a TCP/UDP pseudo-header: both addresses, the
/// protocol number and the transport length.
pub open spec fn pseudo_header_sum(protocol: u8, src: Seq<u8>, dst: Seq<u8>, total_len: u16) -> nat {
    word_sum(src) + word_sum(dst) + (protocol as nat) * 0x1_0000 + (total_len as nat)
}

/// The unfolded sum of bytes that start with a whole number of 32-bit
/// words is the sum of those words and the unfolded sum of the rest.
proof fn lemma_word_sum_concat(a: Seq<u8>, b: Seq<u8>)
    requires
        a.len() % 4 == 0,
    ensures
        word_sum(a + b) == word_sum(a) + word_sum(b),
    decreases a.len(),
{
    if a.len() >= 4 {
        let t = a.subrange(4, a.len() as int);
        assert((a + b).subrange(4, (a + b).len() as int) =~= t + b);
        assert(be32_at(a + b, 0) == be32_at(a, 0));
        lemma_word_sum_concat(t, b);
    } else {
        assert(a + b =~= b);
    }
}

/// The pseudo-header sum of addresses of whole 32-bit words (IPv4 or IPv6)
/// is the unfolded sum of the pseudo-header's bytes: the source address,
/// the destination address, a zero byte, the protocol and the big-endian
/// transport length.
pub proof fn lemma_pseudo_header_sum_is_word_sum(protocol: u8, src: Seq<u8>, dst: Seq<u8>, total_len: u16)
    requires
        src.len() % 4 == 0,
        dst.len() % 4 == 0,
    ensures
        pseudo_header_sum(protocol, src, dst, total_len) == word_sum(
            src + dst + seq![0u8, protocol, (total_len / 256) as u8, (total_len % 256) as u8],
        ),
{
    let tr = seq![0u8, protocol, (total_len / 256) as u8, (total_len % 256) as u8];
    assert(tr.subrange(4, 4) =~= Seq::<u8>::empty());
    assert(word_sum(tr) == be32_at(tr, 0) + word_sum(tr.subrange(4, 4)));
    assert(word_sum(tr) == (protocol as nat) * 0x1_0000 + (total_len as nat));
    lemma_word_sum_concat(dst, tr);
    lemma_word_sum_concat(src, dst + tr);
    assert(src + dst + tr =~= src + (dst + tr));
}

/// A bound on the unfolded sum: no byte contributes more than 2^30 to it.
pub proof fn lemma_word_sum_bound(s: Seq<u8>)
    ensures
        word_sum(s) <= s.len() * 0x4000_0000,
    decreases s.len(),
{
    if s.len() >= 4 {
        lemma_word_sum_bound(s.subrange(4, s.len() as int));
    } else if s.len() >= 2 {
        lemma_word_sum_bound(s.subrange(2, s.len() as int));
    }
}

/// Unfolding `word_sum` at a position that is a multiple of four bytes away
/// from the start, on a suffix of at least four bytes.
proof fn lemma_word_sum_step4(s: Seq<u8>, i: int)
    requires
        0 <= i,
        i + 4 <= s.len(),
    ensures
        word_sum(s.subrange(i, s.len() as int)) == be32_at(s, i) + word_sum(
            s.subrange(i + 4, s.len() as int),
        ),
{
    let t = s.subrange(i, s.len() as int);
    assert(t.subrange(4, t.len() as int) =~= s.subrange(i + 4, s.len() as int));
    assert(be32_at(t, 0) == be32_at(s, i));
}

proof fn lemma_word_sum_step2(s: Seq<u8>, i: int)
    requires
        0 <= i,
        i + 2 <= s.len(),
        s.len() < i + 4,
    ensures
        word_sum(s.subrange(i, s.len() as int)) == be16_at(s, i) + word_sum(
            s.subrange(i + 2, s.len() as int),
        ),
{
    let t = s.subrange(i, s.len() as int);
    assert(t.subrange(2, t.len() as int) =~= s.subrange(i + 2, s.len() as int));
    assert(be16_at(t, 0) == be16_at(s, i));
}

/// The accumulator over `b`, without the final fold (the scalar form).
fn checksum_no_fold_scalar(b: &[u8], initial: u64) -> (r: u64)
    requires
        initial + word_sum(b@) <= u64::MAX,
    ensures
        r == initial + word_sum(b@),
{
    let len = b.len();
    let mut accumulator = initial;
    let mut i: usize = 0;
    assert(b@.subrange(0, len as int) =~= b@);
    while len - i >= 4
        invariant
            len == b@.len(),
            i <= len,
            accumulator + word_sum(b@.subrange(i as int, len as int)) == initial + word_sum(b@),
            initial + word_sum(b@) <= u64::MAX,
        decreases len - i,
    {
        proof {
            lemma_word_sum_step4(b@, i as int);
        }
        let w = read_be32(b, i);
        accumulator = accumulator + w as u64;
        i = i + 4;
    }
    if len - i >= 2 {
        proof {
            lemma_word_sum_step2(b@, i as int);
        }
        let w = read_be16(b, i);
        accumulator = accumulator + w as u64;
        i = i + 2;
    }
    if i < len {
        let byte = b[i];
        assert(b@.subrange(i as int, len as int).len() == 1);
        assert(b@.subrange(i as int, len as int)[0] == byte);
        assert((byte as u64) << 8 == (byte as u64) * 256) by (bit_vector)
            requires
                byte < 256,
        ;
        accumulator = accumulator + ((byte as u64) << 8);
    } else {
        assert(b@.subrange(i as int, len as int).len() == 0);
    }
    accumulator
}

/// The checksum accumulator over `b` without the final fold, added to
/// `initial`: the input is read as big-endian 32-bit words accumulated in
/// 64 bits, then the remainder.
pub fn checksum_no_fold(b: &[u8], initial: u64) -> (r: u64)
    requires
        initial + word_sum(b@) <= u64::MAX,
    ensures
        r == initial + word_sum(b@),
{
    checksum_no_fold_scalar(b, initial)
}

/// One step of the fold keeps the value modulo 0xFFFF, keeps it nonzero and
/// makes it smaller.
proof fn lemma_fold_step(x: u64)
    requires
        x > 0xFFFF,
    ensures
        (x >> 16u64) + (x & 0xFFFFu64) < x,
        ((x >> 16u64) + (x & 0xFFFFu64)) % 0xFFFF == (x as nat) % 0xFFFF,
        (x >> 16u64) + (x & 0xFFFFu64) > 0,
{
    assert(x >> 16u64 == x / 0x1_0000) by (bit_vector);
    assert(x & 0xFFFFu64 == x % 0x1_0000) by (bit_vector);
    let hi: int = (x / 0x1_0000) as int;
    let lo: int = (x % 0x1_0000) as int;
    lemma_fundamental_div_mod(x as int, 0x1_0000);
    assert(x == 0x1_0000 * hi + lo);
    assert(hi >= 1);
    assert(x == 0xFFFF * hi + (hi + lo));
    lemma_mod_multiples_vanish(hi, hi + lo, 0xFFFF);
}

/// The 16-bit Internet checksum of `b` added to `initial`: the accumulator
/// folded to 16 bits in one's complement arithmetic.
pub fn checksum(b: &[u8], initial: u64) -> (r: u16)
    requires
        initial + word_sum(b@) <= u64::MAX,
    ensures
        r as nat == checksum_spec(b@, initial as nat),
{
    let mut accumulator = checksum_no_fold(b, initial);
    let ghost a: nat = accumulator as nat;
    while accumulator > 0xFFFF
        invariant
            accumulator as nat % 0xFFFF == a % 0xFFFF,
            (accumulator == 0) == (a == 0),
        decreases accumulator,
    {
        proof {
            lemma_fold_step(accumulator);
        }
        accumulator = (accumulator >> 16) + (accumulator & 0xFFFF);
    }
    accumulator as u16
}

/// The checksum accumulator of a TCP/UDP pseudo-header: the source and
/// destination addresses, then the trailer `{0, protocol, total_len}`.
pub fn pseudo_header_checksum_no_fold(
    protocol: u8,
    src_addr: &[u8],
    dst_addr: &[u8],
    total_len: u16,
) -> (r: u64)
    requires
        pseudo_header_sum(protocol, src_addr@, dst_addr@, total_len) <= u64::MAX,
    ensures
        r == pseudo_header_sum(protocol, src_addr@, dst_addr@, total_len),
{
    let sum = checksum_no_fold(src_addr, 0);
    let sum = checksum_no_fold(dst_addr, sum);
    let hi: u8 = (total_len / 256) as u8;
    let lo: u8 = (total_len % 256) as u8;
    let trailer: [u8; 4] = [0, protocol, hi, lo];
    let t = trailer.as_slice();
    proof {
        let ts = t@;
        assert(ts.len() == 4);
        assert(ts.subrange(4, 4) =~= Seq::<u8>::empty());
        assert(word_sum(ts.subrange(4, 4)) == 0);
        assert(word_sum(ts) == be32_at(ts, 0));
        assert((hi as nat) * 256 + (lo as nat) == total_len as nat);
    }
    checksum_no_fold(t, sum)
}

/// The RFC 1071 sum of `s`: its big-endian 16-bit words, a last odd byte
/// padded with a zero byte.
pub open spec fn sum16(s: Seq<u8>) -> nat
    decreases s.len(),
{
    if s.len() >= 2 {
        be16_at(s, 0) + sum16(s.subrange(2, s.len() as int))
    } else if s.len() == 1 {
        (s[0] as nat) * 256
    } else {
        0
    }
}

/// Adding congruent values to the same value keeps them congruent.
proof fn lemma_mod_add_congruent(a: int, x: int, y: int)
    requires
        x % 0xFFFF == y % 0xFFFF,
    ensures
        (a + x) % 0xFFFF == (a + y) % 0xFFFF,
{
    lemma_add_mod_noop(a, x, 0xFFFF);
    lemma_add_mod_noop(a, y, 0xFFFF);
}

/// The 32-bit word sum and the 16-bit word sum agree modulo 0xFFFF, and one
/// is zero exactly when the other is.
proof fn lemma_word_sum_sum16(s: Seq<u8>)
    ensures
        word_sum(s) % 0xFFFF == sum16(s) % 0xFFFF,
        (word_sum(s) == 0) == (sum16(s) == 0),
    decreases s.len(),
{
    if s.len() >= 4 {
        let rest = s.subrange(4, s.len() as int);
        let t = s.subrange(2, s.len() as int);
        assert(t.subrange(2, t.len() as int) =~= rest);
        assert(be16_at(t, 0) == be16_at(s, 2));
        assert(sum16(t) == be16_at(t, 0) + sum16(t.subrange(2, t.len() as int)));
        assert(sum16(s) == be16_at(s, 0) + sum16(t));
        assert(sum16(s) == be16_at(s, 0) + be16_at(s, 2) + sum16(rest));
        lemma_word_sum_sum16(rest);
        let hi = be16_at(s, 0) as int;
        let lo = be16_at(s, 2) as int;
        assert(be32_at(s, 0) == hi * 0x1_0000 + lo);
        assert(word_sum(s) == hi * 0x1_0000 + lo + word_sum(rest));
        assert(hi * 0x1_0000 + lo + word_sum(rest) == 0xFFFF * hi + (hi + lo + word_sum(rest)));
        lemma_mod_multiples_vanish(hi, hi + lo + word_sum(rest), 0xFFFF);
        lemma_mod_add_congruent(hi + lo, word_sum(rest) as int, sum16(rest) as int);
    } else if s.len() >= 2 {
        let rest = s.subrange(2, s.len() as int);
        lemma_word_sum_sum16(rest);
        lemma_mod_add_congruent(be16_at(s, 0) as int, word_sum(rest) as int, sum16(rest) as int);
    }
}

/// The checksum is the RFC 1071 one: accumulating 32-bit words and folding
/// gives the fold of the 16-bit word sum.
pub proof fn lemma_checksum_is_rfc1071(s: Seq<u8>, initial: nat)
    ensures
        checksum_spec(s, initial) == fold16(initial + sum16(s)),
{
    lemma_word_sum_sum16(s);
    lemma_mod_add_congruent(initial as int, word_sum(s) as int, sum16(s) as int);
}


/// The 16-bit word sum of bytes that start with a whole number of 16-bit
/// words is the sum of those words and the word sum of the rest.
proof fn lemma_sum16_concat(a: Seq<u8>, b: Seq<u8>)
    requires
        a.len() % 2 == 0,
    ensures
        sum16(a + b) == sum16(a) + sum16(b),
    decreases a.len(),
{
    if a.len() >= 2 {
        let t = a.subrange(2, a.len() as int);
        assert((a + b).subrange(2, (a + b).len() as int) =~= t + b);
        assert(be16_at(a + b, 0) == be16_at(a, 0));
        lemma_sum16_concat(t, b);
    } else {
        assert(a + b =~= b);
    }
}

/// The checksum of bytes split at an even length is the checksum of the
/// second part, seeded with the unfolded sum that the first part adds to
/// the seed: the accumulator can be carried from one part to the next.
pub proof fn lemma_checksum_split(a: Seq<u8>, b: Seq<u8>, initial: nat)
    requires
        a.len() % 2 == 0,
    ensures
        checksum_spec(a + b, initial) == checksum_spec(b, initial + word_sum(a)),
{
    lemma_checksum_is_rfc1071(a + b, initial);
    lemma_checksum_is_rfc1071(b, initial + word_sum(a));
    lemma_sum16_concat(a, b);
    lemma_word_sum_sum16(a);
    let x = initial + sum16(b);
    lemma_mod_add_congruent(x as int, word_sum(a) as int, sum16(a) as int);
    assert(initial + word_sum(a) + sum16(b) == x + word_sum(a));
    assert(initial + sum16(a + b) == x + sum16(a));
}

} // verus!
