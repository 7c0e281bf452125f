//! Generic Segmentation Offload: splitting one large TCP or UDP packet
//! described by a virtio header into packets of at most `gso_size` bytes of
//! payload, and completing a partial checksum for packets without GSO.
use crate::byte_order::{
    be16_at, be32_at, copy_into, not16, put_be16, put_be32, read_be16, read_be32, splice,
    write_be16, write_be32,
};
use crate::checksum::{
    checksum, checksum_spec, fold16, lemma_checksum_is_rfc1071, lemma_word_sum_bound,
    pseudo_header_checksum_no_fold, pseudo_header_sum, sum16, word_sum,
};
use vstd::arithmetic::div_mod::{lemma_fundamental_div_mod, lemma_mod_multiples_vanish};
use crate::virtio::{
    OffloadError, VirtioNetHdr, VIRTIO_NET_HDR_F_NEEDS_CSUM, VIRTIO_NET_HDR_GSO_NONE,
    VIRTIO_NET_HDR_GSO_TCPV4, VIRTIO_NET_HDR_GSO_TCPV6, VIRTIO_NET_HDR_GSO_UDP_L4,
};
use vstd::prelude::*;

verus! {

/// IP protocol number of TCP.
pub const IPPROTO_TCP: u8 = 6;

/// IP protocol number of UDP.
pub const IPPROTO_UDP: u8 = 17;

/// Offset of the flags byte in a TCP header.
pub const TCP_FLAGS_OFFSET: usize = 13;

/// TCP FIN flag.
pub const TCP_FLAG_FIN: u8 = 0x01;

/// TCP PSH flag.
pub const TCP_FLAG_PSH: u8 = 0x08;

/// TCP ACK flag.
pub const TCP_FLAG_ACK: u8 = 0x10;

/// Offset of the source address in an IPv4 header.
pub const IPV4_SRC_ADDR_OFFSET: usize = 12;

/// Offset of the source address in an IPv6 header.
pub const IPV6_SRC_ADDR_OFFSET: usize = 8;

pub(crate) proof fn lemma_not16(c: u16)
    ensures
        (!c) as nat == not16(c as nat),
{
    assert(!c == 0xFFFFu16 - c) by (bit_vector);
}

/// Where the transport checksum of a packet described by `h` lies.
pub open spec fn csum_at(h: VirtioNetHdr) -> int {
    h.csum_start as int + h.csum_offset as int
}

/// The packet after `gso_none_checksum`: the initial value found at the
/// checksum field (normally the pseudo-header sum) is cleared, and the
/// complement of the checksum from `csum_start`, seeded with that value, is
/// stored there.
pub open spec fn gso_none_checksum_result(s: Seq<u8>, csum_start: u16, csum_offset: u16) -> Seq<u8> {
    let at = csum_start as int + csum_offset as int;
    let initial = be16_at(s, at);
    let cleared = s.update(at, 0).update(at + 1, 0);
    put_be16(
        cleared,
        at,
        not16(checksum_spec(cleared.subrange(csum_start as int, s.len() as int), initial)) as u16,
    )
}

/// The conditions under which `gso_none_checksum` computes without running
/// out of the buffer or of the 64-bit accumulator.
pub open spec fn gso_none_checksum_ok(s: Seq<u8>, csum_start: u16, csum_offset: u16) -> bool {
    let at = csum_start as int + csum_offset as int;
    &&& at <= u16::MAX
    &&& at + 2 <= s.len()
    &&& be16_at(s, at) + word_sum(
        s.update(at, 0).update(at + 1, 0).subrange(csum_start as int, s.len() as int),
    ) <= u64::MAX
}

/// Computes and stores the transport checksum of a packet without GSO: the
/// initial value at `csum_start + csum_offset` is cleared and used as the
/// seed of the checksum over the bytes from `csum_start`, whose complement
/// is stored there.
pub fn gso_none_checksum(in_buf: &mut [u8], csum_start: u16, csum_offset: u16)
    requires
        gso_none_checksum_ok(old(in_buf)@, csum_start, csum_offset),
    ensures
        final(in_buf)@ == gso_none_checksum_result(old(in_buf)@, csum_start, csum_offset),
{
    let csum_at = (csum_start + csum_offset) as usize;
    let initial = read_be16(in_buf, csum_at);
    in_buf[csum_at] = 0;
    in_buf[csum_at + 1] = 0;
    let len = in_buf.len();
    let computed = checksum(&in_buf[csum_start as usize..len], initial as u64);
    proof {
        lemma_not16(computed);
    }
    write_be16(in_buf, csum_at, !computed);
}

/// Whether the GSO type is one of the TCP types.
pub open spec fn is_tcp_gso(h: VirtioNetHdr) -> bool {
    h.gso_type == VIRTIO_NET_HDR_GSO_TCPV4 || h.gso_type == VIRTIO_NET_HDR_GSO_TCPV6
}

/// Offset of the source address in the IP header.
pub open spec fn addr_offset(is_v6: bool) -> int {
    if is_v6 {
        8
    } else {
        12
    }
}

/// Length of an IP address.
pub open spec fn addr_length(is_v6: bool) -> int {
    if is_v6 {
        16
    } else {
        4
    }
}

/// The input packet as `gso_split` leaves it: the IPv4 header checksum and
/// the transport checksum cleared.
pub open spec fn split_input(input: Seq<u8>, h: VirtioNetHdr, is_v6: bool) -> Seq<u8> {
    let a = if is_v6 {
        input
    } else {
        input.update(10, 0).update(11, 0)
    };
    a.update(csum_at(h), 0).update(csum_at(h) + 1, 0)
}

/// The number of segments a GSO packet of `len` bytes splits into, or
/// `None` where a segment size of zero makes the count unbounded.
pub open spec fn segments_needed(len: nat, h: VirtioNetHdr) -> Option<nat> {
    if h.hdr_len >= len {
        Some(0)
    } else if h.gso_size == 0 {
        None
    } else {
        Some(((len - h.hdr_len + h.gso_size - 1) / (h.gso_size as int)) as nat)
    }
}

/// The number of segments that `gso_split` writes before it stops, with
/// `out_len` output buffers.
pub open spec fn segments_written(len: nat, h: VirtioNetHdr, out_len: nat) -> nat {
    match segments_needed(len, h) {
        Some(n) => if n <= out_len {
            n
        } else {
            out_len
        },
        None => out_len,
    }
}

/// Where the payload of segment `k` starts in the input.
pub open spec fn seg_data_start(h: VirtioNetHdr, k: nat) -> nat {
    h.hdr_len as nat + k * (h.gso_size as nat)
}

/// The payload length of segment `k`: `gso_size`, or what is left for the
/// last segment.
pub open spec fn seg_data_len(len: nat, h: VirtioNetHdr, k: nat) -> nat {
    if seg_data_start(h, k) + h.gso_size > len {
        (len - seg_data_start(h, k)) as nat
    } else {
        h.gso_size as nat
    }
}

/// The length of segment `k`: headers and payload.
pub open spec fn seg_total_len(len: nat, h: VirtioNetHdr, k: nat) -> nat {
    h.hdr_len as nat + seg_data_len(len, h, k)
}

/// The pseudo-header sum of segment `k`.
pub open spec fn seg_pseudo(inp: Seq<u8>, h: VirtioNetHdr, k: nat, is_v6: bool) -> nat {
    let ao = addr_offset(is_v6);
    let al = addr_length(is_v6);
    let proto: u8 = if is_tcp_gso(h) {
        IPPROTO_TCP
    } else {
        IPPROTO_UDP
    };
    let transport_len = ((h.hdr_len - h.csum_start) + seg_data_len(inp.len(), h, k)) % 0x1_0000;
    pseudo_header_sum(
        proto,
        inp.subrange(ao, ao + al),
        inp.subrange(ao + al, ao + 2 * al),
        transport_len as u16,
    )
}

/// The IP header of segment `k` in `o` at `base` (after the input's IP
/// header has been copied there): IPv4 gets the ID incremented by `k`, the
/// total length and a fresh header checksum; IPv6 gets the payload length.
pub open spec fn seg_ip_header(o1: Seq<u8>, base: int, len: nat, h: VirtioNetHdr, k: nat, is_v6: bool) -> Seq<u8> {
    let iph = h.csum_start as int;
    let tl = seg_total_len(len, h, k);
    if !is_v6 {
        let o2 = if k > 0 {
            put_be16(o1, base + 4, ((be16_at(o1, base + 4) + k) % 0x1_0000) as u16)
        } else {
            o1
        };
        let o3 = put_be16(o2, base + 2, (tl % 0x1_0000) as u16);
        put_be16(o3, base + 10, not16(checksum_spec(o3.subrange(base, base + iph), 0)) as u16)
    } else {
        put_be16(o1, base + 4, ((tl - 40) % 0x1_0000) as u16)
    }
}

/// The transport header fields of segment `k`: TCP gets its sequence number
/// advanced by the payload before it and, on all but the final segment,
/// FIN and PSH cleared; UDP gets its length.
pub open spec fn seg_transport_header(o5: Seq<u8>, base: int, inp: Seq<u8>, h: VirtioNetHdr, k: nat) -> Seq<u8> {
    let iph = h.csum_start as int;
    let len = inp.len();
    if is_tcp_gso(h) {
        let first_seq = be32_at(inp, iph + 4);
        let o6 = put_be32(
            o5,
            base + iph + 4,
            ((first_seq + (h.gso_size as nat) * k) % 0x1_0000_0000) as u32,
        );
        if seg_data_start(h, k) + h.gso_size < len {
            o6.update(base + iph + 13, o6[base + iph + 13] & 0xF6u8)
        } else {
            o6
        }
    } else {
        put_be16(
            o5,
            base + iph + 4,
            ((seg_data_len(len, h, k) + h.hdr_len - h.csum_start) % 0x1_0000) as u16,
        )
    }
}

/// The output buffer `o` with segment `k` of the (cleared) input `inp`
/// written from `base`.
#[verifier::opaque]
pub open spec fn seg_out(o: Seq<u8>, base: int, inp: Seq<u8>, h: VirtioNetHdr, k: nat, is_v6: bool) -> Seq<u8> {
    let iph = h.csum_start as int;
    let hl = h.hdr_len as int;
    let start = seg_data_start(h, k) as int;
    let dl = seg_data_len(inp.len(), h, k) as int;
    let tl = seg_total_len(inp.len(), h, k) as int;
    let o1 = splice(o, base, inp.subrange(0, iph));
    let o4 = seg_ip_header(o1, base, inp.len(), h, k, is_v6);
    let o5 = splice(o4, base + iph, inp.subrange(iph, hl));
    let o7 = seg_transport_header(o5, base, inp, h, k);
    let o8 = splice(o7, base + hl, inp.subrange(start, start + dl));
    let csum = not16(checksum_spec(o8.subrange(base + iph, base + tl), seg_pseudo(inp, h, k, is_v6)));
    put_be16(o8, base + csum_at(h), csum as u16)
}

/// Segment `k` fits the output buffer of length `out_len` from `base`.
pub open spec fn seg_fits(out_len: nat, base: nat, len: nat, h: VirtioNetHdr, k: nat, is_v6: bool) -> bool {
    let iph = h.csum_start as nat;
    let tl = seg_total_len(len, h, k);
    &&& base + tl <= out_len
    &&& base + csum_at(h) + 2 <= out_len
    &&& if is_v6 {
        base + 6 <= out_len && tl >= 40
    } else {
        base + 12 <= out_len
    }
    &&& if is_tcp_gso(h) {
        &&& base + iph + 8 <= out_len
        &&& (seg_data_start(h, k) + h.gso_size < len ==> base + iph + 14 <= out_len)
    } else {
        base + iph + 6 <= out_len
    }
}

/// The conditions under which `gso_split` runs without indexing past a
/// buffer or overflowing an integer.
pub open spec fn gso_split_ok(
    input: Seq<u8>,
    h: VirtioNetHdr,
    out: Seq<Vec<u8>>,
    sizes_len: nat,
    out_offset: nat,
    is_v6: bool,
) -> bool {
    let len = input.len();
    &&& len <= isize::MAX
    &&& (!is_v6 ==> len >= 12)
    &&& csum_at(h) <= u16::MAX
    &&& csum_at(h) + 2 <= len
    &&& h.hdr_len >= h.csum_start
    &&& addr_offset(is_v6) + 2 * addr_length(is_v6) <= len
    &&& (is_tcp_gso(h) ==> h.csum_start + 8 <= len)
    &&& forall|k: nat|
        k < out.len() && #[trigger] seg_data_start(h, k) < len ==> {
            &&& h.csum_start + (if is_tcp_gso(h) { 8int } else { 6int }) <= u16::MAX
            &&& k < sizes_len
            &&& out_offset <= out[k as int]@.len()
            &&& seg_fits(out[k as int]@.len(), out_offset, len, h, k, is_v6)
            &&& (is_tcp_gso(h) ==> (h.gso_size as nat) * k <= u32::MAX)
        }
}

/// Whether segment `k` of a packet of `len` bytes can be written as
/// [`gso_split_ok`] asks, computed without overflow.
fn segment_admissible(h: VirtioNetHdr, out: &Vec<Vec<u8>>, sizes_len: usize, out_offset: usize, is_v6: bool, len: usize, k: usize) -> (b: bool)
    requires
        k < out@.len(),
        seg_data_start(h, k as nat) < len,
    ensures
        b == ({
            &&& h.csum_start + (if is_tcp_gso(h) { 8int } else { 6int }) <= u16::MAX
            &&& k < sizes_len
            &&& out_offset <= out@[k as int]@.len()
            &&& seg_fits(out@[k as int]@.len(), out_offset as nat, len as nat, h, k as nat, is_v6)
            &&& (is_tcp_gso(h) ==> (h.gso_size as nat) * k <= u32::MAX)
        }),
{
    let tcp = h.gso_type == VIRTIO_NET_HDR_GSO_TCPV4 || h.gso_type == VIRTIO_NET_HDR_GSO_TCPV6;
    let cs = h.csum_start as u128;
    let g = h.gso_size as u128;
    let kk = k as u128;
    assert(kk * g <= 0xFFFF_FFFF_FFFF_FFFF * 0xFFFF) by (nonlinear_arith)
        requires
            kk <= 0xFFFF_FFFF_FFFF_FFFF,
            g <= 0xFFFF,
    ;
    let start = h.hdr_len as u128 + kk * g;
    let n = len as u128;
    let data_len = if start + g > n { n - start } else { g };
    let tl = h.hdr_len as u128 + data_len;
    let ol = out[k].len() as u128;
    let base = out_offset as u128;
    let c_at = cs + h.csum_offset as u128;
    let fits = if tcp {
        base + tl <= ol && base + c_at + 2 <= ol && (if is_v6 { base + 6 <= ol && tl >= 40 } else { base + 12 <= ol })
            && base + cs + 8 <= ol && (!(start + g < n) || base + cs + 14 <= ol)
    } else {
        base + tl <= ol && base + c_at + 2 <= ol && (if is_v6 { base + 6 <= ol && tl >= 40 } else { base + 12 <= ol })
            && base + cs + 6 <= ol
    };
    let hdr_room = cs + (if tcp { 8 } else { 6 }) <= 0xFFFF;
    hdr_room && k < sizes_len && out_offset <= out[k].len() && fits && (!tcp || kk * g <= 0xFFFF_FFFF)
}

/// Fewer segments than needed start before the end of the packet; the next
/// one does not.
proof fn lemma_segments_needed(len: nat, h: VirtioNetHdr, k: nat)
    requires
        segments_needed(len, h) is Some,
    ensures
        (seg_data_start(h, k) < len) <==> k < segments_needed(len, h)->0,
{
    if h.hdr_len < len {
        let g = h.gso_size as nat;
        let d = (len - h.hdr_len) as nat;
        let n = ((d + g - 1) / (g as int)) as nat;
        assert(g > 0);
        assert((k * g < d) <==> k < n) by (nonlinear_arith)
            requires
                g > 0,
                d > 0,
                n == (d + g - 1) / (g as int),
        {
            assert(n * g <= d + g - 1);
            assert(n * g > d - 1);
            if k < n {
                assert(k * g <= (n - 1) * g);
            } else {
                assert(k * g >= n * g);
            }
        }
    } else {
        assert(k * (h.gso_size as nat) >= 0) by (nonlinear_arith);
    }
}


proof fn lemma_pseudo_bound(inp: Seq<u8>, h: VirtioNetHdr, k: nat, is_v6: bool)
    requires
        addr_offset(is_v6) + 2 * addr_length(is_v6) <= inp.len(),
    ensures
        seg_pseudo(inp, h, k, is_v6) <= 0x40_0000_0000,
{
    let ao = addr_offset(is_v6);
    let al = addr_length(is_v6);
    lemma_word_sum_bound(inp.subrange(ao, ao + al));
    lemma_word_sum_bound(inp.subrange(ao + al, ao + 2 * al));
}

/// Writes the IP header fields of segment `k` into `out` at `base`.
fn write_ip_header(out: &mut Vec<u8>, base: usize, len: usize, hdr: VirtioNetHdr, k: usize, is_v6: bool)
    requires
        len <= isize::MAX,
        seg_fits(old(out)@.len(), base as nat, len as nat, hdr, k as nat, is_v6),
        seg_data_start(hdr, k as nat) < len,
        hdr.hdr_len >= hdr.csum_start,
    ensures
        final(out)@ == seg_ip_header(old(out)@, base as int, len as nat, hdr, k as nat, is_v6),
{
    let olen = out.len();
    let ghost o1 = out@;
    let iph = hdr.csum_start as usize;
    let hl = hdr.hdr_len as usize;
    let gso = hdr.gso_size as usize;
    let start = hl + k * gso;
    let data_len = if start + gso > len {
        len - start
    } else {
        gso
    };
    let total_len = hl + data_len;
    assert(start == seg_data_start(hdr, k as nat));
    assert(total_len == seg_total_len(len as nat, hdr, k as nat));
    if !is_v6 {
        if k > 0 {
            let id = read_be16(out.as_slice(), base + 4);
            let kk = (k % 0x1_0000) as u16;
            let id = id.wrapping_add(kk);
            assert(id as nat == (be16_at(o1, base + 4) + k) % 0x1_0000);
            write_be16(out.as_mut_slice(), base + 4, id);
        }
        write_be16(out.as_mut_slice(), base + 2, (total_len % 0x1_0000) as u16);
        let ghost o3 = out@;
        assert(o3.len() == olen);
        proof {
            lemma_word_sum_bound(o3.subrange(base as int, base + iph));
        }
        let c = checksum(&out.as_slice()[base..base + iph], 0);
        proof {
            lemma_not16(c);
        }
        write_be16(out.as_mut_slice(), base + 10, !c);
    } else {
        write_be16(out.as_mut_slice(), base + 4, ((total_len - 40) % 0x1_0000) as u16);
    }
}

/// Writes the TCP or UDP header fields of segment `k` into `out` at `base`.
fn write_transport_header(
    out: &mut Vec<u8>,
    base: usize,
    inp: &[u8],
    hdr: VirtioNetHdr,
    k: usize,
    is_v6: bool,
    first_seq: u32,
    clear_flags: bool,
)
    requires
        inp@.len() <= isize::MAX,
        seg_fits(old(out)@.len(), base as nat, inp@.len(), hdr, k as nat, is_v6),
        seg_data_start(hdr, k as nat) < inp@.len(),
        hdr.hdr_len >= hdr.csum_start,
        is_tcp_gso(hdr) ==> first_seq == be32_at(inp@, hdr.csum_start + 4) && (hdr.gso_size as nat)
            * k <= u32::MAX,
        clear_flags == (seg_data_start(hdr, k as nat) + hdr.gso_size < inp@.len()),
    ensures
        final(out)@ == seg_transport_header(old(out)@, base as int, inp@, hdr, k as nat),
{
    let olen = out.len();
    let len = inp.len();
    let iph = hdr.csum_start as usize;
    let hl = hdr.hdr_len as usize;
    let gso = hdr.gso_size as usize;
    let start = hl + k * gso;
    let data_len = if start + gso > len {
        len - start
    } else {
        gso
    };
    assert(start == seg_data_start(hdr, k as nat));
    assert(data_len == seg_data_len(len as nat, hdr, k as nat));
    if hdr.gso_type == VIRTIO_NET_HDR_GSO_TCPV4 || hdr.gso_type == VIRTIO_NET_HDR_GSO_TCPV6 {
        let tcp_seq = if hdr.gso_size == 0 {
            assert((hdr.gso_size as nat) * k == 0) by (nonlinear_arith)
                requires
                    hdr.gso_size == 0,
            ;
            first_seq
        } else {
            assert(k <= u32::MAX) by (nonlinear_arith)
                requires
                    (hdr.gso_size as nat) * k <= u32::MAX,
                    hdr.gso_size >= 1,
            ;
            first_seq.wrapping_add(hdr.gso_size as u32 * k as u32)
        };
        assert(tcp_seq as nat == (first_seq + (hdr.gso_size as nat) * k) % 0x1_0000_0000);
        write_be32(out.as_mut_slice(), base + iph + 4, tcp_seq);
        if clear_flags {
            let f = out[base + iph + TCP_FLAGS_OFFSET];
            assert(f & !(TCP_FLAG_FIN | TCP_FLAG_PSH) == f & 0xF6u8) by (bit_vector);
            out.set(base + iph + TCP_FLAGS_OFFSET, f & !(TCP_FLAG_FIN | TCP_FLAG_PSH));
        }
    } else {
        let udp_len = ((data_len + (hdr.hdr_len - hdr.csum_start) as usize) % 0x1_0000) as u16;
        write_be16(out.as_mut_slice(), base + iph + 4, udp_len);
    }
}

/// Writes segment `k` of the cleared input `inp` into `out` from `base`.
#[verifier::rlimit(30)]
fn write_segment(
    out: &mut Vec<u8>,
    base: usize,
    inp: &[u8],
    hdr: VirtioNetHdr,
    k: usize,
    is_v6: bool,
    first_seq: u32,
    clear_flags: bool,
    csum_no_fold: u64,
)
    requires
        inp@.len() <= isize::MAX,
        base <= old(out)@.len(),
        seg_fits(old(out)@.len(), base as nat, inp@.len(), hdr, k as nat, is_v6),
        seg_data_start(hdr, k as nat) < inp@.len(),
        hdr.hdr_len >= hdr.csum_start,
        csum_at(hdr) <= u16::MAX,
        addr_offset(is_v6) + 2 * addr_length(is_v6) <= inp@.len(),
        is_tcp_gso(hdr) ==> first_seq == be32_at(inp@, hdr.csum_start + 4) && (hdr.gso_size as nat)
            * k <= u32::MAX,
        clear_flags == (seg_data_start(hdr, k as nat) + hdr.gso_size < inp@.len()),
        csum_no_fold == seg_pseudo(inp@, hdr, k as nat, is_v6),
    ensures
        final(out)@ == seg_out(old(out)@, base as int, inp@, hdr, k as nat, is_v6),
{
    let olen = out.len();
    let len = inp.len();
    let iph = hdr.csum_start as usize;
    let hl = hdr.hdr_len as usize;
    let gso = hdr.gso_size as usize;
    let start = hl + k * gso;
    let data_len = if start + gso > len {
        len - start
    } else {
        gso
    };
    let total_len = hl + data_len;
    assert(start == seg_data_start(hdr, k as nat));
    assert(data_len == seg_data_len(len as nat, hdr, k as nat));
    assert(total_len == seg_total_len(len as nat, hdr, k as nat));
    let ghost o = out@;
    copy_into(out, base, &inp[0..iph]);
    let ghost o1 = out@;
    assert(o1 == splice(o, base as int, inp@.subrange(0, iph as int)));
    write_ip_header(out, base, len, hdr, k, is_v6);
    let ghost o4 = out@;
    assert(o4.len() == olen);
    copy_into(out, base + iph, &inp[iph..hl]);
    let ghost o5 = out@;
    assert(o5 == splice(o4, base + iph, inp@.subrange(iph as int, hl as int)));
    write_transport_header(out, base, inp, hdr, k, is_v6, first_seq, clear_flags);
    let ghost o7 = out@;
    assert(o7.len() == olen);
    copy_into(out, base + hl, &inp[start..start + data_len]);
    let ghost o8 = out@;
    assert(o8 == splice(o7, base + hl, inp@.subrange(start as int, start + data_len)));
    assert(o8.len() == olen);
    proof {
        lemma_word_sum_bound(o8.subrange(base + iph, base + total_len));
        lemma_pseudo_bound(inp@, hdr, k as nat, is_v6);
    }
    let transport_csum = checksum(&out.as_slice()[base + iph..base + total_len], csum_no_fold);
    proof {
        lemma_not16(transport_csum);
    }
    let at = base + (hdr.csum_start + hdr.csum_offset) as usize;
    write_be16(out.as_mut_slice(), at, !transport_csum);
    proof {
        reveal(seg_out);
    }
}

/// Splits the GSO packet `input` described by `hdr` into segments written to
/// `out_bufs` from `out_offset`, recording each segment's length in
/// `sizes`, and returns the number of segments.
///
/// Each segment carries a copy of the headers with the lengths, the IPv4
/// identification and header checksum, the TCP sequence number (and, but on
/// the final segment, TCP FIN and PSH cleared) or the UDP length updated,
/// its share of the payload, and a fresh transport checksum. The IPv4 header
/// checksum and the transport checksum of `input` are cleared.
pub fn gso_split(
    input: &mut [u8],
    hdr: VirtioNetHdr,
    out_bufs: &mut Vec<Vec<u8>>,
    sizes: &mut [usize],
    out_offset: usize,
    is_v6: bool,
) -> (r: Result<usize, OffloadError>)
    requires
        gso_split_ok(old(input)@, hdr, old(out_bufs)@, old(sizes)@.len(), out_offset as nat, is_v6),
    ensures
        final(input)@ == split_input(old(input)@, hdr, is_v6),
        final(out_bufs)@.len() == old(out_bufs)@.len(),
        final(sizes)@.len() == old(sizes)@.len(),
        forall|k: int|
            0 <= k < segments_written(old(input)@.len(), hdr, old(out_bufs)@.len())
                ==> final(out_bufs)@[k]@ == seg_out(
                old(out_bufs)@[k]@,
                out_offset as int,
                split_input(old(input)@, hdr, is_v6),
                hdr,
                k as nat,
                is_v6,
            ),
        forall|k: int|
            0 <= k < segments_written(old(input)@.len(), hdr, old(out_bufs)@.len())
                ==> final(sizes)@[k] == seg_total_len(old(input)@.len(), hdr, k as nat),
        forall|k: int|
            segments_written(old(input)@.len(), hdr, old(out_bufs)@.len()) <= k < old(
                out_bufs,
            )@.len() ==> final(out_bufs)@[k] == old(out_bufs)@[k],
        forall|k: int|
            segments_written(old(input)@.len(), hdr, old(out_bufs)@.len()) <= k < old(
                sizes,
            )@.len() ==> final(sizes)@[k] == old(sizes)@[k],
        match segments_needed(old(input)@.len(), hdr) {
            Some(n) => if n <= old(out_bufs)@.len() {
                r == Ok::<usize, OffloadError>(n as usize)
            } else {
                r == Err::<usize, OffloadError>(OffloadError::TooManySegments)
            },
            None => r == Err::<usize, OffloadError>(OffloadError::TooManySegments),
        },
{
    let ghost inp0 = input@;
    let ghost outs0 = out_bufs@;
    let iph_len = hdr.csum_start as usize;
    let (src_addr_offset, addr_len) = if is_v6 {
        (IPV6_SRC_ADDR_OFFSET, 16usize)
    } else {
        input[10] = 0;
        input[11] = 0;
        (IPV4_SRC_ADDR_OFFSET, 4usize)
    };
    let transport_csum_at = (hdr.csum_start + hdr.csum_offset) as usize;
    input[transport_csum_at] = 0;
    input[transport_csum_at + 1] = 0;
    assert(input@ == split_input(inp0, hdr, is_v6));
    let is_tcp = hdr.gso_type == VIRTIO_NET_HDR_GSO_TCPV4 || hdr.gso_type
        == VIRTIO_NET_HDR_GSO_TCPV6;
    let (first_tcp_seq_num, protocol) = if is_tcp {
        (read_be32(input, hdr.csum_start as usize + 4), IPPROTO_TCP)
    } else {
        (0u32, IPPROTO_UDP)
    };
    let len = input.len();
    let input_ro: &[u8] = input;
    let src_addr_bytes = &input_ro[src_addr_offset..src_addr_offset + addr_len];
    let dst_addr_bytes = &input_ro[src_addr_offset + addr_len..src_addr_offset + 2 * addr_len];
    let transport_header_len = (hdr.hdr_len - hdr.csum_start) as usize;
    let nonlast_segment_data_len = hdr.gso_size as usize;
    let nonlast_len_for_pseudo = ((transport_header_len + nonlast_segment_data_len) % 0x1_0000) as u16;
    let nonlast_total_len = hdr.hdr_len as usize + nonlast_segment_data_len;
    proof {
        lemma_word_sum_bound(src_addr_bytes@);
        lemma_word_sum_bound(dst_addr_bytes@);
    }
    let nonlast_transport_csum_no_fold = pseudo_header_checksum_no_fold(
        protocol,
        src_addr_bytes,
        dst_addr_bytes,
        nonlast_len_for_pseudo,
    );
    let mut next_segment_data_at = hdr.hdr_len as usize;
    let mut i: usize = 0;
    let n_out = out_bufs.len();
    while next_segment_data_at < len
        invariant
            len == input_ro@.len(),
            input_ro@ == split_input(inp0, hdr, is_v6),
            gso_split_ok(inp0, hdr, outs0, sizes@.len(), out_offset as nat, is_v6),
            input@ == input_ro@,
            inp0 == old(input)@,
            outs0 == old(out_bufs)@,
            word_sum(src_addr_bytes@) <= 0x40_0000_0000,
            word_sum(dst_addr_bytes@) <= 0x40_0000_0000,
            n_out == out_bufs@.len(),
            n_out == outs0.len(),
            i <= n_out,
            next_segment_data_at == seg_data_start(hdr, i as nat),
            forall|j: nat| j < i ==> seg_data_start(hdr, j) < len,
            sizes@.len() == old(sizes)@.len(),
            forall|k: int|
                0 <= k < i ==> out_bufs@[k]@ == seg_out(outs0[k]@, out_offset as int, input_ro@, hdr, k as nat, is_v6),
            forall|k: int|
                0 <= k < i ==> sizes@[k] == seg_total_len(len as nat, hdr, k as nat),
            forall|k: int| i <= k < n_out ==> out_bufs@[k] == outs0[k],
            forall|k: int| i <= k < sizes@.len() ==> sizes@[k] == old(sizes)@[k],
            src_addr_bytes@ == input_ro@.subrange(addr_offset(is_v6), addr_offset(is_v6) + addr_length(is_v6)),
            dst_addr_bytes@ == input_ro@.subrange(addr_offset(is_v6) + addr_length(is_v6), addr_offset(is_v6) + 2 * addr_length(is_v6)),
            is_tcp == is_tcp_gso(hdr),
            protocol == if is_tcp { IPPROTO_TCP } else { IPPROTO_UDP },
            is_tcp ==> first_tcp_seq_num == be32_at(input_ro@, hdr.csum_start + 4),
            transport_header_len == hdr.hdr_len - hdr.csum_start,
            nonlast_total_len == hdr.hdr_len + hdr.gso_size,
            nonlast_transport_csum_no_fold == pseudo_header_sum(protocol, src_addr_bytes@, dst_addr_bytes@, nonlast_len_for_pseudo),
            nonlast_len_for_pseudo == ((transport_header_len + hdr.gso_size) % 0x1_0000) as u16,
        decreases n_out - i,
    {
        if i == n_out {
            proof {
                if let Some(m) = segments_needed(len as nat, hdr) {
                    lemma_segments_needed(len as nat, hdr, i as nat);
                }
            }
            assert(input@ == split_input(inp0, hdr, is_v6));
            return Err(OffloadError::TooManySegments);
        }
        let next_segment_end = next_segment_data_at + hdr.gso_size as usize;
        let (next_segment_end, segment_data_len, total_len, transport_csum_no_fold) =
            if next_segment_end > len {
                let last_segment_data_len = len - next_segment_data_at;
                let last_len_for_pseudo = ((transport_header_len + last_segment_data_len) % 0x1_0000) as u16;
                let last_total_len = hdr.hdr_len as usize + last_segment_data_len;
                let last_transport_csum_no_fold = pseudo_header_checksum_no_fold(
                    protocol,
                    src_addr_bytes,
                    dst_addr_bytes,
                    last_len_for_pseudo,
                );
                assert(last_total_len == seg_total_len(len as nat, hdr, i as nat));
                assert(last_transport_csum_no_fold == seg_pseudo(input_ro@, hdr, i as nat, is_v6));
                (len, last_segment_data_len, last_total_len, last_transport_csum_no_fold)
            } else {
                assert(nonlast_total_len == seg_total_len(len as nat, hdr, i as nat));
                assert(nonlast_transport_csum_no_fold == seg_pseudo(input_ro@, hdr, i as nat, is_v6));
                (
                    next_segment_end,
                    hdr.gso_size as usize,
                    nonlast_total_len,
                    nonlast_transport_csum_no_fold,
                )
            };
        assert(total_len == seg_total_len(len as nat, hdr, i as nat));
        assert(transport_csum_no_fold == seg_pseudo(input_ro@, hdr, i as nat, is_v6));
        let ghost prev_out = out_bufs@;
        let ghost prev_sizes = sizes@;
        sizes[i] = total_len;
        assert(sizes@ == prev_sizes.update(i as int, total_len));
        write_segment(
            &mut out_bufs[i],
            out_offset,
            input_ro,
            hdr,
            i,
            is_v6,
            first_tcp_seq_num,
            next_segment_end != len,
            transport_csum_no_fold,
        );
        assert(out_bufs@.len() == prev_out.len());
        assert(out_bufs@[i as int]@ == seg_out(outs0[i as int]@, out_offset as int, input_ro@, hdr, i as nat, is_v6));
        assert(forall|k: int| 0 <= k < out_bufs@.len() && k != i ==> out_bufs@[k] == prev_out[k]);
        next_segment_data_at = next_segment_data_at + hdr.gso_size as usize;
        i = i + 1;
        assert(next_segment_data_at == seg_data_start(hdr, i as nat)) by (nonlinear_arith)
            requires
                next_segment_data_at == seg_data_start(hdr, (i - 1) as nat) + hdr.gso_size,
                i >= 1,
        ;
        assert forall|k: int| 0 <= k < i implies {
            &&& out_bufs@[k]@ == seg_out(outs0[k]@, out_offset as int, input_ro@, hdr, k as nat, is_v6)
            &&& sizes@[k] == seg_total_len(len as nat, hdr, k as nat)
        } by {
            if k < i - 1 {
                assert(out_bufs@[k] == prev_out[k]);
                assert(sizes@[k] == prev_sizes[k]);
            }
        }
    }
    proof {
        match segments_needed(len as nat, hdr) {
            Some(m) => {
                lemma_segments_needed(len as nat, hdr, i as nat);
                if i > 0 {
                    lemma_segments_needed(len as nat, hdr, (i - 1) as nat);
                }
                assert(i == m);
            },
            None => {
                assert(seg_data_start(hdr, i as nat) == hdr.hdr_len) by (nonlinear_arith)
                    requires hdr.gso_size == 0;
            },
        }
    }
    Ok(i)
}

/// The TCP header length that the data offset nibble at `at` announces.
pub open spec fn tcp_header_len_at(s: Seq<u8>, at: int) -> nat {
    ((s[at] as nat) / 16) * 4
}

/// The validation of a received GSO packet before it is split: the GSO
/// type, its agreement with the IP version, and the header length taken
/// from the transport header (8 for UDP, the TCP data offset for TCP) in
/// place of the kernel's; `Ok` holds the header as it will be used, up to
/// the check of the checksum position.
pub open spec fn virtio_gso_header(h: VirtioNetHdr, input: Seq<u8>) -> Result<VirtioNetHdr, OffloadError> {
    let len = input.len();
    if h.gso_type != VIRTIO_NET_HDR_GSO_TCPV4 && h.gso_type != VIRTIO_NET_HDR_GSO_TCPV6
        && h.gso_type != VIRTIO_NET_HDR_GSO_UDP_L4 {
        Err(OffloadError::UnsupportedGsoType { gso_type: h.gso_type })
    } else if input[0] / 16 == 4 && h.gso_type != VIRTIO_NET_HDR_GSO_TCPV4 && h.gso_type
        != VIRTIO_NET_HDR_GSO_UDP_L4 {
        Err(OffloadError::GsoTypeMismatch { ip_version: 4, gso_type: h.gso_type })
    } else if input[0] / 16 == 6 && h.gso_type != VIRTIO_NET_HDR_GSO_TCPV6 && h.gso_type
        != VIRTIO_NET_HDR_GSO_UDP_L4 {
        Err(OffloadError::GsoTypeMismatch { ip_version: 6, gso_type: h.gso_type })
    } else if input[0] / 16 != 4 && input[0] / 16 != 6 {
        Err(OffloadError::InvalidIpVersion { ip_version: input[0] / 16 })
    } else if h.gso_type == VIRTIO_NET_HDR_GSO_UDP_L4 {
        Ok(VirtioNetHdr { hdr_len: (h.csum_start + 8) as u16, ..h })
    } else if len <= h.csum_start + 12 {
        Err(OffloadError::PacketTooShort)
    } else if tcp_header_len_at(input, h.csum_start + 12) < 20 || tcp_header_len_at(
        input,
        h.csum_start + 12,
    ) > 60 {
        Err(
            OffloadError::InvalidTcpHeaderLen {
                tcp_h_len: tcp_header_len_at(input, h.csum_start + 12) as u16,
            },
        )
    } else {
        Ok(
            VirtioNetHdr {
                hdr_len: (h.csum_start + tcp_header_len_at(input, h.csum_start + 12)) as u16,
                ..h
            },
        )
    }
}

/// The full validation of a received GSO packet: `virtio_gso_header`, then
/// the packet must hold the headers and the checksum field.
pub open spec fn virtio_split_header(h: VirtioNetHdr, input: Seq<u8>) -> Result<VirtioNetHdr, OffloadError> {
    match virtio_gso_header(h, input) {
        Err(e) => Err(e),
        Ok(h2) => if input.len() < h2.hdr_len {
            Err(OffloadError::HeaderLenExceedsPacket { len: input.len() as usize, hdr_len: h2.hdr_len })
        } else if h2.hdr_len < h2.csum_start {
            Err(OffloadError::HeaderLenBelowCsumStart { hdr_len: h2.hdr_len, csum_start: h2.csum_start })
        } else if csum_at(h2) + 1 >= input.len() {
            Err(OffloadError::CsumOffsetExceedsPacket { csum_end: (csum_at(h2) + 1) as usize, len: input.len() as usize })
        } else {
            Ok(h2)
        },
    }
}

/// What the validation of a received GSO packet guarantees: an IPv4 packet
/// is taken only as IPv4 TCP or UDP, an IPv6 packet only as IPv6 TCP or UDP,
/// and a type mismatch is reported exactly for the other combinations, with
/// the packet's IP version and the header's GSO type. An accepted header
/// keeps every field but the header length, which covers the IP header and
/// the UDP header or the TCP header the packet announces (where that sum
/// fits 16 bits).
pub proof fn lemma_virtio_split_header_types(h: VirtioNetHdr, input: Seq<u8>)
    requires
        input.len() >= 1,
    ensures
        ({
            let v = input[0] / 16;
            let known = h.gso_type == VIRTIO_NET_HDR_GSO_TCPV4 || h.gso_type == VIRTIO_NET_HDR_GSO_TCPV6 || h.gso_type
                == VIRTIO_NET_HDR_GSO_UDP_L4;
            let fits = (v == 4 && (h.gso_type == VIRTIO_NET_HDR_GSO_TCPV4 || h.gso_type == VIRTIO_NET_HDR_GSO_UDP_L4))
                || (v == 6 && (h.gso_type == VIRTIO_NET_HDR_GSO_TCPV6 || h.gso_type == VIRTIO_NET_HDR_GSO_UDP_L4));
            &&& (virtio_split_header(h, input) is Err && virtio_split_header(h, input)->Err_0 is GsoTypeMismatch) <==> (
            known && (v == 4 || v == 6) && !fits)
            &&& (virtio_split_header(h, input) matches Err(OffloadError::GsoTypeMismatch { ip_version, gso_type })
                ==> ip_version == v && gso_type == h.gso_type)
            &&& (virtio_split_header(h, input) is Ok ==> fits)
            &&& (virtio_split_header(h, input) matches Ok(h2) ==> {
                &&& h2.flags == h.flags && h2.gso_type == h.gso_type && h2.gso_size == h.gso_size
                &&& h2.csum_start == h.csum_start && h2.csum_offset == h.csum_offset
                &&& (h.gso_type == VIRTIO_NET_HDR_GSO_UDP_L4 && h.csum_start + 8 <= u16::MAX ==> h2.hdr_len
                    == h.csum_start + 8)
                &&& (h.gso_type != VIRTIO_NET_HDR_GSO_UDP_L4 && h.csum_start + 60 <= u16::MAX ==> h2.hdr_len
                    == h.csum_start + (input[h.csum_start + 12] / 16) * 4 && 20 <= h2.hdr_len - h.csum_start <= 60)
            })
        }),
{
}

/// The conditions under which `handle_virtio_read` runs without indexing
/// past a buffer or overflowing an integer.
pub open spec fn handle_virtio_read_ok(
    h: VirtioNetHdr,
    input: Seq<u8>,
    bufs: Seq<Vec<u8>>,
    sizes_len: nat,
    offset: nat,
) -> bool {
    if h.gso_type == VIRTIO_NET_HDR_GSO_NONE {
        &&& (h.flags & VIRTIO_NET_HDR_F_NEEDS_CSUM != 0 ==> gso_none_checksum_ok(input, h.csum_start, h.csum_offset))
        &&& bufs.len() >= 1
        &&& offset <= bufs[0]@.len()
        &&& sizes_len >= 1
    } else {
        &&& input.len() >= 1
        &&& input.len() <= isize::MAX
        &&& (h.gso_type == VIRTIO_NET_HDR_GSO_UDP_L4 ==> h.csum_start + 8 <= u16::MAX)
        &&& (h.gso_type != VIRTIO_NET_HDR_GSO_UDP_L4 && input.len() > h.csum_start + 12 ==> h.csum_start + tcp_header_len_at(input, h.csum_start + 12) <= u16::MAX)
        &&& (virtio_gso_header(h, input) is Ok ==> csum_at(h) <= u16::MAX)
        &&& (virtio_split_header(h, input) matches Ok(h2) ==> gso_split_ok(input, h2, bufs, sizes_len, offset, input[0] / 16 == 6))
    }
}

/// Whether [`gso_split`] may be called on these arguments: the value of
/// [`gso_split_ok`].
pub fn gso_split_admissible(
    input: &[u8],
    h: VirtioNetHdr,
    out: &Vec<Vec<u8>>,
    sizes_len: usize,
    out_offset: usize,
    is_v6: bool,
) -> (b: bool)
    ensures
        b == gso_split_ok(input@, h, out@, sizes_len as nat, out_offset as nat, is_v6),
{
    let len = input.len();
    let cs = h.csum_start as usize;
    let c_at = cs + h.csum_offset as usize;
    let tcp = h.gso_type == VIRTIO_NET_HDR_GSO_TCPV4 || h.gso_type == VIRTIO_NET_HDR_GSO_TCPV6;
    let (ao, al): (usize, usize) = if is_v6 { (8, 16) } else { (12, 4) };
    if !(len <= isize::MAX as usize && (is_v6 || len >= 12) && c_at <= 0xFFFF && c_at + 2 <= len && h.hdr_len
        >= h.csum_start && ao + 2 * al <= len && (!tcp || cs + 8 <= len)) {
        return false;
    }
    let n = out.len();
    let mut k: usize = 0;
    while k < n
        invariant
            n == out@.len(),
            len == input@.len(),
            k <= n,
            forall|j: nat|
                j < k && #[trigger] seg_data_start(h, j) < len ==> {
                    &&& h.csum_start + (if is_tcp_gso(h) { 8int } else { 6int }) <= u16::MAX
                    &&& j < sizes_len
                    &&& out_offset <= out@[j as int]@.len()
                    &&& seg_fits(out@[j as int]@.len(), out_offset as nat, len as nat, h, j, is_v6)
                    &&& (is_tcp_gso(h) ==> (h.gso_size as nat) * j <= u32::MAX)
                },
        decreases n - k,
    {
        let kk = k as u128;
        let g = h.gso_size as u128;
        assert(kk * g <= 0xFFFF_FFFF_FFFF_FFFF * 0xFFFF) by (nonlinear_arith)
            requires
                kk <= 0xFFFF_FFFF_FFFF_FFFF,
                g <= 0xFFFF,
        ;
        let start = h.hdr_len as u128 + kk * g;
        if start < len as u128 {
            if !segment_admissible(h, out, sizes_len, out_offset, is_v6, len, k) {
                assert(!(k < out@.len() && seg_data_start(h, k as nat) < len ==> {
                    &&& h.csum_start + (if is_tcp_gso(h) { 8int } else { 6int }) <= u16::MAX
                    &&& k < sizes_len
                    &&& out_offset <= out@[k as int]@.len()
                    &&& seg_fits(out@[k as int]@.len(), out_offset as nat, len as nat, h, k as nat, is_v6)
                    &&& (is_tcp_gso(h) ==> (h.gso_size as nat) * k <= u32::MAX)
                }));
                return false;
            }
        }
        k = k + 1;
    }
    true
}

/// The validation [`virtio_gso_header`], computed.
fn gso_header_of(h: VirtioNetHdr, input: &[u8]) -> (r: Result<VirtioNetHdr, OffloadError>)
    requires
        input@.len() >= 1,
        h.gso_type == VIRTIO_NET_HDR_GSO_UDP_L4 ==> h.csum_start + 8 <= u16::MAX,
        h.gso_type != VIRTIO_NET_HDR_GSO_UDP_L4 && input@.len() > h.csum_start + 12 ==> h.csum_start
            + tcp_header_len_at(input@, h.csum_start + 12) <= u16::MAX,
    ensures
        r == virtio_gso_header(h, input@),
{
    let mut hdr = h;
    let len = input.len();
    if hdr.gso_type != VIRTIO_NET_HDR_GSO_TCPV4 && hdr.gso_type != VIRTIO_NET_HDR_GSO_TCPV6
        && hdr.gso_type != VIRTIO_NET_HDR_GSO_UDP_L4 {
        return Err(OffloadError::UnsupportedGsoType { gso_type: hdr.gso_type });
    }
    let first = input[0];
    let ip_version = first >> 4;
    assert(first >> 4 == first / 16) by (bit_vector);
    if ip_version == 4 {
        if hdr.gso_type != VIRTIO_NET_HDR_GSO_TCPV4 && hdr.gso_type != VIRTIO_NET_HDR_GSO_UDP_L4 {
            return Err(OffloadError::GsoTypeMismatch { ip_version: 4, gso_type: hdr.gso_type });
        }
    } else if ip_version == 6 {
        if hdr.gso_type != VIRTIO_NET_HDR_GSO_TCPV6 && hdr.gso_type != VIRTIO_NET_HDR_GSO_UDP_L4 {
            return Err(OffloadError::GsoTypeMismatch { ip_version: 6, gso_type: hdr.gso_type });
        }
    } else {
        return Err(OffloadError::InvalidIpVersion { ip_version });
    }
    if hdr.gso_type == VIRTIO_NET_HDR_GSO_UDP_L4 {
        hdr.hdr_len = hdr.csum_start + 8;
    } else {
        if len <= hdr.csum_start as usize + 12 {
            return Err(OffloadError::PacketTooShort);
        }
        let b = input[hdr.csum_start as usize + 12];
        assert((b as u16) >> 4 == (b as u16) / 16) by (bit_vector);
        let tcp_h_len = ((b as u16) >> 4) * 4;
        if !(20 <= tcp_h_len && tcp_h_len <= 60) {
            return Err(OffloadError::InvalidTcpHeaderLen { tcp_h_len });
        }
        hdr.hdr_len = hdr.csum_start + tcp_h_len;
    }
    Ok(hdr)
}

/// Whether [`handle_virtio_read`] may be called on these arguments: the
/// value of [`handle_virtio_read_ok`], for a packet of up to 2^32 bytes (a
/// larger one needing a checksum without GSO is refused here).
pub fn handle_virtio_read_admissible(
    hdr: VirtioNetHdr,
    input: &[u8],
    bufs: &Vec<Vec<u8>>,
    sizes_len: usize,
    offset: usize,
) -> (b: bool)
    ensures
        b ==> handle_virtio_read_ok(hdr, input@, bufs@, sizes_len as nat, offset as nat),
        input@.len() <= 0x1_0000_0000 ==> (b == handle_virtio_read_ok(hdr, input@, bufs@, sizes_len as nat, offset as nat)),
{
    let len = input.len();
    if hdr.gso_type == VIRTIO_NET_HDR_GSO_NONE {
        if hdr.flags & VIRTIO_NET_HDR_F_NEEDS_CSUM != 0 {
            let at = hdr.csum_start as usize + hdr.csum_offset as usize;
            if !(at <= 0xFFFF && at + 2 <= len && (len as u64) <= 0x1_0000_0000u64) {
                return false;
            }
            proof {
                let s = input@;
                let x = s.update(at as int, 0).update(at + 1, 0).subrange(hdr.csum_start as int, s.len() as int);
                lemma_word_sum_bound(x);
                assert(be16_at(s, at as int) <= 0xFFFF);
            }
        }
        return bufs.len() >= 1 && offset <= bufs[0].len() && sizes_len >= 1;
    }
    if !(len >= 1 && len <= isize::MAX as usize) {
        return false;
    }
    let cs = hdr.csum_start as usize;
    if hdr.gso_type == VIRTIO_NET_HDR_GSO_UDP_L4 {
        if cs + 8 > 0xFFFF {
            return false;
        }
    } else if len > cs + 12 {
        let b0 = input[cs + 12];
        assert((b0 as usize) >> 4 == (b0 as usize) / 16) by (bit_vector);
        if cs + ((b0 as usize) >> 4) * 4 > 0xFFFF {
            return false;
        }
    }
    let h2 = match gso_header_of(hdr, input) {
        Err(_) => return true,
        Ok(h2) => h2,
    };
    if cs + hdr.csum_offset as usize > 0xFFFF {
        return false;
    }
    if len < h2.hdr_len as usize || h2.hdr_len < h2.csum_start || cs + h2.csum_offset as usize + 1 >= len {
        return true;
    }
    let first = input[0];
    assert(first >> 4 == first / 16) by (bit_vector);
    gso_split_admissible(input, h2, bufs, sizes_len, offset, (first >> 4) == 6)
}

/// Turns what was read from a TUN device with offload enabled (the packet
/// that follows the virtio header `hdr`) into packets in `bufs` from
/// `offset`, recording their lengths in `sizes`, and returns their number.
///
/// A packet without GSO is completed with its checksum where the header
/// asks for it and copied to the first buffer; a GSO packet is validated
/// (see [`virtio_split_header`]) and split with [`gso_split`].
pub fn handle_virtio_read(
    hdr: VirtioNetHdr,
    input: &mut [u8],
    bufs: &mut Vec<Vec<u8>>,
    sizes: &mut [usize],
    offset: usize,
) -> (r: Result<usize, OffloadError>)
    requires
        handle_virtio_read_ok(hdr, old(input)@, old(bufs)@, old(sizes)@.len(), offset as nat),
    ensures
        final(bufs)@.len() == old(bufs)@.len(),
        final(sizes)@.len() == old(sizes)@.len(),
        hdr.gso_type == VIRTIO_NET_HDR_GSO_NONE ==> {
            let done = if hdr.flags & VIRTIO_NET_HDR_F_NEEDS_CSUM != 0 {
                gso_none_checksum_result(old(input)@, hdr.csum_start, hdr.csum_offset)
            } else {
                old(input)@
            };
            &&& final(input)@ == done
            &&& if old(bufs)@[0]@.len() - offset < done.len() {
                &&& r == Err::<usize, OffloadError>(OffloadError::ReadOverflowsBuffer { read_len: done.len() as usize, buf_len: old(bufs)@[0]@.len() as usize })
                &&& final(bufs)@ == old(bufs)@
                &&& final(sizes)@ == old(sizes)@
            } else {
                &&& r == Ok::<usize, OffloadError>(1)
                &&& final(sizes)@ == old(sizes)@.update(0, done.len() as usize)
                &&& final(bufs)@.len() == old(bufs)@.len()
                &&& final(bufs)@[0]@ == splice(old(bufs)@[0]@, offset as int, done)
                &&& forall|k: int| 1 <= k < old(bufs)@.len() ==> final(bufs)@[k] == old(bufs)@[k]
            }
        },
        hdr.gso_type != VIRTIO_NET_HDR_GSO_NONE ==> match virtio_split_header(hdr, old(input)@) {
            Err(e) => {
                &&& r == Err::<usize, OffloadError>(e)
                &&& final(input)@ == old(input)@
                &&& final(bufs)@ == old(bufs)@
                &&& final(sizes)@ == old(sizes)@
            },
            Ok(h2) => {
                let is_v6 = old(input)@[0] / 16 == 6;
                let written = segments_written(old(input)@.len(), h2, old(bufs)@.len());
                &&& final(input)@ == split_input(old(input)@, h2, is_v6)
                &&& forall|k: int| 0 <= k < written ==> final(bufs)@[k]@ == seg_out(old(bufs)@[k]@, offset as int, split_input(old(input)@, h2, is_v6), h2, k as nat, is_v6)
                &&& forall|k: int| 0 <= k < written ==> final(sizes)@[k] == seg_total_len(old(input)@.len(), h2, k as nat)
                &&& forall|k: int| written <= k < old(bufs)@.len() ==> final(bufs)@[k] == old(bufs)@[k]
                &&& forall|k: int| written <= k < old(sizes)@.len() ==> final(sizes)@[k] == old(sizes)@[k]
                &&& match segments_needed(old(input)@.len(), h2) {
                    Some(n) => if n <= old(bufs)@.len() {
                        r == Ok::<usize, OffloadError>(n as usize)
                    } else {
                        r == Err::<usize, OffloadError>(OffloadError::TooManySegments)
                    },
                    None => r == Err::<usize, OffloadError>(OffloadError::TooManySegments),
                }
            },
        },
{
    let ghost hdr0 = hdr;
    let mut hdr = hdr;
    let len = input.len();
    if hdr.gso_type == VIRTIO_NET_HDR_GSO_NONE {
        if hdr.flags & VIRTIO_NET_HDR_F_NEEDS_CSUM != 0 {
            gso_none_checksum(input, hdr.csum_start, hdr.csum_offset);
        }
        let buf_len = bufs[0].len();
        if buf_len - offset < len {
            return Err(OffloadError::ReadOverflowsBuffer { read_len: len, buf_len });
        }
        sizes[0] = len;
        let input_ro: &[u8] = input;
        copy_into(&mut bufs[0], offset, input_ro);
        return Ok(1);
    }
    if hdr.gso_type != VIRTIO_NET_HDR_GSO_TCPV4 && hdr.gso_type != VIRTIO_NET_HDR_GSO_TCPV6
        && hdr.gso_type != VIRTIO_NET_HDR_GSO_UDP_L4 {
        return Err(OffloadError::UnsupportedGsoType { gso_type: hdr.gso_type });
    }
    let first = input[0];
    let ip_version = first >> 4;
    assert(first >> 4 == first / 16) by (bit_vector);
    if ip_version == 4 {
        if hdr.gso_type != VIRTIO_NET_HDR_GSO_TCPV4 && hdr.gso_type != VIRTIO_NET_HDR_GSO_UDP_L4 {
            return Err(OffloadError::GsoTypeMismatch { ip_version: 4, gso_type: hdr.gso_type });
        }
    } else if ip_version == 6 {
        if hdr.gso_type != VIRTIO_NET_HDR_GSO_TCPV6 && hdr.gso_type != VIRTIO_NET_HDR_GSO_UDP_L4 {
            return Err(OffloadError::GsoTypeMismatch { ip_version: 6, gso_type: hdr.gso_type });
        }
    } else {
        return Err(OffloadError::InvalidIpVersion { ip_version });
    }
    if hdr.gso_type == VIRTIO_NET_HDR_GSO_UDP_L4 {
        hdr.hdr_len = hdr.csum_start + 8;
    } else {
        if len <= hdr.csum_start as usize + 12 {
            return Err(OffloadError::PacketTooShort);
        }
        let b = input[hdr.csum_start as usize + 12];
        assert((b as u16) >> 4 == (b as u16) / 16) by (bit_vector);
        let tcp_h_len = ((b as u16) >> 4) * 4;
        if !(20 <= tcp_h_len && tcp_h_len <= 60) {
            return Err(OffloadError::InvalidTcpHeaderLen { tcp_h_len });
        }
        hdr.hdr_len = hdr.csum_start + tcp_h_len;
    }
    if len < hdr.hdr_len as usize {
        return Err(OffloadError::HeaderLenExceedsPacket { len, hdr_len: hdr.hdr_len });
    }
    if hdr.hdr_len < hdr.csum_start {
        return Err(OffloadError::HeaderLenBelowCsumStart { hdr_len: hdr.hdr_len, csum_start: hdr.csum_start });
    }
    let c_sum_at = (hdr.csum_start + hdr.csum_offset) as usize;
    if c_sum_at + 1 >= len {
        return Err(OffloadError::CsumOffsetExceedsPacket { csum_end: c_sum_at + 1, len });
    }
    assert(virtio_split_header(hdr0, input@) == Ok::<VirtioNetHdr, OffloadError>(hdr));
    gso_split(input, hdr, bufs, sizes, offset, ip_version == 6)
}

/// Segment `k` of a packet that needs more than `k` segments starts within
/// the packet and holds between one and `gso_size` bytes; all but the last
/// hold `gso_size`; the next one starts `gso_size` bytes later.
proof fn lemma_segment_bounds(len: nat, h: VirtioNetHdr, k: nat)
    requires
        segments_needed(len, h) is Some,
        k < segments_needed(len, h)->0,
    ensures
        seg_data_start(h, k) < len,
        1 <= seg_data_len(len, h, k) <= h.gso_size,
        seg_data_start(h, k + 1) == seg_data_start(h, k) + h.gso_size,
        k + 1 < segments_needed(len, h)->0 ==> seg_data_len(len, h, k) == h.gso_size,
        k + 1 == segments_needed(len, h)->0 ==> seg_data_start(h, k) + seg_data_len(len, h, k) == len,
{
    let g = h.gso_size as nat;
    assert((k + 1) * g == k * g + g) by (nonlinear_arith);
    lemma_segments_needed(len, h, k);
    lemma_segments_needed(len, h, k + 1);
}

/// The segments of a GSO packet of `len` bytes cut its payload into
/// consecutive pieces: each starts where the one before ends, all but the
/// last hold `gso_size` bytes, none is empty or larger, and the last ends
/// where the packet ends.
pub proof fn lemma_segments_partition(len: nat, h: VirtioNetHdr)
    requires
        segments_needed(len, h) is Some,
    ensures
        forall|k: nat| k < segments_needed(len, h)->0 ==> #[trigger] seg_data_start(h, k) < len,
        forall|k: nat| #![trigger seg_data_len(len, h, k)] k < segments_needed(len, h)->0 ==> 1 <= seg_data_len(len, h, k) <= h.gso_size,
        forall|k: nat| k + 1 < segments_needed(len, h)->0 ==> #[trigger] seg_data_len(len, h, k) == h.gso_size,
        forall|k: nat|
            k < segments_needed(len, h)->0 ==> #[trigger] seg_data_start(h, k + 1) == seg_data_start(h, k) + h.gso_size,
        segments_needed(len, h)->0 > 0 ==> seg_data_start(h, (segments_needed(len, h)->0 - 1) as nat) + seg_data_len(
            len,
            h,
            (segments_needed(len, h)->0 - 1) as nat,
        ) == len,
{
    let n = segments_needed(len, h)->0;
    assert forall|k: nat| k < n implies #[trigger] seg_data_start(h, k) < len by {
        lemma_segment_bounds(len, h, k);
    }
    assert forall|k: nat| #![trigger seg_data_len(len, h, k)] k < n implies 1 <= seg_data_len(len, h, k) <= h.gso_size by {
        lemma_segment_bounds(len, h, k);
    }
    assert forall|k: nat| k + 1 < n implies #[trigger] seg_data_len(len, h, k) == h.gso_size by {
        lemma_segment_bounds(len, h, k);
    }
    assert forall|k: nat| k < n implies #[trigger] seg_data_start(h, k + 1) == seg_data_start(h, k) + h.gso_size by {
        lemma_segment_bounds(len, h, k);
    }
    if n > 0 {
        lemma_segment_bounds(len, h, (n - 1) as nat);
    }
}

/// Every IPv4 segment that [`gso_split`] writes carries an IP header
/// checksum that verifies, where the input's header checksum is cleared (as
/// [`split_input`] leaves it) and the IP header holds at least the 12
/// bytes up to and with that checksum, within the headers.
pub proof fn lemma_segment_ip_checksum_verifies(o: Seq<u8>, base: nat, inp: Seq<u8>, h: VirtioNetHdr, k: nat)
    requires
        seg_fits(o.len(), base, inp.len(), h, k, false),
        seg_data_start(h, k) < inp.len(),
        12 <= h.csum_start <= h.hdr_len,
        inp[10] == 0,
        inp[11] == 0,
    ensures
        checksum_spec(seg_out(o, base as int, inp, h, k, false).subrange(base as int, base + h.csum_start), 0) == 0xFFFF,
{
    reveal(seg_out);
    let b = base as int;
    let iph = h.csum_start as int;
    let hl = h.hdr_len as int;
    let start = seg_data_start(h, k) as int;
    let dl = seg_data_len(inp.len(), h, k) as int;
    let tl = seg_total_len(inp.len(), h, k) as int;
    let o1 = splice(o, b, inp.subrange(0, iph));
    let o2 = if k > 0 {
        put_be16(o1, b + 4, ((be16_at(o1, b + 4) + k) % 0x1_0000) as u16)
    } else {
        o1
    };
    let o3 = put_be16(o2, b + 2, (tl % 0x1_0000) as u16);
    let r0 = o3.subrange(b, b + iph);
    let c = not16(checksum_spec(r0, 0)) as u16;
    let o4 = put_be16(o3, b + 10, c);
    assert(o4 == seg_ip_header(o1, b, inp.len(), h, k, false));
    let o5 = splice(o4, b + iph, inp.subrange(iph, hl));
    let o7 = seg_transport_header(o5, b, inp, h, k);
    let o8 = splice(o7, b + hl, inp.subrange(start, start + dl));
    let out = seg_out(o, b, inp, h, k, false);
    assert(o5.subrange(b, b + iph) =~= o4.subrange(b, b + iph));
    assert(o7.subrange(b, b + iph) =~= o4.subrange(b, b + iph));
    assert(o8.subrange(b, b + iph) =~= o4.subrange(b, b + iph));
    assert(out.subrange(b, b + iph) =~= o4.subrange(b, b + iph));
    assert(o4.subrange(b, b + iph) =~= put_be16(r0, 10, c));
    assert(be16_at(r0, 10) == 0);
    lemma_complement_verifies(r0, 10, 0);
}

/// Writing a 16-bit word at an even position changes the 16-bit word sum by
/// the difference between the new word and the old.
proof fn lemma_sum16_put(r: Seq<u8>, k: int, v: u16)
    requires
        0 <= k,
        k % 2 == 0,
        k + 2 <= r.len(),
    ensures
        sum16(put_be16(r, k, v)) + be16_at(r, k) == sum16(r) + v,
    decreases k,
{
    let r2 = put_be16(r, k, v);
    let t = r.subrange(2, r.len() as int);
    let t2 = r2.subrange(2, r2.len() as int);
    if k == 0 {
        assert(t2 =~= t);
        assert(be16_at(r2, 0) == v);
    } else {
        assert(t2 =~= put_be16(t, k - 2, v));
        lemma_sum16_put(t, k - 2, v);
        assert(be16_at(r2, 0) == be16_at(r, 0));
        assert(be16_at(t, k - 2) == be16_at(r, k));
    }
}

/// Adding the complement of the fold of a sum to that sum folds to all ones.
proof fn lemma_fold16_complement(a: nat)
    ensures
        fold16(a + not16(fold16(a))) == 0xFFFF,
{
    let m: int = 0xFFFF;
    if a != 0 && a % 0xFFFF != 0 {
        lemma_fundamental_div_mod(a as int, m);
        let q: int = a as int / m;
        assert(a + not16(fold16(a)) == m * (q + 1));
        lemma_mod_multiples_vanish(q + 1, 0, m);
    }
}

/// Storing the complement of the checksum of `r0` (seeded with `seed`) in a
/// zero 16-bit field of `r0` at an even position makes `r0` verify: its
/// checksum, seeded the same way, becomes all ones.
proof fn lemma_complement_verifies(r0: Seq<u8>, off: int, seed: nat)
    requires
        0 <= off,
        off % 2 == 0,
        off + 2 <= r0.len(),
        be16_at(r0, off) == 0,
    ensures
        checksum_spec(put_be16(r0, off, not16(checksum_spec(r0, seed)) as u16), seed) == 0xFFFF,
{
    let c = not16(checksum_spec(r0, seed)) as u16;
    lemma_sum16_put(r0, off, c);
    lemma_checksum_is_rfc1071(r0, seed);
    lemma_checksum_is_rfc1071(put_be16(r0, off, c), seed);
    lemma_fold16_complement(seed + sum16(r0));
}

/// The packet that [`gso_none_checksum`] leaves verifies: where its checksum
/// field lies an even number of bytes after `csum_start`, the checksum from
/// `csum_start` on, seeded with the value the field held before, is all
/// ones.
pub proof fn lemma_gso_none_checksum_verifies(s: Seq<u8>, csum_start: u16, csum_offset: u16)
    requires
        gso_none_checksum_ok(s, csum_start, csum_offset),
        csum_offset % 2 == 0,
    ensures
        checksum_spec(
            gso_none_checksum_result(s, csum_start, csum_offset).subrange(csum_start as int, s.len() as int),
            be16_at(s, csum_start + csum_offset),
        ) == 0xFFFF,
{
    let at = csum_start as int + csum_offset as int;
    let init = be16_at(s, at);
    let cleared = s.update(at, 0).update(at + 1, 0);
    let r0 = cleared.subrange(csum_start as int, s.len() as int);
    let c = not16(checksum_spec(r0, init)) as u16;
    let res = put_be16(cleared, at, c);
    assert(res.subrange(csum_start as int, s.len() as int) =~= put_be16(r0, csum_offset as int, c));
    assert(be16_at(r0, csum_offset as int) == 0);
    lemma_complement_verifies(r0, csum_offset as int, init);
}

/// The transport checksum field misses the fields that [`gso_split`]
/// rewrites in each segment: for TCP the sequence number (bytes 4 to 7)
/// and the flags (byte 13), for UDP the length (bytes 4 and 5).
pub open spec fn csum_field_clear(h: VirtioNetHdr) -> bool {
    let co = h.csum_offset as int;
    if is_tcp_gso(h) {
        co + 2 <= 4 || (8 <= co && co + 2 <= 13) || co >= 14
    } else {
        co + 2 <= 4 || co >= 6
    }
}

/// Every segment that [`gso_split`] writes carries a transport checksum that
/// verifies against the segment's pseudo-header sum, where the input's
/// checksum field is cleared (as [`split_input`] leaves it) and lies an even
/// number of bytes into the transport header, clear of the fields rewritten
/// per segment, within the headers.
pub proof fn lemma_segment_checksum_verifies(o: Seq<u8>, base: nat, inp: Seq<u8>, h: VirtioNetHdr, k: nat, is_v6: bool)
    requires
        seg_fits(o.len(), base, inp.len(), h, k, is_v6),
        seg_data_start(h, k) < inp.len(),
        h.csum_offset % 2 == 0,
        csum_field_clear(h),
        csum_at(h) + 2 <= h.hdr_len,
        inp[csum_at(h)] == 0,
        inp[csum_at(h) + 1] == 0,
    ensures
        checksum_spec(
            seg_out(o, base as int, inp, h, k, is_v6).subrange(
                base + h.csum_start,
                (base + seg_total_len(inp.len(), h, k)) as int,
            ),
            seg_pseudo(inp, h, k, is_v6),
        ) == 0xFFFF,
{
    reveal(seg_out);
    let b = base as int;
    let iph = h.csum_start as int;
    let hl = h.hdr_len as int;
    let start = seg_data_start(h, k) as int;
    let dl = seg_data_len(inp.len(), h, k) as int;
    let tl = seg_total_len(inp.len(), h, k) as int;
    let at = b + csum_at(h);
    let o1 = splice(o, b, inp.subrange(0, iph));
    let o4 = seg_ip_header(o1, b, inp.len(), h, k, is_v6);
    let o5 = splice(o4, b + iph, inp.subrange(iph, hl));
    let o7 = seg_transport_header(o5, b, inp, h, k);
    let o8 = splice(o7, b + hl, inp.subrange(start, start + dl));
    assert(o1.len() == o.len());
    assert(o4.len() == o.len());
    assert(o5.len() == o.len());
    assert(o5[at] == 0 && o5[at + 1] == 0);
    assert(o7.len() == o.len());
    assert(o7[at] == 0 && o7[at + 1] == 0);
    assert(o8[at] == 0 && o8[at + 1] == 0);
    let seed = seg_pseudo(inp, h, k, is_v6);
    let r0 = o8.subrange(b + iph, b + tl);
    let c = not16(checksum_spec(r0, seed)) as u16;
    assert(put_be16(o8, at, c).subrange(b + iph, b + tl) =~= put_be16(r0, h.csum_offset as int, c));
    assert(be16_at(r0, h.csum_offset as int) == 0);
    lemma_complement_verifies(r0, h.csum_offset as int, seed);
}

} // verus!
