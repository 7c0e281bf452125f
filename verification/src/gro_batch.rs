//! GRO over a batch of buffers: every packet is classified and offered to
//! the TCP or UDP table, and the coalesced packets then get their length
//! fields, checksums and virtio headers rewritten.
use crate::byte_order::{be16_at, lemma_be16_roundtrip, not16, put_be16, splice, write_be16, copy_into};
use crate::checksum::{checksum, checksum_spec, fold16, lemma_word_sum_bound, pseudo_header_checksum_no_fold, pseudo_header_sum, word_sum};
use crate::gro::{
    ExpandBuffer, empty_pool,
    packet_is_gro_candidate, tcp_gro, udp_gro,
    addr_layout, bytes_of, caps_ok, flow_position, flows_insert, keys_distinct, pkt_of, swap_at, tcp_candidate_shape, tcp_coalesce,
    tcp_coalescible, tcp_flow_key, tcp_flows_ok, tcp_gro_parse, tcp_gro_spec, tcp_indices_distinct, tcp_item, tcp_item_ok, tcp_scan,
    tcp_uses, lemma_tcp_flows_ok_remove, udp_candidate_shape, udp_coalesce, udp_coalescible, udp_flow_key, udp_flows_ok, udp_gro_parse, udp_gro_spec, udp_item,
    udp_item_ok, CanCoalesce, CoalesceResult, GroResult, TcpFlowKey, TcpGROItem, TcpGROTable, TcpSegmentInfo, UdpFlowKey, UdpGROItem,
    UdpGROTable, gro_candidate, GroCandidateType,
};
use crate::gso::{lemma_not16, IPPROTO_TCP, IPPROTO_UDP, IPV4_SRC_ADDR_OFFSET, IPV6_SRC_ADDR_OFFSET};
use crate::virtio::{
    host_is_little_endian, IDEAL_BATCH_SIZE,
    hdr_bytes, hdr_from_bytes, lemma_hdr_roundtrip, write_hdr, zero_hdr, OffloadError, VirtioNetHdr, VIRTIO_NET_HDR_F_NEEDS_CSUM, VIRTIO_NET_HDR_GSO_TCPV4,
    VIRTIO_NET_HDR_GSO_TCPV6, VIRTIO_NET_HDR_GSO_UDP_L4, VIRTIO_NET_HDR_LEN,
};
use vstd::prelude::*;

verus! {

/// The value a 16-bit length field gets for a packet of `len` bytes minus
/// `iph` header bytes: the length is taken modulo 2^16 and the difference
/// wraps.
pub open spec fn len_field(len: nat, iph: u8) -> u16 {
    let l = len % 0x1_0000;
    if l >= iph {
        (l - iph) as u16
    } else {
        (l - iph + 0x1_0000) as u16
    }
}

/// `buf` with the IP length field of the packet at `o` recomputed for the
/// packet's length: the payload length of IPv6, or the total length of
/// IPv4 followed by a fresh header checksum over the `iph` header bytes.
pub open spec fn ip_lengths_fixed(buf: Seq<u8>, o: int, iph: u8, is_v6: bool) -> Seq<u8> {
    let len = (buf.len() - o) as nat;
    if is_v6 {
        put_be16(buf, o + 4, len_field(len, iph))
    } else {
        let cleared = put_be16(buf.update(o + 10, 0).update(o + 11, 0), o + 2, (len % 0x1_0000) as u16);
        put_be16(cleared, o + 10, not16(checksum_spec(cleared.subrange(o, o + iph), 0)) as u16)
    }
}

/// The item's packet (at `o` in a buffer of `len` bytes) has its headers,
/// with room for a virtio header before it.
pub open spec fn tcp_item_accountable(item: TcpGROItem, len: nat, o: int) -> bool {
    &&& VIRTIO_NET_HDR_LEN <= o
    &&& item.iph_len == (if item.key.is_v6 { 40int } else { 20int })
    &&& o + item.iph_len + 20 <= len
}

/// As [`tcp_item_accountable`], for a UDP item.
pub open spec fn udp_item_accountable(item: UdpGROItem, len: nat, o: int) -> bool {
    &&& VIRTIO_NET_HDR_LEN <= o
    &&& item.iph_len == (if item.key.is_v6 { 40int } else { 20int })
    &&& o + item.iph_len + 8 <= len
}

/// The virtio header of a coalesced TCP packet: checksum needed from the
/// TCP header on, and segmentation into `gso_size` segments.
pub open spec fn tcp_gro_hdr(item: TcpGROItem) -> VirtioNetHdr {
    VirtioNetHdr {
        flags: VIRTIO_NET_HDR_F_NEEDS_CSUM,
        gso_type: if item.key.is_v6 { VIRTIO_NET_HDR_GSO_TCPV6 } else { VIRTIO_NET_HDR_GSO_TCPV4 },
        hdr_len: (item.iph_len + item.tcph_len) as u16,
        gso_size: item.gso_size,
        csum_start: item.iph_len as u16,
        csum_offset: 16,
    }
}

/// The virtio header of a coalesced UDP packet.
pub open spec fn udp_gro_hdr(item: UdpGROItem) -> VirtioNetHdr {
    VirtioNetHdr {
        flags: VIRTIO_NET_HDR_F_NEEDS_CSUM,
        gso_type: VIRTIO_NET_HDR_GSO_UDP_L4,
        hdr_len: (item.iph_len + 8) as u16,
        gso_size: item.gso_size,
        csum_start: item.iph_len as u16,
        csum_offset: 6,
    }
}

/// The pseudo-header sum of the transport protocol `proto` over the
/// addresses of the packet at `o` in `buf`.
pub open spec fn pseudo_sum_at(buf: Seq<u8>, o: int, proto: u8, is_v6: bool, transport_len: u16) -> nat {
    let (at, size) = addr_layout(is_v6);
    pseudo_header_sum(proto, buf.subrange(o + at, o + at + size), buf.subrange(o + at + size, o + at + 2 * size), transport_len)
}

/// The buffer of a TCP item after accounting: a packet with merges gets its
/// IP length fields, the virtio header [`tcp_gro_hdr`] and, in the TCP
/// checksum field, the folded pseudo-header sum; any other gets a zero
/// virtio header.
pub open spec fn tcp_accounted(buf: Seq<u8>, item: TcpGROItem, o: int, little: bool) -> Seq<u8> {
    if item.num_merged > 0 {
        let tlen = len_field((buf.len() - o) as nat, item.iph_len);
        let fixed = splice(ip_lengths_fixed(buf, o, item.iph_len, item.key.is_v6), o - 12, hdr_bytes(tcp_gro_hdr(item), little));
        put_be16(fixed, o + item.iph_len + 16, fold16(pseudo_sum_at(fixed, o, 6, item.key.is_v6, tlen)) as u16)
    } else {
        splice(buf, o - 12, hdr_bytes(zero_hdr(), little))
    }
}

/// The buffer of a UDP item after accounting, as [`tcp_accounted`] with the
/// UDP length field set as well.
pub open spec fn udp_accounted(buf: Seq<u8>, item: UdpGROItem, o: int, little: bool) -> Seq<u8> {
    if item.num_merged > 0 {
        let tlen = len_field((buf.len() - o) as nat, item.iph_len);
        let fixed = splice(ip_lengths_fixed(buf, o, item.iph_len, item.key.is_v6), o - 12, hdr_bytes(udp_gro_hdr(item), little));
        let sized = put_be16(fixed, o + item.iph_len + 4, tlen);
        put_be16(sized, o + item.iph_len + 6, fold16(pseudo_sum_at(sized, o, 17, item.key.is_v6, tlen)) as u16)
    } else {
        splice(buf, o - 12, hdr_bytes(zero_hdr(), little))
    }
}

/// After accounting, the virtio header in front of a TCP item's packet
/// decodes to [`tcp_gro_hdr`] where the item has merges, and to the zero
/// header otherwise; the packet keeps its length.
pub proof fn lemma_tcp_accounted_header(buf: Seq<u8>, item: TcpGROItem, o: int, little: bool)
    requires
        tcp_item_accountable(item, buf.len(), o),
    ensures
        tcp_accounted(buf, item, o, little).len() == buf.len(),
        hdr_from_bytes(tcp_accounted(buf, item, o, little).subrange(o - 12, o), little) == (if item.num_merged > 0 {
            tcp_gro_hdr(item)
        } else {
            zero_hdr()
        }),
        item.num_merged > 0 ==> be16_at(tcp_accounted(buf, item, o, little), o + item.iph_len + 16) == fold16(
            pseudo_sum_at(
                tcp_accounted(buf, item, o, little),
                o,
                6,
                item.key.is_v6,
                len_field((buf.len() - o) as nat, item.iph_len),
            ),
        ),
{
    let h = if item.num_merged > 0 { tcp_gro_hdr(item) } else { zero_hdr() };
    let r = tcp_accounted(buf, item, o, little);
    if item.num_merged > 0 {
        let fixed = splice(ip_lengths_fixed(buf, o, item.iph_len, item.key.is_v6), o - 12, hdr_bytes(h, little));
        assert(fixed.subrange(o - 12, o) =~= hdr_bytes(h, little));
        assert(r.subrange(o - 12, o) =~= fixed.subrange(o - 12, o));
        let (at, size) = addr_layout(item.key.is_v6);
        assert(r.subrange(o + at, o + at + size) =~= fixed.subrange(o + at, o + at + size));
        assert(r.subrange(o + at + size, o + at + 2 * size) =~= fixed.subrange(o + at + size, o + at + 2 * size));
    } else {
        assert(r.subrange(o - 12, o) =~= hdr_bytes(h, little));
    }
    lemma_hdr_roundtrip(h, little);
}

/// After accounting, the virtio header in front of a UDP item's packet
/// decodes to [`udp_gro_hdr`] where the item has merges, and to the zero
/// header otherwise; the packet keeps its length.
pub proof fn lemma_udp_accounted_header(buf: Seq<u8>, item: UdpGROItem, o: int, little: bool)
    requires
        udp_item_accountable(item, buf.len(), o),
    ensures
        udp_accounted(buf, item, o, little).len() == buf.len(),
        hdr_from_bytes(udp_accounted(buf, item, o, little).subrange(o - 12, o), little) == (if item.num_merged > 0 {
            udp_gro_hdr(item)
        } else {
            zero_hdr()
        }),
        item.num_merged > 0 ==> be16_at(udp_accounted(buf, item, o, little), o + item.iph_len + 4) == len_field(
            (buf.len() - o) as nat,
            item.iph_len,
        ),
        item.num_merged > 0 ==> be16_at(udp_accounted(buf, item, o, little), o + item.iph_len + 6) == fold16(
            pseudo_sum_at(
                udp_accounted(buf, item, o, little),
                o,
                17,
                item.key.is_v6,
                len_field((buf.len() - o) as nat, item.iph_len),
            ),
        ),
{
    let h = if item.num_merged > 0 { udp_gro_hdr(item) } else { zero_hdr() };
    let r = udp_accounted(buf, item, o, little);
    if item.num_merged > 0 {
        let fixed = splice(ip_lengths_fixed(buf, o, item.iph_len, item.key.is_v6), o - 12, hdr_bytes(h, little));
        assert(fixed.subrange(o - 12, o) =~= hdr_bytes(h, little));
        let tlen = len_field((buf.len() - o) as nat, item.iph_len);
        let sized = put_be16(fixed, o + item.iph_len + 4, tlen);
        assert(sized.subrange(o - 12, o) =~= fixed.subrange(o - 12, o));
        assert(r.subrange(o - 12, o) =~= fixed.subrange(o - 12, o));
        let (at, size) = addr_layout(item.key.is_v6);
        assert(r.subrange(o + at, o + at + size) =~= sized.subrange(o + at, o + at + size));
        assert(r.subrange(o + at + size, o + at + 2 * size) =~= sized.subrange(o + at + size, o + at + 2 * size));
    } else {
        assert(r.subrange(o - 12, o) =~= hdr_bytes(h, little));
    }
    lemma_hdr_roundtrip(h, little);
}

/// After accounting a TCP item with merges, the IP length field gives the
/// length of the coalesced packet: for IPv6 the payload length, the packet
/// without its 40-byte header; for IPv4 the total length.
pub proof fn lemma_tcp_accounted_ip_lengths(buf: Seq<u8>, item: TcpGROItem, o: int, little: bool)
    requires
        tcp_item_accountable(item, buf.len(), o),
        item.num_merged > 0,
        buf.len() - o <= 0xFFFF,
    ensures
        item.key.is_v6 ==> be16_at(tcp_accounted(buf, item, o, little), o + 4) == buf.len() - o - 40,
        !item.key.is_v6 ==> be16_at(tcp_accounted(buf, item, o, little), o + 2) == buf.len() - o,
{
    let len = (buf.len() - o) as nat;
    let ipf = ip_lengths_fixed(buf, o, item.iph_len, item.key.is_v6);
    let fixed = splice(ipf, o - 12, hdr_bytes(tcp_gro_hdr(item), little));
    let r = tcp_accounted(buf, item, o, little);
    let at = if item.key.is_v6 { o + 4 } else { o + 2 };
    if item.key.is_v6 {
        lemma_be16_roundtrip(buf, o + 4, len_field(len, item.iph_len));
    } else {
        let c0 = buf.update(o + 10, 0).update(o + 11, 0);
        let cleared = put_be16(c0, o + 2, (len % 0x1_0000) as u16);
        lemma_be16_roundtrip(c0, o + 2, (len % 0x1_0000) as u16);
        let c = not16(checksum_spec(cleared.subrange(o, o + item.iph_len), 0)) as u16;
        assert(be16_at(put_be16(cleared, o + 10, c), o + 2) == be16_at(cleared, o + 2));
    }
    assert(fixed[at] == ipf[at] && fixed[at + 1] == ipf[at + 1]);
    assert(r[at] == fixed[at] && r[at + 1] == fixed[at + 1]);
}

/// After accounting a UDP item with merges, the IP length field gives the
/// length of the coalesced packet (the IPv6 payload length, the packet
/// without its 40-byte header, or the IPv4 total length), and the UDP
/// length field the packet without its IP header.
pub proof fn lemma_udp_accounted_ip_lengths(buf: Seq<u8>, item: UdpGROItem, o: int, little: bool)
    requires
        udp_item_accountable(item, buf.len(), o),
        item.num_merged > 0,
        buf.len() - o <= 0xFFFF,
    ensures
        item.key.is_v6 ==> be16_at(udp_accounted(buf, item, o, little), o + 4) == buf.len() - o - 40,
        !item.key.is_v6 ==> be16_at(udp_accounted(buf, item, o, little), o + 2) == buf.len() - o,
        be16_at(udp_accounted(buf, item, o, little), o + item.iph_len + 4) == buf.len() - o - item.iph_len,
{
    let len = (buf.len() - o) as nat;
    let ipf = ip_lengths_fixed(buf, o, item.iph_len, item.key.is_v6);
    let fixed = splice(ipf, o - 12, hdr_bytes(udp_gro_hdr(item), little));
    let tlen = len_field(len, item.iph_len);
    let sized = put_be16(fixed, o + item.iph_len + 4, tlen);
    let r = udp_accounted(buf, item, o, little);
    let at = if item.key.is_v6 { o + 4 } else { o + 2 };
    if item.key.is_v6 {
        lemma_be16_roundtrip(buf, o + 4, len_field(len, item.iph_len));
    } else {
        let c0 = buf.update(o + 10, 0).update(o + 11, 0);
        let cleared = put_be16(c0, o + 2, (len % 0x1_0000) as u16);
        lemma_be16_roundtrip(c0, o + 2, (len % 0x1_0000) as u16);
        let c = not16(checksum_spec(cleared.subrange(o, o + item.iph_len), 0)) as u16;
        assert(be16_at(put_be16(cleared, o + 10, c), o + 2) == be16_at(cleared, o + 2));
    }
    assert(fixed[at] == ipf[at] && fixed[at + 1] == ipf[at + 1]);
    assert(r[at] == sized[at] && r[at + 1] == sized[at + 1]);
    lemma_be16_roundtrip(fixed, o + item.iph_len + 4, tlen);
    let u = o + item.iph_len + 4;
    assert(r[u] == sized[u] && r[u + 1] == sized[u + 1]);
}

/// Rewrites the IP length fields of the packet at `o`, as
/// [`ip_lengths_fixed`] says.
fn fix_ip_lengths(buf: &mut Vec<u8>, o: usize, iph: u8, is_v6: bool)
    requires
        iph == (if is_v6 { 40int } else { 20int }),
        o + iph <= old(buf)@.len(),
    ensures
        final(buf)@ == ip_lengths_fixed(old(buf)@, o as int, iph, is_v6),
{
    let len = buf.len() - o;
    if is_v6 {
        let v = ((len % 0x1_0000) as u16).wrapping_sub(iph as u16);
        write_be16(buf.as_mut_slice(), o + 4, v);
    } else {
        buf.set(o + 10, 0);
        buf.set(o + 11, 0);
        write_be16(buf.as_mut_slice(), o + 2, (len % 0x1_0000) as u16);
        proof {
            lemma_word_sum_bound(buf@.subrange(o as int, o + iph));
        }
        let c = checksum(&buf.as_slice()[o..o + iph as usize], 0);
        proof {
            lemma_not16(c);
        }
        write_be16(buf.as_mut_slice(), o + 10, !c);
    }
}

/// Writes `hdr` over the [`VIRTIO_NET_HDR_LEN`] bytes of `buf` from `at`.
fn put_hdr(buf: &mut Vec<u8>, at: usize, hdr: &VirtioNetHdr, little: bool)
    requires
        at + VIRTIO_NET_HDR_LEN <= old(buf)@.len(),
    ensures
        final(buf)@ == splice(old(buf)@, at as int, hdr_bytes(*hdr, little)),
{
    let mut bytes: Vec<u8> = vec![0u8; VIRTIO_NET_HDR_LEN];
    let _ = hdr.encode_with(bytes.as_mut_slice(), little);
    assert(bytes@ =~= hdr_bytes(*hdr, little));
    copy_into(buf, at, bytes.as_slice());
}

/// The pseudo-header sum of the packet at `o`, as [`pseudo_sum_at`] says.
fn pseudo_sum(buf: &Vec<u8>, o: usize, proto: u8, is_v6: bool, transport_len: u16) -> (r: u64)
    requires
        o + (if is_v6 { 40int } else { 20int }) <= buf@.len(),
    ensures
        r == pseudo_sum_at(buf@, o as int, proto, is_v6, transport_len),
{
    let at: usize = if is_v6 { IPV6_SRC_ADDR_OFFSET } else { IPV4_SRC_ADDR_OFFSET };
    let size: usize = if is_v6 { 16 } else { 4 };
    let _len = buf.len();
    let src = &buf.as_slice()[o + at..o + at + size];
    let dst = &buf.as_slice()[o + at + size..o + at + 2 * size];
    proof {
        lemma_word_sum_bound(src@);
        lemma_word_sum_bound(dst@);
    }
    pseudo_header_checksum_no_fold(proto, src, dst, transport_len)
}

/// Rewrites the buffer of a TCP item, as [`tcp_accounted`] says.
fn account_tcp_item(buf: &mut Vec<u8>, item: &TcpGROItem, o: usize, little: bool)
    requires
        tcp_item_accountable(*item, old(buf)@.len(), o as int),
    ensures
        final(buf)@ == tcp_accounted(old(buf)@, *item, o as int, little),
{
    if item.num_merged > 0 {
        let is_v6 = item.key.is_v6;
        let tlen = (((buf.len() - o) % 0x1_0000) as u16).wrapping_sub(item.iph_len as u16);
        fix_ip_lengths(buf, o, item.iph_len, is_v6);
        let hdr = VirtioNetHdr {
            flags: VIRTIO_NET_HDR_F_NEEDS_CSUM,
            gso_type: if is_v6 { VIRTIO_NET_HDR_GSO_TCPV6 } else { VIRTIO_NET_HDR_GSO_TCPV4 },
            hdr_len: item.iph_len as u16 + item.tcph_len as u16,
            gso_size: item.gso_size,
            csum_start: item.iph_len as u16,
            csum_offset: 16,
        };
        put_hdr(buf, o - VIRTIO_NET_HDR_LEN, &hdr, little);
        let psum = pseudo_sum(buf, o, IPPROTO_TCP, is_v6, tlen);
        assert(word_sum(Seq::<u8>::empty()) == 0);
        let empty: [u8; 0] = [];
        let tcp_csum = checksum(empty.as_slice(), psum);
        write_be16(buf.as_mut_slice(), o + item.iph_len as usize + 16, tcp_csum);
    } else {
        put_hdr(buf, o - VIRTIO_NET_HDR_LEN, &VirtioNetHdr::default(), little);
    }
}

/// Rewrites the buffer of a UDP item, as [`udp_accounted`] says.
fn account_udp_item(buf: &mut Vec<u8>, item: &UdpGROItem, o: usize, little: bool)
    requires
        udp_item_accountable(*item, old(buf)@.len(), o as int),
    ensures
        final(buf)@ == udp_accounted(old(buf)@, *item, o as int, little),
{
    if item.num_merged > 0 {
        let is_v6 = item.key.is_v6;
        let tlen = (((buf.len() - o) % 0x1_0000) as u16).wrapping_sub(item.iph_len as u16);
        fix_ip_lengths(buf, o, item.iph_len, is_v6);
        let hdr = VirtioNetHdr {
            flags: VIRTIO_NET_HDR_F_NEEDS_CSUM,
            gso_type: VIRTIO_NET_HDR_GSO_UDP_L4,
            hdr_len: item.iph_len as u16 + 8,
            gso_size: item.gso_size,
            csum_start: item.iph_len as u16,
            csum_offset: 6,
        };
        put_hdr(buf, o - VIRTIO_NET_HDR_LEN, &hdr, little);
        write_be16(buf.as_mut_slice(), o + item.iph_len as usize + 4, tlen);
        let psum = pseudo_sum(buf, o, IPPROTO_UDP, is_v6, tlen);
        assert(word_sum(Seq::<u8>::empty()) == 0);
        let empty: [u8; 0] = [];
        let udp_csum = checksum(empty.as_slice(), psum);
        write_be16(buf.as_mut_slice(), o + item.iph_len as usize + 6, udp_csum);
    } else {
        put_hdr(buf, o - VIRTIO_NET_HDR_LEN, &VirtioNetHdr::default(), little);
    }
}

/// The buffers after accounting for `items`, one after the other.
pub open spec fn tcp_items_accounted(bufs: Seq<Seq<u8>>, items: Seq<TcpGROItem>, o: int, little: bool) -> Seq<Seq<u8>>
    decreases items.len(),
{
    if items.len() == 0 {
        bufs
    } else {
        let b = tcp_items_accounted(bufs, items.drop_last(), o, little);
        let j = items.last().bufs_index as int;
        b.update(j, tcp_accounted(b[j], items.last(), o, little))
    }
}

/// The buffers after accounting for the items of every flow, flow by flow.
pub open spec fn tcp_flows_accounted(bufs: Seq<Seq<u8>>, flows: Seq<(TcpFlowKey, Seq<TcpGROItem>)>, o: int, little: bool) -> Seq<Seq<u8>>
    decreases flows.len(),
{
    if flows.len() == 0 {
        bufs
    } else {
        tcp_items_accounted(tcp_flows_accounted(bufs, flows.drop_last(), o, little), flows.last().1, o, little)
    }
}

/// The buffers after accounting for `items`, one after the other.
pub open spec fn udp_items_accounted(bufs: Seq<Seq<u8>>, items: Seq<UdpGROItem>, o: int, little: bool) -> Seq<Seq<u8>>
    decreases items.len(),
{
    if items.len() == 0 {
        bufs
    } else {
        let b = udp_items_accounted(bufs, items.drop_last(), o, little);
        let j = items.last().bufs_index as int;
        b.update(j, udp_accounted(b[j], items.last(), o, little))
    }
}

/// The buffers after accounting for the items of every flow, flow by flow.
pub open spec fn udp_flows_accounted(bufs: Seq<Seq<u8>>, flows: Seq<(UdpFlowKey, Seq<UdpGROItem>)>, o: int, little: bool) -> Seq<Seq<u8>>
    decreases flows.len(),
{
    if flows.len() == 0 {
        bufs
    } else {
        udp_items_accounted(udp_flows_accounted(bufs, flows.drop_last(), o, little), flows.last().1, o, little)
    }
}

/// The TCP item refers to a buffer of the batch that it can be accounted
/// in.
pub open spec fn tcp_item_fits(item: TcpGROItem, bufs: Seq<Seq<u8>>, o: int) -> bool {
    item.bufs_index < bufs.len() && tcp_item_accountable(item, bufs[item.bufs_index as int].len(), o)
}

/// The UDP item refers to a buffer of the batch that it can be accounted
/// in.
pub open spec fn udp_item_fits(item: UdpGROItem, bufs: Seq<Seq<u8>>, o: int) -> bool {
    item.bufs_index < bufs.len() && udp_item_accountable(item, bufs[item.bufs_index as int].len(), o)
}

/// Every TCP item can be accounted in the batch.
pub open spec fn tcp_flows_accountable(flows: Seq<(TcpFlowKey, Seq<TcpGROItem>)>, bufs: Seq<Seq<u8>>, o: int) -> bool {
    forall|f: int, k: int| 0 <= f < flows.len() && 0 <= k < flows[f].1.len() ==> #[trigger] tcp_item_fits(flows[f].1[k], bufs, o)
}

/// Every UDP item can be accounted in the batch.
pub open spec fn udp_flows_accountable(flows: Seq<(UdpFlowKey, Seq<UdpGROItem>)>, bufs: Seq<Seq<u8>>, o: int) -> bool {
    forall|f: int, k: int| 0 <= f < flows.len() && 0 <= k < flows[f].1.len() ==> #[trigger] udp_item_fits(flows[f].1[k], bufs, o)
}

/// Rewrites the buffers of the TCP items of `table` after coalescing, as
/// [`tcp_flows_accounted`] says, with the virtio headers in the given byte
/// order.
#[verifier::rlimit(60)]
#[verifier::spinoff_prover]
pub fn apply_tcp_coalesce_accounting_with(bufs: &mut Vec<Vec<u8>>, offset: usize, table: &TcpGROTable, little: bool) -> (r: Result<(), OffloadError>)
    requires
        table.wf(),
        tcp_flows_accountable(table.flows(), bytes_of(old(bufs)@), offset as int),
    ensures
        r == Ok::<(), OffloadError>(()),
        bytes_of(final(bufs)@) == tcp_flows_accounted(bytes_of(old(bufs)@), table.flows(), offset as int, little),
        final(bufs)@.len() == old(bufs)@.len(),
        forall|j: int| 0 <= j < old(bufs)@.len() ==> #[trigger] final(bufs)@[j]@.len() == old(bufs)@[j]@.len(),
{
    let ghost b0 = bytes_of(bufs@);
    let ghost flows = table.flows();
    let nf = table.flow_count();
    let mut f: usize = 0;
    assert(flows.take(0) =~= Seq::<(TcpFlowKey, Seq<TcpGROItem>)>::empty());
    while f < nf
        invariant
            table.wf(),
            flows == table.flows(),
            nf == flows.len(),
            f <= nf,
            bufs@.len() == b0.len(),
            forall|j: int| 0 <= j < b0.len() ==> #[trigger] bufs@[j]@.len() == b0[j].len(),
            bytes_of(bufs@) == tcp_flows_accounted(b0, flows.take(f as int), offset as int, little),
            tcp_flows_accountable(flows, b0, offset as int),
            b0 == bytes_of(old(bufs)@),
        decreases nf - f,
    {
        let m = table.flow_len(f);
        let ghost before = bytes_of(bufs@);
        let ghost items = flows[f as int].1;
        let mut k: usize = 0;
        assert(items.take(0) =~= Seq::<TcpGROItem>::empty());
        while k < m
            invariant
                table.wf(),
                flows == table.flows(),
                nf == flows.len(),
                f < nf,
                items == flows[f as int].1,
                m == items.len(),
                k <= m,
                bufs@.len() == b0.len(),
                forall|j: int| 0 <= j < b0.len() ==> #[trigger] bufs@[j]@.len() == b0[j].len(),
                bytes_of(bufs@) == tcp_items_accounted(before, items.take(k as int), offset as int, little),
                tcp_flows_accountable(flows, b0, offset as int),
            decreases m - k,
        {
            let item = table.item_at(f, k);
            let idx = item.bufs_index as usize;
            assert(tcp_item_fits(flows[f as int].1[k as int], b0, offset as int));
            let ghost b1 = bytes_of(bufs@);
            assert(bufs@[idx as int]@.len() == b0[idx as int].len());
            account_tcp_item(&mut bufs[idx], &item, offset, little);
            proof {
                assert(items.take(k + 1).drop_last() =~= items.take(k as int));
                assert(items.take(k + 1).last() == item);
                assert(bytes_of(bufs@) =~= b1.update(idx as int, tcp_accounted(b1[idx as int], item, offset as int, little)));
                assert forall|j: int| 0 <= j < b0.len() implies #[trigger] bufs@[j]@.len() == b0[j].len() by {
                    if j == idx as int {
                        assert(bufs@[j]@ == tcp_accounted(b1[j], item, offset as int, little));
                    }
                }
            }
            k = k + 1;
        }
        proof {
            assert(flows.take(f + 1).drop_last() =~= flows.take(f as int));
            assert(flows.take(f + 1).last() == flows[f as int]);
            assert(items.take(m as int) =~= items);
        }
        f = f + 1;
    }
    assert(flows.take(nf as int) =~= flows);
    Ok(())
}

/// Rewrites the buffers of the UDP items of `table` after coalescing, as
/// [`udp_flows_accounted`] says, with the virtio headers in the given byte
/// order.
#[verifier::rlimit(60)]
#[verifier::spinoff_prover]
pub fn apply_udp_coalesce_accounting_with(bufs: &mut Vec<Vec<u8>>, offset: usize, table: &UdpGROTable, little: bool) -> (r: Result<(), OffloadError>)
    requires
        table.wf(),
        udp_flows_accountable(table.flows(), bytes_of(old(bufs)@), offset as int),
    ensures
        r == Ok::<(), OffloadError>(()),
        bytes_of(final(bufs)@) == udp_flows_accounted(bytes_of(old(bufs)@), table.flows(), offset as int, little),
        final(bufs)@.len() == old(bufs)@.len(),
        forall|j: int| 0 <= j < old(bufs)@.len() ==> #[trigger] final(bufs)@[j]@.len() == old(bufs)@[j]@.len(),
{
    let ghost b0 = bytes_of(bufs@);
    let ghost flows = table.flows();
    let nf = table.flow_count();
    let mut f: usize = 0;
    assert(flows.take(0) =~= Seq::<(UdpFlowKey, Seq<UdpGROItem>)>::empty());
    while f < nf
        invariant
            table.wf(),
            flows == table.flows(),
            nf == flows.len(),
            f <= nf,
            bufs@.len() == b0.len(),
            forall|j: int| 0 <= j < b0.len() ==> #[trigger] bufs@[j]@.len() == b0[j].len(),
            bytes_of(bufs@) == udp_flows_accounted(b0, flows.take(f as int), offset as int, little),
            udp_flows_accountable(flows, b0, offset as int),
            b0 == bytes_of(old(bufs)@),
        decreases nf - f,
    {
        let m = table.flow_len(f);
        let ghost before = bytes_of(bufs@);
        let ghost items = flows[f as int].1;
        let mut k: usize = 0;
        assert(items.take(0) =~= Seq::<UdpGROItem>::empty());
        while k < m
            invariant
                table.wf(),
                flows == table.flows(),
                nf == flows.len(),
                f < nf,
                items == flows[f as int].1,
                m == items.len(),
                k <= m,
                bufs@.len() == b0.len(),
                forall|j: int| 0 <= j < b0.len() ==> #[trigger] bufs@[j]@.len() == b0[j].len(),
                bytes_of(bufs@) == udp_items_accounted(before, items.take(k as int), offset as int, little),
                udp_flows_accountable(flows, b0, offset as int),
            decreases m - k,
        {
            let item = table.item_at(f, k);
            let idx = item.bufs_index as usize;
            assert(udp_item_fits(flows[f as int].1[k as int], b0, offset as int));
            let ghost b1 = bytes_of(bufs@);
            assert(bufs@[idx as int]@.len() == b0[idx as int].len());
            account_udp_item(&mut bufs[idx], &item, offset, little);
            proof {
                assert(items.take(k + 1).drop_last() =~= items.take(k as int));
                assert(items.take(k + 1).last() == item);
                assert(bytes_of(bufs@) =~= b1.update(idx as int, udp_accounted(b1[idx as int], item, offset as int, little)));
                assert forall|j: int| 0 <= j < b0.len() implies #[trigger] bufs@[j]@.len() == b0[j].len() by {
                    if j == idx as int {
                        assert(bufs@[j]@ == udp_accounted(b1[j], item, offset as int, little));
                    }
                }
            }
            k = k + 1;
        }
        proof {
            assert(flows.take(f + 1).drop_last() =~= flows.take(f as int));
            assert(flows.take(f + 1).last() == flows[f as int]);
            assert(items.take(m as int) =~= items);
        }
        f = f + 1;
    }
    assert(flows.take(nf as int) =~= flows);
    Ok(())
}

/// What a coalescing attempt of the TCP packet of buffer `i` with `item`
/// changes: on failure nothing; on success only the buffers (and
/// capacities) of the item and of the packet, and the item stays valid.
proof fn lemma_tcp_coalesce_facts(
    mode: CanCoalesce,
    i: int,
    info: TcpSegmentInfo,
    item: TcpGROItem,
    key: TcpFlowKey,
    bufs: Seq<Seq<u8>>,
    caps: Seq<usize>,
    o: int,
    is_v6: bool,
)
    requires
        mode != CanCoalesce::Unavailable,
        tcp_item_ok(item, key, bufs, o, i),
        key.is_v6 == is_v6,
        caps_ok(bufs, caps),
        0 <= i < bufs.len() <= u16::MAX,
        0 <= o <= bufs[i].len(),
        info.iph_len == item.iph_len,
        info.tcph_len == item.tcph_len,
        info.gso_size >= 1,
        pkt_of(bufs, i, o).len() >= info.iph_len + info.tcph_len,
    ensures
        ({
            let (res, item2, b2, c2) = tcp_coalesce(mode, i, info.gso_size, info.seq, info.psh_set, item, bufs, caps, o, is_v6);
            &&& res != CoalesceResult::Success ==> item2 == item && b2 == bufs && c2 == caps
            &&& res == CoalesceResult::Success ==> {
                &&& b2.len() == bufs.len()
                &&& caps_ok(b2, c2)
                &&& item2.bufs_index == item.bufs_index
                &&& tcp_item_ok(item2, key, b2, o, i + 1)
                &&& forall|j: int| 0 <= j < bufs.len() && j != item.bufs_index && j != i ==> b2[j] == bufs[j]
            }
        }),
{
    let (res, item2, b2, c2) = tcp_coalesce(mode, i, info.gso_size, info.seq, info.psh_set, item, bufs, caps, o, is_v6);
    let idx = item.bufs_index as int;
    let pkt = pkt_of(bufs, i, o);
    let target = pkt_of(bufs, idx, o);
    let headers_len = item.iph_len + item.tcph_len;
    if res == CoalesceResult::Success {
        assert(bufs[idx].len() <= caps[idx]);
        assert(bufs[i].len() <= caps[i]);
        if mode == CanCoalesce::Prepend {
            let joined = bufs.update(i, bufs[i] + target.subrange(headers_len as int, target.len() as int));
            assert(b2 == swap_at(joined, idx, i));
            assert(c2 == swap_at(caps, idx, i));
            assert(b2[idx] == joined[i]);
            assert(pkt_of(b2, idx, o).len() >= item2.iph_len + item2.tcph_len);
            assert forall|j: int| 0 <= j < b2.len() implies b2[j].len() <= #[trigger] c2[j] <= isize::MAX by {
                if j == idx {
                } else if j == i {
                    assert(b2[j] == bufs[idx]);
                } else {
                    assert(b2[j] == bufs[j]);
                }
            }
        } else {
            assert forall|j: int| 0 <= j < b2.len() implies b2[j].len() <= #[trigger] c2[j] <= isize::MAX by {
                if j != idx {
                    assert(b2[j] == bufs[j]);
                }
            }
        }
        assert(b2.len() == bufs.len());
        assert(caps_ok(b2, c2));
        assert(item2.bufs_index == item.bufs_index);
        assert(tcp_item_ok(item2, key, b2, o, i + 1));
        assert(forall|j: int| 0 <= j < bufs.len() && j != item.bufs_index && j != i ==> b2[j] == bufs[j]);
    } else {
        assert(item2 == item);
        assert(b2 == bufs);
        assert(c2 == caps);
    }
}

/// The position of a key that occurs in flows without repeated keys.
proof fn lemma_flow_position_at<K, T>(flows: Seq<(K, T)>, f: int, key: K)
    requires
        keys_distinct(flows),
        0 <= f < flows.len(),
        flows[f].0 == key,
    ensures
        flow_position(flows, key) == Some(f),
{
    assert(exists|j: int| 0 <= j < flows.len() && flows[j].0 == key);
    let c = choose|j: int| 0 <= j < flows.len() && flows[j].0 == key;
    if c != f {
        if c < f {
            assert(flows[c].0 != flows[f].0);
        } else {
            assert(flows[f].0 != flows[c].0);
        }
    }
}

/// A TCP item stays valid where its buffer is unchanged and the limit grows.
proof fn lemma_tcp_item_ok_frame(it: TcpGROItem, key: TcpFlowKey, bufs: Seq<Seq<u8>>, b2: Seq<Seq<u8>>, o: int, lim: int, lim2: int)
    requires
        tcp_item_ok(it, key, bufs, o, lim),
        lim <= lim2,
        b2.len() == bufs.len(),
        b2[it.bufs_index as int] == bufs[it.bufs_index as int],
    ensures
        tcp_item_ok(it, key, b2, o, lim2),
{
}

/// Replacing the items of a flow keeps the keys distinct.
proof fn lemma_keys_distinct_update<K, T>(flows: Seq<(K, T)>, f: int, v: T)
    requires
        keys_distinct(flows),
        0 <= f < flows.len(),
    ensures
        keys_distinct(flows.update(f, (flows[f].0, v))),
{
    let g = flows.update(f, (flows[f].0, v));
    assert forall|a: int, b: int| 0 <= a < b < g.len() implies g[a].0 != g[b].0 by {
        assert(g[a].0 == flows[a].0);
        assert(g[b].0 == flows[b].0);
    }
}

/// Adding an item to the flows keeps the keys distinct.
proof fn lemma_keys_distinct_insert<K, I>(flows: Seq<(K, Seq<I>)>, key: K, item: I)
    requires
        keys_distinct(flows),
    ensures
        keys_distinct(flows_insert(flows, key, item)),
{
    match flow_position(flows, key) {
        Some(j) => {
            assert(exists|c: int| 0 <= c < flows.len() && flows[c].0 == key);
            lemma_keys_distinct_update(flows, j, flows[j].1.push(item));
        },
        None => {
            let g = flows.push((key, seq![item]));
            assert forall|a: int, b: int| 0 <= a < b < g.len() implies g[a].0 != g[b].0 by {
                if b == flows.len() {
                    assert(g[a].0 == flows[a].0);
                    assert(!(0 <= a < flows.len() && flows[a].0 == key));
                } else {
                    assert(g[a].0 == flows[a].0);
                    assert(g[b].0 == flows[b].0);
                }
            }
        },
    }
}

/// What one TCP GRO evaluation of the packet of buffer `i` keeps true: the
/// batch keeps its size and capacities, the items stay valid (now for
/// buffers up to `i`) and refer to distinct buffers, only buffers of items
/// and `i` change, only an insertion adds a buffer to those referred to,
/// and no action leaves the buffers as they were.
pub open spec fn tcp_step_ok(
    bufs: Seq<Seq<u8>>,
    flows: Seq<(TcpFlowKey, Seq<TcpGROItem>)>,
    r: (Seq<Seq<u8>>, Seq<usize>, Seq<(TcpFlowKey, Seq<TcpGROItem>)>, GroResult),
    i: int,
    o: int,
) -> bool {
    &&& r.0.len() == bufs.len()
    &&& caps_ok(r.0, r.1)
    &&& tcp_flows_ok(r.2, r.0, o, i + 1)
    &&& tcp_indices_distinct(r.2)
    &&& keys_distinct(r.2)
    &&& forall|j: int| 0 <= j < bufs.len() && j != i && !tcp_uses(flows, j) ==> #[trigger] r.0[j] == bufs[j]
    &&& forall|j: int| #[trigger] tcp_uses(r.2, j) ==> tcp_uses(flows, j) || (j == i && r.3 == GroResult::TableInsert)
    &&& r.3 == GroResult::Noop ==> r.0 == bufs
}

/// Removing an item refers to no new buffer and keeps the others distinct.
proof fn lemma_tcp_remove_uses(flows: Seq<(TcpFlowKey, Seq<TcpGROItem>)>, f: int, k: int)
    requires
        tcp_indices_distinct(flows),
        0 <= f < flows.len(),
        0 <= k < flows[f].1.len(),
    ensures
        tcp_indices_distinct(flows.update(f, (flows[f].0, flows[f].1.remove(k)))),
        forall|j: int| #[trigger] tcp_uses(flows.update(f, (flows[f].0, flows[f].1.remove(k))), j) ==> tcp_uses(flows, j),
{
    let g = flows.update(f, (flows[f].0, flows[f].1.remove(k)));
    // position in `flows` of the item at (a, c) of `g`
    assert forall|a: int, c: int| 0 <= a < g.len() && 0 <= c < g[a].1.len() implies
        #[trigger] g[a].1[c] == flows[a].1[if a == f && c >= k { c + 1 } else { c }] by {
    }
    assert forall|j: int| #[trigger] tcp_uses(g, j) implies tcp_uses(flows, j) by {
        let (a, c) = choose|a: int, c: int| 0 <= a < g.len() && 0 <= c < g[a].1.len() && #[trigger] g[a].1[c].bufs_index == j;
        let c2 = if a == f && c >= k { c + 1 } else { c };
        assert(g[a].1[c] == flows[a].1[c2]);
        assert(flows[a].1[c2].bufs_index == j);
    }
    assert forall|f1: int, k1: int, f2: int, k2: int|
        0 <= f1 < g.len() && 0 <= k1 < g[f1].1.len() && 0 <= f2 < g.len() && 0 <= k2 < g[f2].1.len() && (f1 != f2 || k1 != k2)
            implies #[trigger] g[f1].1[k1].bufs_index != #[trigger] g[f2].1[k2].bufs_index by {
        let c1 = if f1 == f && k1 >= k { k1 + 1 } else { k1 };
        let c2 = if f2 == f && k2 >= k { k2 + 1 } else { k2 };
        assert(g[f1].1[k1] == flows[f1].1[c1]);
        assert(g[f2].1[k2] == flows[f2].1[c2]);
        assert(flows[f1].1[c1].bufs_index != flows[f2].1[c2].bufs_index);
    }
}

/// The TCP items stay valid where their buffers are unchanged and the limit
/// grows.
proof fn lemma_tcp_flows_ok_frame(flows: Seq<(TcpFlowKey, Seq<TcpGROItem>)>, bufs: Seq<Seq<u8>>, b2: Seq<Seq<u8>>, o: int, lim: int, lim2: int)
    requires
        tcp_flows_ok(flows, bufs, o, lim),
        lim <= lim2,
        b2.len() == bufs.len(),
        forall|j: int| #[trigger] tcp_uses(flows, j) ==> b2[j] == bufs[j],
    ensures
        tcp_flows_ok(flows, b2, o, lim2),
{
    assert forall|a: int, c: int| 0 <= a < flows.len() && 0 <= c < flows[a].1.len() implies #[trigger] tcp_item_ok(flows[a].1[c], flows[a].0, b2, o, lim2) by {
        let it = flows[a].1[c];
        assert(tcp_item_ok(it, flows[a].0, bufs, o, lim));
        assert(tcp_uses(flows, it.bufs_index as int));
        lemma_tcp_item_ok_frame(it, flows[a].0, bufs, b2, o, lim, lim2);
    }
}

/// One TCP scan keeps what [`tcp_step_ok`] says.
proof fn lemma_tcp_scan(
    bufs: Seq<Seq<u8>>,
    caps: Seq<usize>,
    flows: Seq<(TcpFlowKey, Seq<TcpGROItem>)>,
    f: int,
    j: int,
    i: int,
    o: int,
    info: TcpSegmentInfo,
    is_v6: bool,
)
    requires
        tcp_flows_ok(flows, bufs, o, i),
        tcp_indices_distinct(flows),
        keys_distinct(flows),
        caps_ok(bufs, caps),
        0 <= i < bufs.len() <= u16::MAX,
        0 <= o <= bufs[i].len(),
        tcp_gro_parse(pkt_of(bufs, i, o), is_v6) == Some(info),
        info.iph_len == (if is_v6 { 40int } else { 20int }),
        0 <= f < flows.len(),
        flows[f].0 == tcp_flow_key(pkt_of(bufs, i, o), addr_layout(is_v6).0, addr_layout(is_v6).0 + addr_layout(is_v6).1, info.iph_len as int),
        0 <= j <= flows[f].1.len(),
    ensures
        tcp_step_ok(bufs, flows, tcp_scan(bufs, caps, flows, f, j, i, o, info, is_v6), i, o),
    decreases j,
{
    let pkt = pkt_of(bufs, i, o);
    let (so, al) = addr_layout(is_v6);
    let key = flows[f].0;
    let items = flows[f].1;
    let r = tcp_scan(bufs, caps, flows, f, j, i, o, info, is_v6);
    if j <= 0 {
        let item = tcp_item(pkt, so, so + al, info.iph_len as int, info.tcph_len as int, i);
        lemma_flow_position_at(flows, f, key);
        lemma_keys_distinct_insert(flows, key, item);
        let g = flows.update(f, (key, items.push(item)));
        assert(r == (bufs, caps, g, GroResult::TableInsert));
        assert(tcp_item_ok(item, key, bufs, o, i + 1));
        assert forall|a: int, c: int| 0 <= a < g.len() && 0 <= c < g[a].1.len() implies #[trigger] tcp_item_ok(g[a].1[c], g[a].0, bufs, o, i + 1) by {
            if a != f || c != items.len() {
                assert(g[a].1[c] == flows[a].1[c]);
                assert(tcp_item_ok(flows[a].1[c], flows[a].0, bufs, o, i));
            }
        }
        assert forall|f1: int, k1: int, f2: int, k2: int|
            0 <= f1 < g.len() && 0 <= k1 < g[f1].1.len() && 0 <= f2 < g.len() && 0 <= k2 < g[f2].1.len() && (f1 != f2 || k1 != k2)
                implies #[trigger] g[f1].1[k1].bufs_index != #[trigger] g[f2].1[k2].bufs_index by {
            let new1 = f1 == f && k1 == items.len();
            let new2 = f2 == f && k2 == items.len();
            if !new1 {
                assert(g[f1].1[k1] == flows[f1].1[k1]);
                assert(tcp_item_ok(flows[f1].1[k1], flows[f1].0, bufs, o, i));
            }
            if !new2 {
                assert(g[f2].1[k2] == flows[f2].1[k2]);
                assert(tcp_item_ok(flows[f2].1[k2], flows[f2].0, bufs, o, i));
            }
        }
        assert forall|x: int| #[trigger] tcp_uses(g, x) implies tcp_uses(flows, x) || (x == i && r.3 == GroResult::TableInsert) by {
            let (a, c) = choose|a: int, c: int| 0 <= a < g.len() && 0 <= c < g[a].1.len() && #[trigger] g[a].1[c].bufs_index == x;
            if a != f || c != items.len() {
                assert(g[a].1[c] == flows[a].1[c]);
            }
        }
    } else {
        let k = j - 1;
        let item = items[k];
        assert(tcp_item_ok(item, key, bufs, o, i));
        let can = tcp_coalescible(pkt, info.iph_len, info.tcph_len, info.seq, info.psh_set, info.gso_size, item, pkt_of(bufs, item.bufs_index as int, o));
        if can == CanCoalesce::Unavailable {
            lemma_tcp_scan(bufs, caps, flows, f, k, i, o, info, is_v6);
        } else {
            lemma_tcp_coalesce_facts(can, i, info, item, key, bufs, caps, o, is_v6);
            let (res, item2, b2, c2) = tcp_coalesce(can, i, info.gso_size, info.seq, info.psh_set, item, bufs, caps, o, is_v6);
            if res == CoalesceResult::Success {
                let g = flows.update(f, (key, items.update(k, item2)));
                lemma_keys_distinct_update(flows, f, items.update(k, item2));
                assert(r == (b2, c2, g, GroResult::Coalesced));
                assert forall|a: int, c: int| 0 <= a < g.len() && 0 <= c < g[a].1.len() implies #[trigger] tcp_item_ok(g[a].1[c], g[a].0, b2, o, i + 1) by {
                    if a != f || c != k {
                        let it = flows[a].1[c];
                        assert(g[a].1[c] == it);
                        assert(tcp_item_ok(it, flows[a].0, bufs, o, i));
                        assert(it.bufs_index != item.bufs_index);
                        lemma_tcp_item_ok_frame(it, flows[a].0, bufs, b2, o, i, i + 1);
                    }
                }
                assert forall|f1: int, k1: int, f2: int, k2: int|
                    0 <= f1 < g.len() && 0 <= k1 < g[f1].1.len() && 0 <= f2 < g.len() && 0 <= k2 < g[f2].1.len() && (f1 != f2 || k1 != k2)
                        implies #[trigger] g[f1].1[k1].bufs_index != #[trigger] g[f2].1[k2].bufs_index by {
                    assert(g[f1].1[k1].bufs_index == flows[f1].1[k1].bufs_index);
                    assert(g[f2].1[k2].bufs_index == flows[f2].1[k2].bufs_index);
                }
                assert forall|x: int| #[trigger] tcp_uses(g, x) implies tcp_uses(flows, x) || (x == i && r.3 == GroResult::TableInsert) by {
                    let (a, c) = choose|a: int, c: int| 0 <= a < g.len() && 0 <= c < g[a].1.len() && #[trigger] g[a].1[c].bufs_index == x;
                    assert(g[a].1[c].bufs_index == flows[a].1[c].bufs_index);
                }
                assert forall|x: int| 0 <= x < bufs.len() && x != i && !tcp_uses(flows, x) implies #[trigger] b2[x] == bufs[x] by {
                    if x == item.bufs_index {
                        assert(flows[f].1[k].bufs_index == x);
                        assert(tcp_uses(flows, x));
                    }
                }
            } else if res == CoalesceResult::ItemInvalidCSum {
                let g = flows.update(f, (key, items.remove(k)));
                lemma_tcp_flows_ok_remove(flows, bufs, o, i, f, k);
                lemma_tcp_remove_uses(flows, f, k);
                assert(keys_distinct(g)) by {
                    assert forall|a: int, b: int| 0 <= a < b < g.len() implies g[a].0 != g[b].0 by {
                        assert(g[a].0 == flows[a].0);
                        assert(g[b].0 == flows[b].0);
                    }
                }
                lemma_tcp_scan(bufs, caps, g, f, k, i, o, info, is_v6);
            } else if res == CoalesceResult::PktInvalidCSum {
                assert(r == (bufs, caps, flows, GroResult::Noop));
                lemma_tcp_flows_ok_frame(flows, bufs, bufs, o, i, i + 1);
            } else {
                lemma_tcp_scan(bufs, caps, flows, f, k, i, o, info, is_v6);
            }
        }
    }
}

/// One TCP GRO evaluation keeps what [`tcp_step_ok`] says.
proof fn lemma_tcp_gro(bufs: Seq<Seq<u8>>, caps: Seq<usize>, flows: Seq<(TcpFlowKey, Seq<TcpGROItem>)>, o: int, i: int, is_v6: bool)
    requires
        tcp_flows_ok(flows, bufs, o, i),
        tcp_indices_distinct(flows),
        keys_distinct(flows),
        caps_ok(bufs, caps),
        0 <= i < bufs.len() <= u16::MAX,
        0 <= o <= bufs[i].len(),
        tcp_candidate_shape(pkt_of(bufs, i, o), is_v6),
    ensures
        tcp_step_ok(bufs, flows, tcp_gro_spec(bufs, caps, flows, o, i, is_v6), i, o),
{
    let pkt = pkt_of(bufs, i, o);
    let (so, al) = addr_layout(is_v6);
    let r = tcp_gro_spec(bufs, caps, flows, o, i, is_v6);
    match tcp_gro_parse(pkt, is_v6) {
        None => {
            lemma_tcp_flows_ok_frame(flows, bufs, bufs, o, i, i + 1);
        },
        Some(info) => {
            assert(info.iph_len == (if is_v6 { 40int } else { 20int }));
            let key = tcp_flow_key(pkt, so, so + al, info.iph_len as int);
            match flow_position(flows, key) {
                None => {
                    let item = tcp_item(pkt, so, so + al, info.iph_len as int, info.tcph_len as int, i);
                    lemma_keys_distinct_insert(flows, key, item);
                    let g = flows.push((key, seq![item]));
                    assert(r == (bufs, caps, g, GroResult::TableInsert));
                    assert(tcp_item_ok(item, key, bufs, o, i + 1));
                    assert forall|a: int, c: int| 0 <= a < g.len() && 0 <= c < g[a].1.len() implies #[trigger] tcp_item_ok(g[a].1[c], g[a].0, bufs, o, i + 1) by {
                        if a < flows.len() {
                            assert(g[a] == flows[a]);
                            assert(tcp_item_ok(flows[a].1[c], flows[a].0, bufs, o, i));
                        }
                    }
                    assert forall|f1: int, k1: int, f2: int, k2: int|
                        0 <= f1 < g.len() && 0 <= k1 < g[f1].1.len() && 0 <= f2 < g.len() && 0 <= k2 < g[f2].1.len() && (f1 != f2 || k1 != k2)
                            implies #[trigger] g[f1].1[k1].bufs_index != #[trigger] g[f2].1[k2].bufs_index by {
                        if f1 < flows.len() {
                            assert(g[f1] == flows[f1]);
                            assert(tcp_item_ok(flows[f1].1[k1], flows[f1].0, bufs, o, i));
                        }
                        if f2 < flows.len() {
                            assert(g[f2] == flows[f2]);
                            assert(tcp_item_ok(flows[f2].1[k2], flows[f2].0, bufs, o, i));
                        }
                    }
                    assert forall|x: int| #[trigger] tcp_uses(g, x) implies tcp_uses(flows, x) || (x == i && r.3 == GroResult::TableInsert) by {
                        let (a, c) = choose|a: int, c: int| 0 <= a < g.len() && 0 <= c < g[a].1.len() && #[trigger] g[a].1[c].bufs_index == x;
                        if a < flows.len() {
                            assert(g[a] == flows[a]);
                        }
                    }
                },
                Some(f) => {
                    assert(exists|j: int| 0 <= j < flows.len() && flows[j].0 == key);
                    lemma_tcp_scan(bufs, caps, flows, f, flows[f].1.len() as int, i, o, info, is_v6);
                },
            }
        },
    }
}

/// Whether some UDP item refers to buffer `j`.
pub open spec fn udp_uses(flows: Seq<(UdpFlowKey, Seq<UdpGROItem>)>, j: int) -> bool {
    exists|f: int, k: int| 0 <= f < flows.len() && 0 <= k < flows[f].1.len() && #[trigger] flows[f].1[k].bufs_index == j
}

/// No two UDP items refer to the same buffer.
pub open spec fn udp_indices_distinct(flows: Seq<(UdpFlowKey, Seq<UdpGROItem>)>) -> bool {
    forall|f1: int, k1: int, f2: int, k2: int|
        0 <= f1 < flows.len() && 0 <= k1 < flows[f1].1.len() && 0 <= f2 < flows.len() && 0 <= k2 < flows[f2].1.len() && (f1 != f2 || k1 != k2)
            ==> #[trigger] flows[f1].1[k1].bufs_index != #[trigger] flows[f2].1[k2].bufs_index
}

/// A UDP item stays valid where its buffer is unchanged and the limit grows.
proof fn lemma_udp_item_ok_frame(it: UdpGROItem, key: UdpFlowKey, bufs: Seq<Seq<u8>>, b2: Seq<Seq<u8>>, o: int, lim: int, lim2: int)
    requires
        udp_item_ok(it, key, bufs, o, lim),
        lim <= lim2,
        b2.len() == bufs.len(),
        b2[it.bufs_index as int] == bufs[it.bufs_index as int],
    ensures
        udp_item_ok(it, key, b2, o, lim2),
{
}

/// The UDP items stay valid where their buffers are unchanged and the limit
/// grows.
proof fn lemma_udp_flows_ok_frame(flows: Seq<(UdpFlowKey, Seq<UdpGROItem>)>, bufs: Seq<Seq<u8>>, b2: Seq<Seq<u8>>, o: int, lim: int, lim2: int)
    requires
        udp_flows_ok(flows, bufs, o, lim),
        lim <= lim2,
        b2.len() == bufs.len(),
        forall|j: int| #[trigger] udp_uses(flows, j) ==> b2[j] == bufs[j],
    ensures
        udp_flows_ok(flows, b2, o, lim2),
{
    assert forall|a: int, c: int| 0 <= a < flows.len() && 0 <= c < flows[a].1.len() implies #[trigger] udp_item_ok(flows[a].1[c], flows[a].0, b2, o, lim2) by {
        let it = flows[a].1[c];
        assert(udp_item_ok(it, flows[a].0, bufs, o, lim));
        assert(udp_uses(flows, it.bufs_index as int));
        lemma_udp_item_ok_frame(it, flows[a].0, bufs, b2, o, lim, lim2);
    }
}

/// What one UDP GRO evaluation of the packet of buffer `i` keeps true, as
/// [`tcp_step_ok`] for TCP.
pub open spec fn udp_step_ok(
    bufs: Seq<Seq<u8>>,
    flows: Seq<(UdpFlowKey, Seq<UdpGROItem>)>,
    r: (Seq<Seq<u8>>, Seq<usize>, Seq<(UdpFlowKey, Seq<UdpGROItem>)>, GroResult),
    i: int,
    o: int,
) -> bool {
    &&& r.0.len() == bufs.len()
    &&& caps_ok(r.0, r.1)
    &&& udp_flows_ok(r.2, r.0, o, i + 1)
    &&& udp_indices_distinct(r.2)
    &&& keys_distinct(r.2)
    &&& forall|j: int| 0 <= j < bufs.len() && j != i && !udp_uses(flows, j) ==> #[trigger] r.0[j] == bufs[j]
    &&& forall|j: int| #[trigger] udp_uses(r.2, j) ==> udp_uses(flows, j) || (j == i && r.3 == GroResult::TableInsert)
    &&& r.3 == GroResult::Noop ==> r.0 == bufs
}

/// Adding `item` (for buffer `i`, valid) to the flows keeps them valid and
/// distinct, and refers to `i` only in addition.
proof fn lemma_udp_join(flows: Seq<(UdpFlowKey, Seq<UdpGROItem>)>, bufs: Seq<Seq<u8>>, key: UdpFlowKey, item: UdpGROItem, o: int, i: int)
    requires
        udp_flows_ok(flows, bufs, o, i),
        udp_indices_distinct(flows),
        keys_distinct(flows),
        udp_item_ok(item, key, bufs, o, i + 1),
        item.bufs_index == i,
    ensures
        ({
            let g = flows_insert(flows, key, item);
            &&& udp_flows_ok(g, bufs, o, i + 1)
            &&& udp_indices_distinct(g)
            &&& keys_distinct(g)
            &&& forall|x: int| #[trigger] udp_uses(g, x) ==> udp_uses(flows, x) || x == i
        }),
{
    let g = flows_insert(flows, key, item);
    lemma_keys_distinct_insert(flows, key, item);
    let pos = flow_position(flows, key);
    let (fi, ki) = match pos {
        Some(f) => (f, flows[f].1.len() as int),
        None => (flows.len() as int, 0int),
    };
    match pos {
        Some(f) => {
            assert(exists|j: int| 0 <= j < flows.len() && flows[j].0 == key);
            assert(g == flows.update(f, (key, flows[f].1.push(item))));
        },
        None => {
            assert(g == flows.push((key, seq![item])));
        },
    }
    assert forall|a: int, c: int| 0 <= a < g.len() && 0 <= c < g[a].1.len() && (a != fi || c != ki) implies #[trigger] g[a].1[c] == flows[a].1[c] by {
    }
    assert(g[fi].1[ki] == item);
    assert(g[fi].0 == key);
    assert forall|a: int| 0 <= a < g.len() implies #[trigger] g[a].1.len() >= 1 by {
        if a != fi {
            assert(g[a] == flows[a]);
            assert(flows[a].1.len() >= 1);
        }
    }
    assert forall|a: int, c: int| 0 <= a < g.len() && 0 <= c < g[a].1.len() implies #[trigger] udp_item_ok(g[a].1[c], g[a].0, bufs, o, i + 1) by {
        if a != fi || c != ki {
            assert(g[a].0 == flows[a].0);
            assert(udp_item_ok(flows[a].1[c], flows[a].0, bufs, o, i));
        }
    }
    assert forall|f1: int, k1: int, f2: int, k2: int|
        0 <= f1 < g.len() && 0 <= k1 < g[f1].1.len() && 0 <= f2 < g.len() && 0 <= k2 < g[f2].1.len() && (f1 != f2 || k1 != k2)
            implies #[trigger] g[f1].1[k1].bufs_index != #[trigger] g[f2].1[k2].bufs_index by {
        if f1 != fi || k1 != ki {
            assert(udp_item_ok(flows[f1].1[k1], flows[f1].0, bufs, o, i));
        }
        if f2 != fi || k2 != ki {
            assert(udp_item_ok(flows[f2].1[k2], flows[f2].0, bufs, o, i));
        }
    }
    assert forall|x: int| #[trigger] udp_uses(g, x) implies udp_uses(flows, x) || x == i by {
        let (a, c) = choose|a: int, c: int| 0 <= a < g.len() && 0 <= c < g[a].1.len() && #[trigger] g[a].1[c].bufs_index == x;
        if a != fi || c != ki {
            assert(g[a].1[c] == flows[a].1[c]);
        }
    }
}

/// One UDP GRO evaluation keeps what [`udp_step_ok`] says.
proof fn lemma_udp_gro(bufs: Seq<Seq<u8>>, caps: Seq<usize>, flows: Seq<(UdpFlowKey, Seq<UdpGROItem>)>, o: int, i: int, is_v6: bool)
    requires
        udp_flows_ok(flows, bufs, o, i),
        udp_indices_distinct(flows),
        keys_distinct(flows),
        caps_ok(bufs, caps),
        0 <= i < bufs.len() <= u16::MAX,
        0 <= o <= bufs[i].len(),
        udp_candidate_shape(pkt_of(bufs, i, o), is_v6),
    ensures
        udp_step_ok(bufs, flows, udp_gro_spec(bufs, caps, flows, o, i, is_v6), i, o),
{
    let pkt = pkt_of(bufs, i, o);
    let (so, al) = addr_layout(is_v6);
    let r = udp_gro_spec(bufs, caps, flows, o, i, is_v6);
    match udp_gro_parse(pkt, is_v6) {
        None => {
            lemma_udp_flows_ok_frame(flows, bufs, bufs, o, i, i + 1);
        },
        Some((iph, gso)) => {
            assert(iph == (if is_v6 { 40int } else { 20int }));
            let key = udp_flow_key(pkt, so, so + al, iph as int);
            lemma_udp_join(flows, bufs, key, udp_item(pkt, so, so + al, iph as int, i, false), o, i);
            lemma_udp_join(flows, bufs, key, udp_item(pkt, so, so + al, iph as int, i, true), o, i);
            match flow_position(flows, key) {
                None => {},
                Some(f) => {
                    assert(exists|j: int| 0 <= j < flows.len() && flows[j].0 == key);
                    let items = flows[f].1;
                    assert(items.len() >= 1);
                    let last = items[items.len() - 1];
                    assert(udp_item_ok(last, key, bufs, o, i));
                    let can = udp_coalescible(pkt, iph, gso, last, pkt_of(bufs, last.bufs_index as int, o));
                    if can == CanCoalesce::Append {
                        let (res, item2, b2) = udp_coalesce(i, last, bufs, caps, o, is_v6);
                        if res == CoalesceResult::Success {
                            let idx = last.bufs_index as int;
                            let g = flows.update(f, (key, items.update(items.len() - 1, item2)));
                            lemma_keys_distinct_update(flows, f, items.update(items.len() - 1, item2));
                            assert(r == (b2, caps, g, GroResult::Coalesced));
                            assert(bufs[idx].len() <= caps[idx]);
                            assert(b2[idx].len() <= caps[idx]);
                            assert forall|j: int| 0 <= j < b2.len() implies b2[j].len() <= #[trigger] caps[j] <= isize::MAX by {
                                if j != idx {
                                    assert(b2[j] == bufs[j]);
                                }
                            }
                            assert(udp_item_ok(item2, key, b2, o, i + 1));
                            assert forall|a: int| 0 <= a < g.len() implies #[trigger] g[a].1.len() >= 1 by {
                                assert(flows[a].1.len() >= 1);
                            }
                            assert forall|a: int, c: int| 0 <= a < g.len() && 0 <= c < g[a].1.len() implies #[trigger] udp_item_ok(g[a].1[c], g[a].0, b2, o, i + 1) by {
                                if a != f || c != items.len() - 1 {
                                    let it = flows[a].1[c];
                                    assert(g[a].1[c] == it);
                                    assert(udp_item_ok(it, flows[a].0, bufs, o, i));
                                    assert(it.bufs_index != last.bufs_index);
                                    lemma_udp_item_ok_frame(it, flows[a].0, bufs, b2, o, i, i + 1);
                                }
                            }
                            assert forall|f1: int, k1: int, f2: int, k2: int|
                                0 <= f1 < g.len() && 0 <= k1 < g[f1].1.len() && 0 <= f2 < g.len() && 0 <= k2 < g[f2].1.len() && (f1 != f2 || k1 != k2)
                                    implies #[trigger] g[f1].1[k1].bufs_index != #[trigger] g[f2].1[k2].bufs_index by {
                                assert(g[f1].1[k1].bufs_index == flows[f1].1[k1].bufs_index);
                                assert(g[f2].1[k2].bufs_index == flows[f2].1[k2].bufs_index);
                            }
                            assert forall|x: int| #[trigger] udp_uses(g, x) implies udp_uses(flows, x) || (x == i && r.3 == GroResult::TableInsert) by {
                                let (a, c) = choose|a: int, c: int| 0 <= a < g.len() && 0 <= c < g[a].1.len() && #[trigger] g[a].1[c].bufs_index == x;
                                assert(g[a].1[c].bufs_index == flows[a].1[c].bufs_index);
                            }
                            assert forall|x: int| 0 <= x < bufs.len() && x != i && !udp_uses(flows, x) implies #[trigger] b2[x] == bufs[x] by {
                                if x == idx {
                                    assert(flows[f].1[items.len() - 1].bufs_index == x);
                                    assert(udp_uses(flows, x));
                                }
                            }
                        }
                    }
                },
            }
        },
    }
}

/// The state of a GRO pass over a batch: the bytes of the buffers, their
/// capacities, the TCP and UDP flows, and the indices of the buffers to
/// write.
pub struct GroPass {
    pub bufs: Seq<Seq<u8>>,
    pub caps: Seq<usize>,
    pub tcp: Seq<(TcpFlowKey, Seq<TcpGROItem>)>,
    pub udp: Seq<(UdpFlowKey, Seq<UdpGROItem>)>,
    pub to_write: Seq<usize>,
}

/// `buf` with a zero virtio header just before the packet at `o`.
pub open spec fn zero_hdr_written(buf: Seq<u8>, o: int, little: bool) -> Seq<u8> {
    splice(buf, o - VIRTIO_NET_HDR_LEN, hdr_bytes(zero_hdr(), little))
}

/// The offer of the packet of buffer `i` to the tables: a TCP or UDP
/// candidate goes through [`tcp_gro_spec`] or [`udp_gro_spec`], anything
/// else is left alone.
pub open spec fn gro_eval(s: GroPass, i: int, o: int, can_udp_gro: bool) -> (
    Seq<Seq<u8>>,
    Seq<usize>,
    Seq<(TcpFlowKey, Seq<TcpGROItem>)>,
    Seq<(UdpFlowKey, Seq<UdpGROItem>)>,
    GroResult,
) {
    let kind = gro_candidate(pkt_of(s.bufs, i, o), can_udp_gro);
    if kind == GroCandidateType::Tcp4GRO || kind == GroCandidateType::Tcp6GRO {
        let r = tcp_gro_spec(s.bufs, s.caps, s.tcp, o, i, kind == GroCandidateType::Tcp6GRO);
        (r.0, r.1, r.2, s.udp, r.3)
    } else if kind == GroCandidateType::Udp4GRO || kind == GroCandidateType::Udp6GRO {
        let r = udp_gro_spec(s.bufs, s.caps, s.udp, o, i, kind == GroCandidateType::Udp6GRO);
        (r.0, r.1, s.tcp, r.2, r.3)
    } else {
        (s.bufs, s.caps, s.tcp, s.udp, GroResult::Noop)
    }
}

/// The evaluation of the packet of buffer `i`: a TCP or UDP candidate goes
/// through [`tcp_gro_spec`] or [`udp_gro_spec`]; a packet left alone gets a
/// zero virtio header and is to be written, as is one that joined a table;
/// a coalesced one is not.
pub open spec fn gro_step(s: GroPass, i: int, o: int, can_udp_gro: bool, little: bool) -> GroPass {
    let (bufs, caps, tcp, udp, res) = gro_eval(s, i, o, can_udp_gro);
    match res {
        GroResult::Noop => GroPass {
            bufs: bufs.update(i, zero_hdr_written(bufs[i], o, little)),
            caps,
            tcp,
            udp,
            to_write: s.to_write.push(i as usize),
        },
        GroResult::TableInsert => GroPass { bufs, caps, tcp, udp, to_write: s.to_write.push(i as usize) },
        GroResult::Coalesced => GroPass { bufs, caps, tcp, udp, to_write: s.to_write },
    }
}

/// The offset leaves room for a virtio header and lies within a buffer of
/// `len` bytes.
pub open spec fn offset_fits(len: nat, o: int) -> bool {
    VIRTIO_NET_HDR_LEN <= o < len
}

/// The evaluation of the packets of buffers `i` to `n - 1` in turn; it
/// stops, unsuccessfully, at the first buffer the offset does not fit.
pub open spec fn gro_run(s: GroPass, i: int, n: int, o: int, can_udp_gro: bool, little: bool) -> (bool, GroPass)
    decreases n - i,
{
    if i >= n {
        (true, s)
    } else if !offset_fits(s.bufs[i].len(), o) {
        (false, s)
    } else {
        gro_run(gro_step(s, i, o, can_udp_gro, little), i + 1, n, o, can_udp_gro, little)
    }
}

/// A GRO pass over `bufs` with empty tables, appending to `to_write`: if
/// the offset fits every buffer, the evaluation of every packet followed by
/// the accounting of the TCP and then of the UDP items; otherwise the state
/// where the evaluation stopped and [`OffloadError::InvalidOffset`].
pub open spec fn gro_batch_spec(
    bufs: Seq<Seq<u8>>,
    caps: Seq<usize>,
    o: int,
    can_udp_gro: bool,
    little: bool,
    to_write: Seq<usize>,
) -> (Result<(), OffloadError>, GroPass) {
    let start = GroPass { bufs, caps, tcp: Seq::empty(), udp: Seq::empty(), to_write };
    let (ok, s) = gro_run(start, 0, bufs.len() as int, o, can_udp_gro, little);
    if ok {
        (
            Ok(()),
            GroPass { bufs: udp_flows_accounted(tcp_flows_accounted(s.bufs, s.tcp, o, little), s.udp, o, little), ..s },
        )
    } else {
        (Err(OffloadError::InvalidOffset), s)
    }
}

/// What holds of a GRO pass before the packet of buffer `i`: capacities
/// that fit, valid items for the buffers before `i`, and no buffer referred
/// to twice, in a table or across the two.
pub open spec fn pass_ok(s: GroPass, n: int, o: int, i: int) -> bool {
    &&& s.bufs.len() == n
    &&& caps_ok(s.bufs, s.caps)
    &&& tcp_flows_ok(s.tcp, s.bufs, o, i)
    &&& tcp_indices_distinct(s.tcp)
    &&& udp_flows_ok(s.udp, s.bufs, o, i)
    &&& udp_indices_distinct(s.udp)
    &&& forall|j: int| #[trigger] tcp_uses(s.tcp, j) ==> !udp_uses(s.udp, j)
}

/// The TCP items refer to buffers before the limit.
proof fn lemma_tcp_uses_below(flows: Seq<(TcpFlowKey, Seq<TcpGROItem>)>, bufs: Seq<Seq<u8>>, o: int, lim: int)
    requires
        tcp_flows_ok(flows, bufs, o, lim),
    ensures
        forall|j: int| #[trigger] tcp_uses(flows, j) ==> 0 <= j < lim,
{
    assert forall|j: int| #[trigger] tcp_uses(flows, j) implies 0 <= j < lim by {
        let (a, c) = choose|a: int, c: int| 0 <= a < flows.len() && 0 <= c < flows[a].1.len() && #[trigger] flows[a].1[c].bufs_index == j;
        assert(tcp_item_ok(flows[a].1[c], flows[a].0, bufs, o, lim));
    }
}

/// The UDP items refer to buffers before the limit.
proof fn lemma_udp_uses_below(flows: Seq<(UdpFlowKey, Seq<UdpGROItem>)>, bufs: Seq<Seq<u8>>, o: int, lim: int)
    requires
        udp_flows_ok(flows, bufs, o, lim),
    ensures
        forall|j: int| #[trigger] udp_uses(flows, j) ==> 0 <= j < lim,
{
    assert forall|j: int| #[trigger] udp_uses(flows, j) implies 0 <= j < lim by {
        let (a, c) = choose|a: int, c: int| 0 <= a < flows.len() && 0 <= c < flows[a].1.len() && #[trigger] flows[a].1[c].bufs_index == j;
        assert(udp_item_ok(flows[a].1[c], flows[a].0, bufs, o, lim));
    }
}

/// The evaluation of one packet keeps [`pass_ok`] (with the limit one
/// further) and leaves the later buffers alone.
proof fn lemma_gro_step(s: GroPass, i: int, n: int, o: int, can_udp_gro: bool, little: bool)
    requires
        pass_ok(s, n, o, i),
        keys_distinct(s.tcp),
        keys_distinct(s.udp),
        0 <= i < n <= u16::MAX,
        offset_fits(s.bufs[i].len(), o),
    ensures
        pass_ok(gro_step(s, i, o, can_udp_gro, little), n, o, i + 1),
        forall|j: int| i < j < n ==> #[trigger] gro_step(s, i, o, can_udp_gro, little).bufs[j] == s.bufs[j],
        gro_eval(s, i, o, can_udp_gro).4 == GroResult::Noop ==> gro_eval(s, i, o, can_udp_gro).0 == s.bufs,
        keys_distinct(gro_step(s, i, o, can_udp_gro, little).tcp),
        keys_distinct(gro_step(s, i, o, can_udp_gro, little).udp),
        forall|j: int|
            0 <= j < n && j != i && !tcp_uses(s.tcp, j) && !udp_uses(s.udp, j) ==> #[trigger] gro_step(
                s,
                i,
                o,
                can_udp_gro,
                little,
            ).bufs[j] == s.bufs[j],
        forall|j: int| #[trigger] tcp_uses(gro_step(s, i, o, can_udp_gro, little).tcp, j) ==> tcp_uses(s.tcp, j) || j == i,
        forall|j: int| #[trigger] udp_uses(gro_step(s, i, o, can_udp_gro, little).udp, j) ==> udp_uses(s.udp, j) || j == i,
{
    let kind = gro_candidate(pkt_of(s.bufs, i, o), can_udp_gro);
    let t = gro_step(s, i, o, can_udp_gro, little);
    lemma_tcp_uses_below(s.tcp, s.bufs, o, i);
    lemma_udp_uses_below(s.udp, s.bufs, o, i);
    let (bufs, caps, tcp, udp, res) = if kind == GroCandidateType::Tcp4GRO || kind == GroCandidateType::Tcp6GRO {
        let is_v6 = kind == GroCandidateType::Tcp6GRO;
        let r = tcp_gro_spec(s.bufs, s.caps, s.tcp, o, i, is_v6);
        lemma_tcp_gro(s.bufs, s.caps, s.tcp, o, i, is_v6);
        lemma_udp_flows_ok_frame(s.udp, s.bufs, r.0, o, i, i + 1);
        assert forall|j: int| #[trigger] tcp_uses(r.2, j) implies !udp_uses(s.udp, j) by {
            if tcp_uses(s.tcp, j) {
            }
        }
        (r.0, r.1, r.2, s.udp, r.3)
    } else if kind == GroCandidateType::Udp4GRO || kind == GroCandidateType::Udp6GRO {
        let is_v6 = kind == GroCandidateType::Udp6GRO;
        let r = udp_gro_spec(s.bufs, s.caps, s.udp, o, i, is_v6);
        lemma_udp_gro(s.bufs, s.caps, s.udp, o, i, is_v6);
        lemma_tcp_flows_ok_frame(s.tcp, s.bufs, r.0, o, i, i + 1);
        assert forall|j: int| #[trigger] tcp_uses(s.tcp, j) implies !udp_uses(r.2, j) by {
            if udp_uses(s.udp, j) {
            }
        }
        (r.0, r.1, s.tcp, r.2, r.3)
    } else {
        lemma_tcp_flows_ok_frame(s.tcp, s.bufs, s.bufs, o, i, i + 1);
        lemma_udp_flows_ok_frame(s.udp, s.bufs, s.bufs, o, i, i + 1);
        (s.bufs, s.caps, s.tcp, s.udp, GroResult::Noop)
    };
    assert(pass_ok(GroPass { bufs, caps, tcp, udp, to_write: s.to_write }, n, o, i + 1));
    assert(forall|j: int| i < j < n ==> #[trigger] bufs[j] == s.bufs[j]);
    assert(forall|j: int| 0 <= j < n && j != i && !tcp_uses(s.tcp, j) && !udp_uses(s.udp, j) ==> #[trigger] bufs[j] == s.bufs[j]);
    assert(forall|j: int| #[trigger] tcp_uses(tcp, j) ==> tcp_uses(s.tcp, j) || j == i);
    assert(forall|j: int| #[trigger] udp_uses(udp, j) ==> udp_uses(s.udp, j) || j == i);
    if res == GroResult::Noop {
        assert(bufs == s.bufs);
        let b3 = bufs.update(i, zero_hdr_written(bufs[i], o, little));
        assert(t.bufs == b3);
        assert(forall|j: int| #[trigger] tcp_uses(tcp, j) ==> tcp_uses(s.tcp, j));
        assert(forall|j: int| #[trigger] udp_uses(udp, j) ==> udp_uses(s.udp, j));
        lemma_tcp_flows_ok_frame(tcp, bufs, b3, o, i + 1, i + 1);
        lemma_udp_flows_ok_frame(udp, bufs, b3, o, i + 1, i + 1);
        assert forall|j: int| 0 <= j < b3.len() implies b3[j].len() <= #[trigger] caps[j] <= isize::MAX by {
            assert(bufs[j].len() <= caps[j]);
        }
    }
}

/// Through the rest of a pass, a buffer of a packet that is no GRO
/// candidate is referred to by no item; it gets a zero virtio header when
/// its turn comes, is to be written, and keeps its bytes otherwise.
proof fn lemma_gro_run_leaves(s: GroPass, j: int, n: int, o: int, can_udp_gro: bool, little: bool, i: int, orig: Seq<u8>)
    requires
        pass_ok(s, n, o, j),
        keys_distinct(s.tcp),
        keys_distinct(s.udp),
        0 <= j <= n <= u16::MAX,
        0 <= i < n,
        !tcp_uses(s.tcp, i),
        !udp_uses(s.udp, i),
        gro_candidate(orig.subrange(o, orig.len() as int), can_udp_gro) == GroCandidateType::NotGRO,
        j <= i ==> s.bufs[i] == orig,
        j > i ==> s.bufs[i] == zero_hdr_written(orig, o, little) && s.to_write.contains(i as usize),
        j > i ==> VIRTIO_NET_HDR_LEN <= o,
    ensures
        gro_run(s, j, n, o, can_udp_gro, little).0 ==> gro_run(s, j, n, o, can_udp_gro, little).1.bufs[i]
            == zero_hdr_written(orig, o, little),
        gro_run(s, j, n, o, can_udp_gro, little).0 ==> gro_run(s, j, n, o, can_udp_gro, little).1.to_write.contains(
            i as usize,
        ),
        gro_run(s, j, n, o, can_udp_gro, little).0 ==> !tcp_uses(gro_run(s, j, n, o, can_udp_gro, little).1.tcp, i),
        gro_run(s, j, n, o, can_udp_gro, little).0 ==> !udp_uses(gro_run(s, j, n, o, can_udp_gro, little).1.udp, i),
        gro_run(s, j, n, o, can_udp_gro, little).0 ==> pass_ok(gro_run(s, j, n, o, can_udp_gro, little).1, n, o, n),
        gro_run(s, j, n, o, can_udp_gro, little).0 ==> VIRTIO_NET_HDR_LEN <= o,
    decreases n - j,
{
    if j < n && offset_fits(s.bufs[j].len(), o) {
        let t = gro_step(s, j, o, can_udp_gro, little);
        lemma_gro_step(s, j, n, o, can_udp_gro, little);
        if j == i {
            assert(pkt_of(s.bufs, i, o) == orig.subrange(o, orig.len() as int));
            assert(gro_eval(s, i, o, can_udp_gro).4 == GroResult::Noop);
            assert(t.bufs[i] == zero_hdr_written(orig, o, little));
            assert(t.to_write == s.to_write.push(i as usize));
            assert(t.to_write[t.to_write.len() - 1] == i as usize);
        } else {
            assert(t.bufs[i] == s.bufs[i]);
            if j > i {
                let w = s.to_write;
                let k = choose|k: int| 0 <= k < w.len() && w[k] == i as usize;
                assert(t.to_write == w || t.to_write == w.push(j as usize));
                assert(t.to_write[k] == i as usize);
            }
        }
        lemma_gro_run_leaves(t, j + 1, n, o, can_udp_gro, little, i, orig);
    }
}

/// Accounting leaves alone the buffers that no item refers to, and keeps
/// every buffer's length.
proof fn lemma_tcp_accounted_frame(b: Seq<Seq<u8>>, flows: Seq<(TcpFlowKey, Seq<TcpGROItem>)>, o: int, little: bool, x: int)
    requires
        tcp_flows_accountable(flows, b, o),
        !tcp_uses(flows, x),
        0 <= x < b.len(),
    ensures
        tcp_flows_accounted(b, flows, o, little).len() == b.len(),
        tcp_flows_accounted(b, flows, o, little)[x] == b[x],
        forall|j: int| 0 <= j < b.len() ==> #[trigger] tcp_flows_accounted(b, flows, o, little)[j].len() == b[j].len(),
    decreases flows.len(),
{
    if flows.len() > 0 {
        let init = flows.drop_last();
        assert forall|f: int, k: int| 0 <= f < init.len() && 0 <= k < init[f].1.len() implies #[trigger] tcp_item_fits(init[f].1[k], b, o) by {
            assert(init[f] == flows[f]);
            assert(tcp_item_fits(flows[f].1[k], b, o));
        }
        if tcp_uses(init, x) {
            let (f, k) = choose|f: int, k: int| 0 <= f < init.len() && 0 <= k < init[f].1.len() && #[trigger] init[f].1[k].bufs_index == x;
            assert(init[f] == flows[f]);
            assert(flows[f].1[k].bufs_index == x);
        }
        lemma_tcp_accounted_frame(b, init, o, little, x);
        let b1 = tcp_flows_accounted(b, init, o, little);
        let last = flows.len() - 1;
        assert forall|k: int| 0 <= k < flows[last].1.len() implies #[trigger] tcp_item_fits(flows[last].1[k], b1, o)
            && flows[last].1[k].bufs_index != x by {
            assert(tcp_item_fits(flows[last].1[k], b, o));
            assert(b1[flows[last].1[k].bufs_index as int].len() == b[flows[last].1[k].bufs_index as int].len());
            if flows[last].1[k].bufs_index == x {
                assert(tcp_uses(flows, x));
            }
        }
        lemma_tcp_items_accounted_frame(b1, flows[last].1, o, little, x);
    }
}

/// Accounting items leaves alone the buffers none of them refers to, and
/// keeps every buffer's length.
proof fn lemma_tcp_items_accounted_frame(b: Seq<Seq<u8>>, items: Seq<TcpGROItem>, o: int, little: bool, x: int)
    requires
        forall|k: int| 0 <= k < items.len() ==> #[trigger] tcp_item_fits(items[k], b, o) && items[k].bufs_index != x,
        0 <= x < b.len(),
    ensures
        tcp_items_accounted(b, items, o, little).len() == b.len(),
        tcp_items_accounted(b, items, o, little)[x] == b[x],
        forall|j: int| 0 <= j < b.len() ==> #[trigger] tcp_items_accounted(b, items, o, little)[j].len() == b[j].len(),
    decreases items.len(),
{
    if items.len() > 0 {
        let init = items.drop_last();
        assert forall|k: int| 0 <= k < init.len() implies #[trigger] tcp_item_fits(init[k], b, o) && init[k].bufs_index != x by {
            assert(init[k] == items[k]);
        }
        lemma_tcp_items_accounted_frame(b, init, o, little, x);
        let b1 = tcp_items_accounted(b, init, o, little);
        let it = items.last();
        assert(it == items[items.len() - 1]);
        assert(tcp_item_fits(it, b, o));
        let j0 = it.bufs_index as int;
        assert(b1[j0].len() == b[j0].len());
        let hb = hdr_bytes(if it.num_merged > 0 { tcp_gro_hdr(it) } else { zero_hdr() }, little);
        assert(hb.len() == 12);
        assert(tcp_accounted(b1[j0], it, o, little).len() == b1[j0].len());
    }
}

/// Accounting leaves alone the buffers that no item refers to, and keeps
/// every buffer's length.
proof fn lemma_udp_accounted_frame(b: Seq<Seq<u8>>, flows: Seq<(UdpFlowKey, Seq<UdpGROItem>)>, o: int, little: bool, x: int)
    requires
        udp_flows_accountable(flows, b, o),
        !udp_uses(flows, x),
        0 <= x < b.len(),
    ensures
        udp_flows_accounted(b, flows, o, little).len() == b.len(),
        udp_flows_accounted(b, flows, o, little)[x] == b[x],
    decreases flows.len(),
{
    if flows.len() > 0 {
        let init = flows.drop_last();
        assert forall|f: int, k: int| 0 <= f < init.len() && 0 <= k < init[f].1.len() implies #[trigger] udp_item_fits(init[f].1[k], b, o) by {
            assert(init[f] == flows[f]);
            assert(udp_item_fits(flows[f].1[k], b, o));
        }
        if udp_uses(init, x) {
            let (f, k) = choose|f: int, k: int| 0 <= f < init.len() && 0 <= k < init[f].1.len() && #[trigger] init[f].1[k].bufs_index == x;
            assert(init[f] == flows[f]);
            assert(flows[f].1[k].bufs_index == x);
        }
        lemma_udp_accounted_frame(b, init, o, little, x);
        let b1 = udp_flows_accounted(b, init, o, little);
        let last = flows.len() - 1;
        assert forall|k: int| 0 <= k < flows[last].1.len() implies #[trigger] flows[last].1[k].bufs_index < b.len()
            && flows[last].1[k].bufs_index != x by {
            assert(udp_item_fits(flows[last].1[k], b, o));
            if flows[last].1[k].bufs_index == x {
                assert(udp_uses(flows, x));
            }
        }
        lemma_udp_items_accounted_frame(b1, flows[last].1, o, little, x);
    }
}

/// Accounting items leaves alone the buffers none of them refers to.
proof fn lemma_udp_items_accounted_frame(b: Seq<Seq<u8>>, items: Seq<UdpGROItem>, o: int, little: bool, x: int)
    requires
        forall|k: int| 0 <= k < items.len() ==> #[trigger] items[k].bufs_index < b.len() && items[k].bufs_index != x,
        0 <= x < b.len(),
    ensures
        udp_items_accounted(b, items, o, little).len() == b.len(),
        udp_items_accounted(b, items, o, little)[x] == b[x],
    decreases items.len(),
{
    if items.len() > 0 {
        let init = items.drop_last();
        assert forall|k: int| 0 <= k < init.len() implies #[trigger] init[k].bufs_index < b.len() && init[k].bufs_index != x by {
            assert(init[k] == items[k]);
        }
        lemma_udp_items_accounted_frame(b, init, o, little, x);
        assert(items.last() == items[items.len() - 1]);
    }
}

/// A pass that succeeds writes every packet that is no GRO candidate as it
/// came, behind a zero virtio header.
pub proof fn lemma_gro_batch_leaves_non_candidates(
    bufs: Seq<Seq<u8>>,
    caps: Seq<usize>,
    o: int,
    can_udp_gro: bool,
    little: bool,
    to_write: Seq<usize>,
    i: int,
)
    requires
        0 <= i < bufs.len() <= u16::MAX,
        caps_ok(bufs, caps),
        gro_candidate(pkt_of(bufs, i, o), can_udp_gro) == GroCandidateType::NotGRO,
        gro_batch_spec(bufs, caps, o, can_udp_gro, little, to_write).0 is Ok,
    ensures
        gro_batch_spec(bufs, caps, o, can_udp_gro, little, to_write).1.bufs[i] == zero_hdr_written(bufs[i], o, little),
        gro_batch_spec(bufs, caps, o, can_udp_gro, little, to_write).1.to_write.contains(i as usize),
{
    let n = bufs.len() as int;
    let start = GroPass { bufs, caps, tcp: Seq::empty(), udp: Seq::empty(), to_write };
    lemma_gro_run_leaves(start, 0, n, o, can_udp_gro, little, i, bufs[i]);
    let (ok, t) = gro_run(start, 0, n, o, can_udp_gro, little);
    assert(ok);
    lemma_tcp_accountable(t.tcp, t.bufs, o, n);
    lemma_tcp_accounted_frame(t.bufs, t.tcp, o, little, i);
    let b1 = tcp_flows_accounted(t.bufs, t.tcp, o, little);
    lemma_udp_accountable(t.udp, t.bufs, b1, o, n);
    lemma_udp_accounted_frame(b1, t.udp, o, little, i);
}

/// Valid TCP items can be accounted in a batch whose offset leaves room for
/// a virtio header.
proof fn lemma_tcp_accountable(flows: Seq<(TcpFlowKey, Seq<TcpGROItem>)>, bufs: Seq<Seq<u8>>, o: int, lim: int)
    requires
        tcp_flows_ok(flows, bufs, o, lim),
        VIRTIO_NET_HDR_LEN <= o,
    ensures
        tcp_flows_accountable(flows, bufs, o),
{
    assert forall|f: int, k: int| 0 <= f < flows.len() && 0 <= k < flows[f].1.len() implies #[trigger] tcp_item_fits(flows[f].1[k], bufs, o) by {
        let it = flows[f].1[k];
        assert(tcp_item_ok(it, flows[f].0, bufs, o, lim));
        assert(pkt_of(bufs, it.bufs_index as int, o).len() == bufs[it.bufs_index as int].len() - o);
    }
}

/// Valid UDP items can be accounted in a batch whose offset leaves room for
/// a virtio header, and in any batch with buffers of the same lengths.
proof fn lemma_udp_accountable(flows: Seq<(UdpFlowKey, Seq<UdpGROItem>)>, bufs: Seq<Seq<u8>>, b2: Seq<Seq<u8>>, o: int, lim: int)
    requires
        udp_flows_ok(flows, bufs, o, lim),
        VIRTIO_NET_HDR_LEN <= o,
        b2.len() == bufs.len(),
        forall|j: int| 0 <= j < bufs.len() ==> #[trigger] b2[j].len() == bufs[j].len(),
    ensures
        udp_flows_accountable(flows, b2, o),
{
    assert forall|f: int, k: int| 0 <= f < flows.len() && 0 <= k < flows[f].1.len() implies #[trigger] udp_item_fits(flows[f].1[k], b2, o) by {
        let it = flows[f].1[k];
        assert(udp_item_ok(it, flows[f].0, bufs, o, lim));
        assert(pkt_of(bufs, it.bufs_index as int, o).len() == bufs[it.bufs_index as int].len() - o);
        assert(b2[it.bufs_index as int].len() == bufs[it.bufs_index as int].len());
    }
}

/// Whether the evaluation of the batch reaches an empty buffer with an
/// offset of at least [`VIRTIO_NET_HDR_LEN`]: the offset check then
/// computes the length minus one, which underflows.
pub open spec fn gro_batch_panics(bufs: Seq<Seq<u8>>, o: int) -> bool {
    exists|j: int|
        0 <= j < bufs.len() && #[trigger] bufs[j].len() == 0 && VIRTIO_NET_HDR_LEN <= o && forall|k: int|
            0 <= k < j ==> offset_fits(#[trigger] bufs[k].len(), o)
}

/// GRO over the batch `bufs`, whose buffers have the capacities `caps`,
/// with the virtio headers in the given byte order, as [`gro_batch_spec`]
/// says: the tables start empty, and the indices of the buffers to write
/// are appended to `to_write`.
#[verifier::rlimit(40)]
pub fn handle_gro_with(
    bufs: &mut Vec<Vec<u8>>,
    caps: &mut Vec<usize>,
    offset: usize,
    tcp_table: &mut TcpGROTable,
    udp_table: &mut UdpGROTable,
    can_udp_gro: bool,
    to_write: &mut Vec<usize>,
    little: bool,
) -> (r: Result<(), OffloadError>)
    requires
        old(tcp_table).wf(),
        old(udp_table).wf(),
        old(tcp_table).flows().len() == 0,
        old(udp_table).flows().len() == 0,
        caps_ok(bytes_of(old(bufs)@), old(caps)@),
        old(bufs)@.len() <= u16::MAX,
        !gro_batch_panics(bytes_of(old(bufs)@), offset as int),
    ensures
        final(tcp_table).wf(),
        final(udp_table).wf(),
        ({
            let (res, s) = gro_batch_spec(bytes_of(old(bufs)@), old(caps)@, offset as int, can_udp_gro, little, old(to_write)@);
            &&& r == res
            &&& bytes_of(final(bufs)@) == s.bufs
            &&& final(tcp_table).flows() == s.tcp
            &&& final(udp_table).flows() == s.udp
            &&& final(to_write)@ == s.to_write
        }),
{
    let n = bufs.len();
    let ghost b0 = bytes_of(bufs@);
    let ghost start = GroPass { bufs: b0, caps: caps@, tcp: tcp_table.flows(), udp: udp_table.flows(), to_write: to_write@ };
    let ghost goal = gro_run(start, 0, n as int, offset as int, can_udp_gro, little);
    assert(tcp_table.flows() =~= Seq::empty());
    assert(udp_table.flows() =~= Seq::empty());
    assert(start == GroPass { bufs: b0, caps: caps@, tcp: Seq::empty(), udp: Seq::empty(), to_write: to_write@ });
    let mut i: usize = 0;
    while i < n
        invariant
            tcp_table.wf(),
            udp_table.wf(),
            i <= n,
            n == bufs@.len(),
            n == old(bufs)@.len(),
            n <= u16::MAX,
            pass_ok(
                GroPass { bufs: bytes_of(bufs@), caps: caps@, tcp: tcp_table.flows(), udp: udp_table.flows(), to_write: to_write@ },
                n as int,
                offset as int,
                i as int,
            ),
            gro_run(
                GroPass { bufs: bytes_of(bufs@), caps: caps@, tcp: tcp_table.flows(), udp: udp_table.flows(), to_write: to_write@ },
                i as int,
                n as int,
                offset as int,
                can_udp_gro,
                little,
            ) == goal,
            goal == gro_run(start, 0, n as int, offset as int, can_udp_gro, little),
            start == (GroPass { bufs: bytes_of(old(bufs)@), caps: old(caps)@, tcp: Seq::empty(), udp: Seq::empty(), to_write: old(to_write)@ }),
            i > 0 ==> VIRTIO_NET_HDR_LEN <= offset,
        decreases n - i,
    {
        let ghost s = GroPass { bufs: bytes_of(bufs@), caps: caps@, tcp: tcp_table.flows(), udp: udp_table.flows(), to_write: to_write@ };
        let blen = bufs[i].len();
        if offset < VIRTIO_NET_HDR_LEN || offset >= blen {
            assert(!offset_fits(s.bufs[i as int].len(), offset as int));
            assert(gro_run(s, i as int, n as int, offset as int, can_udp_gro, little) == (false, s));
            assert(gro_run(start, 0, bytes_of(old(bufs)@).len() as int, offset as int, can_udp_gro, little) == (false, s));
            assert(gro_batch_spec(bytes_of(old(bufs)@), old(caps)@, offset as int, can_udp_gro, little, old(to_write)@) == (Err::<(), OffloadError>(OffloadError::InvalidOffset), s));
            return Err(OffloadError::InvalidOffset);
        }
        proof {
            tcp_table.lemma_keys_distinct();
            udp_table.lemma_keys_distinct();
            lemma_gro_step(s, i as int, n as int, offset as int, can_udp_gro, little);
        }
        let kind = {
            let pb = &bufs[i];
            packet_is_gro_candidate(&pb.as_slice()[offset..pb.len()], can_udp_gro)
        };
        assert(kind == gro_candidate(pkt_of(s.bufs, i as int, offset as int), can_udp_gro));
        let res = match kind {
            GroCandidateType::Tcp4GRO => tcp_gro(bufs, caps, offset, i, tcp_table, false),
            GroCandidateType::Tcp6GRO => tcp_gro(bufs, caps, offset, i, tcp_table, true),
            GroCandidateType::Udp4GRO => udp_gro(bufs, caps, offset, i, udp_table, false),
            GroCandidateType::Udp6GRO => udp_gro(bufs, caps, offset, i, udp_table, true),
            GroCandidateType::NotGRO => GroResult::Noop,
        };
        assert((bytes_of(bufs@), caps@, tcp_table.flows(), udp_table.flows(), res) == gro_eval(s, i as int, offset as int, can_udp_gro));
        match res {
            GroResult::Noop => {
                let ghost b1 = bytes_of(bufs@);
                put_hdr(&mut bufs[i], offset - VIRTIO_NET_HDR_LEN, &VirtioNetHdr::default(), little);
                assert(bytes_of(bufs@) =~= b1.update(i as int, zero_hdr_written(b1[i as int], offset as int, little)));
                to_write.push(i);
            },
            GroResult::TableInsert => {
                to_write.push(i);
            },
            GroResult::Coalesced => {},
        }
        assert(GroPass { bufs: bytes_of(bufs@), caps: caps@, tcp: tcp_table.flows(), udp: udp_table.flows(), to_write: to_write@ }
            == gro_step(s, i as int, offset as int, can_udp_gro, little));
        i = i + 1;
    }
    let ghost s = GroPass { bufs: bytes_of(bufs@), caps: caps@, tcp: tcp_table.flows(), udp: udp_table.flows(), to_write: to_write@ };
    assert(goal == (true, s));
    if n > 0 {
        proof {
            lemma_tcp_accountable(s.tcp, s.bufs, offset as int, n as int);
        }
    }
    let err_tcp = apply_tcp_coalesce_accounting_with(bufs, offset, tcp_table, little);
    let ghost b1 = bytes_of(bufs@);
    if n > 0 {
        proof {
            lemma_udp_accountable(s.udp, s.bufs, b1, offset as int, n as int);
        }
    }
    let err_udp = apply_udp_coalesce_accounting_with(bufs, offset, udp_table, little);
    err_tcp?;
    err_udp?;
    Ok(())
}

/// `w` is `w0` followed by increasing indices below `lim`.
pub open spec fn appends_increasing(w: Seq<usize>, w0: Seq<usize>, lim: int) -> bool {
    &&& w0.len() <= w.len()
    &&& w.take(w0.len() as int) == w0
    &&& forall|a: int, b: int| w0.len() <= a < b < w.len() ==> #[trigger] w[a] < #[trigger] w[b]
    &&& forall|a: int| w0.len() <= a < w.len() ==> #[trigger] w[a] < lim
}

proof fn lemma_gro_run_appends(s: GroPass, i: int, n: int, o: int, can_udp_gro: bool, little: bool, w0: Seq<usize>)
    requires
        0 <= i <= n <= usize::MAX,
        appends_increasing(s.to_write, w0, i),
    ensures
        appends_increasing(gro_run(s, i, n, o, can_udp_gro, little).1.to_write, w0, n),
    decreases n - i,
{
    if i < n && offset_fits(s.bufs[i].len(), o) {
        let t = gro_step(s, i, o, can_udp_gro, little);
        let w = s.to_write;
        if t.to_write != w {
            let w2 = w.push(i as usize);
            assert(t.to_write == w2);
            assert(w2.take(w0.len() as int) =~= w.take(w0.len() as int));
            assert forall|a: int, b: int| w0.len() <= a < b < w2.len() implies #[trigger] w2[a] < #[trigger] w2[b] by {
                if b < w.len() {
                    assert(w2[a] == w[a] && w2[b] == w[b]);
                } else {
                    assert(w2[a] == w[a]);
                    assert(w[a] < i);
                }
            }
            assert forall|a: int| w0.len() <= a < w2.len() implies #[trigger] w2[a] < i + 1 by {
                if a < w.len() {
                    assert(w2[a] == w[a]);
                }
            }
        }
        assert(appends_increasing(t.to_write, w0, i + 1));
        lemma_gro_run_appends(t, i + 1, n, o, can_udp_gro, little, w0);
    }
}

/// A GRO pass appends to `to_write` increasing indices of buffers of the
/// batch, and keeps what was there.
pub proof fn lemma_gro_batch_appends_increasing(
    bufs: Seq<Seq<u8>>,
    caps: Seq<usize>,
    o: int,
    can_udp_gro: bool,
    little: bool,
    to_write: Seq<usize>,
)
    requires
        bufs.len() <= usize::MAX,
    ensures
        appends_increasing(gro_batch_spec(bufs, caps, o, can_udp_gro, little, to_write).1.to_write, to_write, bufs.len() as int),
{
    let start = GroPass { bufs, caps, tcp: Seq::empty(), udp: Seq::empty(), to_write };
    assert(to_write.take(to_write.len() as int) =~= to_write);
    lemma_gro_run_appends(start, 0, bufs.len() as int, o, can_udp_gro, little, to_write);
}

/// The outcome `res` of a GRO pass, with the final buffers, flows and
/// indices to write, is the one `expected` describes.
pub open spec fn gro_outcome_is(
    expected: (Result<(), OffloadError>, GroPass),
    res: Result<(), OffloadError>,
    bufs: Seq<Seq<u8>>,
    tcp: Seq<(TcpFlowKey, Seq<TcpGROItem>)>,
    udp: Seq<(UdpFlowKey, Seq<UdpGROItem>)>,
    to_write: Seq<usize>,
) -> bool {
    &&& res == expected.0
    &&& bufs == expected.1.bufs
    &&& tcp == expected.1.tcp
    &&& udp == expected.1.udp
    &&& to_write == expected.1.to_write
}

/// Evaluates the batch `bufs` for GRO, coalescing the TCP and UDP packets of
/// one flow, and appends to `to_write` the indices of the buffers to write.
/// The capacities of the buffers and the byte order of the host are read
/// here; for those, the outcome is what [`gro_batch_spec`] says.
pub fn handle_gro(
    bufs: &mut Vec<Vec<u8>>,
    offset: usize,
    tcp_table: &mut TcpGROTable,
    udp_table: &mut UdpGROTable,
    can_udp_gro: bool,
    to_write: &mut Vec<usize>,
) -> (r: Result<(), OffloadError>)
    requires
        old(tcp_table).wf(),
        old(udp_table).wf(),
        old(tcp_table).flows().len() == 0,
        old(udp_table).flows().len() == 0,
        old(bufs)@.len() <= u16::MAX,
        !gro_batch_panics(bytes_of(old(bufs)@), offset as int),
    ensures
        final(tcp_table).wf(),
        final(udp_table).wf(),
        exists|caps: Seq<usize>, little: bool|
            caps_ok(bytes_of(old(bufs)@), caps) && gro_outcome_is(
                #[trigger] gro_batch_spec(bytes_of(old(bufs)@), caps, offset as int, can_udp_gro, little, old(to_write)@),
                r,
                bytes_of(final(bufs)@),
                final(tcp_table).flows(),
                final(udp_table).flows(),
                final(to_write)@,
            ),
        appends_increasing(final(to_write)@, old(to_write)@, old(bufs)@.len() as int),
        r is Ok ==> forall|i: int|
            0 <= i < old(bufs)@.len() && #[trigger] gro_candidate(pkt_of(bytes_of(old(bufs)@), i, offset as int), can_udp_gro)
                == GroCandidateType::NotGRO ==> final(to_write)@.contains(i as usize) && bytes_of(final(bufs)@)[i]
                == zero_hdr_written(bytes_of(old(bufs)@)[i], offset as int, true),
{
    let n = bufs.len();
    let mut caps: Vec<usize> = Vec::with_capacity(n);
    let mut j: usize = 0;
    while j < n
        invariant
            n == bufs@.len(),
            j <= n,
            caps@.len() == j,
            forall|k: int| 0 <= k < j ==> bufs@[k]@.len() <= #[trigger] caps@[k] <= isize::MAX,
        decreases n - j,
    {
        let c = bufs[j].buf_capacity();
        caps.push(c);
        j = j + 1;
    }
    let ghost b0 = bytes_of(bufs@);
    let ghost c0 = caps@;
    let ghost w0 = to_write@;
    assert(caps_ok(b0, c0));
    let little = host_is_little_endian();
    let r = handle_gro_with(bufs, &mut caps, offset, tcp_table, udp_table, can_udp_gro, to_write, little);
    assert(gro_outcome_is(
        gro_batch_spec(b0, c0, offset as int, can_udp_gro, little, w0),
        r,
        bytes_of(bufs@),
        tcp_table.flows(),
        udp_table.flows(),
        to_write@,
    ));
    proof {
        lemma_gro_batch_appends_increasing(b0, c0, offset as int, can_udp_gro, little, w0);
        assert(hdr_bytes(zero_hdr(), little) =~= hdr_bytes(zero_hdr(), true));
        if r is Ok {
            assert forall|i: int|
                0 <= i < b0.len() && #[trigger] gro_candidate(pkt_of(b0, i, offset as int), can_udp_gro)
                    == GroCandidateType::NotGRO implies to_write@.contains(i as usize) && bytes_of(bufs@)[i]
                    == zero_hdr_written(b0[i], offset as int, true) by {
                lemma_gro_batch_leaves_non_candidates(b0, c0, offset as int, can_udp_gro, little, w0, i);
            }
        }
    }
    r
}

/// Rewrites the buffers of the TCP items of `table` after coalescing, as
/// [`tcp_flows_accounted`] says, with the virtio headers in the byte order of
/// the host.
pub fn apply_tcp_coalesce_accounting(bufs: &mut Vec<Vec<u8>>, offset: usize, table: &TcpGROTable) -> (r: Result<(), OffloadError>)
    requires
        table.wf(),
        tcp_flows_accountable(table.flows(), bytes_of(old(bufs)@), offset as int),
    ensures
        r == Ok::<(), OffloadError>(()),
        bytes_of(final(bufs)@) == tcp_flows_accounted(bytes_of(old(bufs)@), table.flows(), offset as int, true)
            || bytes_of(final(bufs)@) == tcp_flows_accounted(bytes_of(old(bufs)@), table.flows(), offset as int, false),
{
    let little = host_is_little_endian();
    apply_tcp_coalesce_accounting_with(bufs, offset, table, little)
}

/// Rewrites the buffers of the UDP items of `table` after coalescing, as
/// [`udp_flows_accounted`] says, with the virtio headers in the byte order of
/// the host.
pub fn apply_udp_coalesce_accounting(bufs: &mut Vec<Vec<u8>>, offset: usize, table: &UdpGROTable) -> (r: Result<(), OffloadError>)
    requires
        table.wf(),
        udp_flows_accountable(table.flows(), bytes_of(old(bufs)@), offset as int),
    ensures
        r == Ok::<(), OffloadError>(()),
        bytes_of(final(bufs)@) == udp_flows_accounted(bytes_of(old(bufs)@), table.flows(), offset as int, true)
            || bytes_of(final(bufs)@) == udp_flows_accounted(bytes_of(old(bufs)@), table.flows(), offset as int, false),
{
    let little = host_is_little_endian();
    apply_udp_coalesce_accounting_with(bufs, offset, table, little)
}

impl Default for GROTable {
    /// Empty tables, as [`GROTable::new`] makes, with no room reserved for
    /// indices.
    fn default() -> (t: GROTable)
        ensures
            t.wf(),
            t.is_clear(),
    {
        GROTable { to_write: Vec::new(), tcp_gro_table: TcpGROTable::default(), udp_gro_table: UdpGROTable::default() }
    }
}

/// The state GRO keeps between batches: the indices of the buffers to write
/// and the TCP and UDP tables.
pub struct GROTable {
    pub(crate) to_write: Vec<usize>,
    pub(crate) tcp_gro_table: TcpGROTable,
    pub(crate) udp_gro_table: UdpGROTable,
}

impl GROTable {
    /// Both tables are well formed.
    pub closed spec fn wf(&self) -> bool {
        self.tcp_gro_table.wf() && self.udp_gro_table.wf()
    }

    /// The indices of the buffers to write.
    pub closed spec fn pending(&self) -> Seq<usize> {
        self.to_write@
    }

    /// The TCP flows.
    pub closed spec fn tcp_flows(&self) -> Seq<(TcpFlowKey, Seq<TcpGROItem>)> {
        self.tcp_gro_table.flows()
    }

    /// The UDP flows.
    pub closed spec fn udp_flows(&self) -> Seq<(UdpFlowKey, Seq<UdpGROItem>)> {
        self.udp_gro_table.flows()
    }

    /// The item vectors the TCP table keeps for reuse.
    pub closed spec fn tcp_pool(&self) -> Seq<Seq<TcpGROItem>> {
        self.tcp_gro_table.pool()
    }

    /// The item vectors the UDP table keeps for reuse.
    pub closed spec fn udp_pool(&self) -> Seq<Seq<UdpGROItem>> {
        self.udp_gro_table.pool()
    }

    /// Nothing is pending and both tables are empty.
    pub open spec fn is_clear(&self) -> bool {
        &&& self.pending().len() == 0
        &&& self.tcp_flows().len() == 0
        &&& self.udp_flows().len() == 0
    }

    /// Empty tables, with room for [`IDEAL_BATCH_SIZE`] indices.
    pub fn new() -> (t: GROTable)
        ensures
            t.wf(),
            t.is_clear(),
            t.tcp_pool() == empty_pool::<TcpGROItem>(IDEAL_BATCH_SIZE as nat),
            t.udp_pool() == empty_pool::<UdpGROItem>(IDEAL_BATCH_SIZE as nat),
    {
        GROTable { to_write: Vec::with_capacity(IDEAL_BATCH_SIZE), tcp_gro_table: TcpGROTable::new(), udp_gro_table: UdpGROTable::new() }
    }

    /// Forgets the pending indices and empties both tables.
    pub fn reset(&mut self)
        requires
            old(self).wf(),
        ensures
            final(self).wf(),
            final(self).is_clear(),
            final(self).tcp_pool() == empty_pool::<TcpGROItem>(old(self).tcp_pool().len() + old(self).tcp_flows().len()),
            final(self).udp_pool() == empty_pool::<UdpGROItem>(old(self).udp_pool().len() + old(self).udp_flows().len()),
    {
        self.to_write.clear();
        self.tcp_gro_table.reset();
        self.udp_gro_table.reset();
    }

    /// The indices of the buffers to write, in order.
    pub fn to_write(&self) -> (r: &[usize])
        ensures
            r@ == self.pending(),
    {
        self.to_write.as_slice()
    }

    /// Prepares the batch `bufs` for writing to a device: the table is reset,
    /// then with virtio headers (`vnet_hdr`) the batch goes through
    /// [`handle_gro`] and the packets are to be written from the virtio
    /// header on, that is from `offset - VIRTIO_NET_HDR_LEN`; without them
    /// every buffer is to be written from `offset`. Returns where to write
    /// from.
    pub fn prepare_write(&mut self, bufs: &mut Vec<Vec<u8>>, offset: usize, vnet_hdr: bool, can_udp_gro: bool) -> (r: Result<
        usize,
        OffloadError,
    >)
        requires
            old(self).wf(),
            old(bufs)@.len() <= u16::MAX,
            vnet_hdr ==> !gro_batch_panics(bytes_of(old(bufs)@), offset as int),
            vnet_hdr && old(bufs)@.len() == 0 ==> VIRTIO_NET_HDR_LEN <= offset,
        ensures
            final(self).wf(),
            !vnet_hdr ==> r == Ok::<usize, OffloadError>(offset) && final(bufs)@ == old(bufs)@ && final(self).pending()
                == Seq::new(old(bufs)@.len(), |j: int| j as usize),
            vnet_hdr ==> exists|caps: Seq<usize>, little: bool|
                caps_ok(bytes_of(old(bufs)@), caps) && gro_outcome_is(
                    #[trigger] gro_batch_spec(bytes_of(old(bufs)@), caps, offset as int, can_udp_gro, little, Seq::empty()),
                    match r {
                        Ok(_) => Ok(()),
                        Err(e) => Err(e),
                    },
                    bytes_of(final(bufs)@),
                    final(self).tcp_flows(),
                    final(self).udp_flows(),
                    final(self).pending(),
                ),
            vnet_hdr && r is Ok ==> r == Ok::<usize, OffloadError>((offset - VIRTIO_NET_HDR_LEN) as usize),
    {
        self.reset();
        assert(self.to_write@ =~= Seq::<usize>::empty());
        if vnet_hdr {
            let ghost b0 = bytes_of(bufs@);
            let res = handle_gro(bufs, offset, &mut self.tcp_gro_table, &mut self.udp_gro_table, can_udp_gro, &mut self.to_write);
            match res {
                Ok(()) => {
                    proof {
                        if b0.len() > 0 {
                            let (caps, little) = choose|caps: Seq<usize>, little: bool|
                                caps_ok(b0, caps) && gro_outcome_is(
                                    #[trigger] gro_batch_spec(b0, caps, offset as int, can_udp_gro, little, Seq::empty()),
                                    res,
                                    bytes_of(bufs@),
                                    self.tcp_gro_table.flows(),
                                    self.udp_gro_table.flows(),
                                    self.to_write@,
                                );
                            let start = GroPass { bufs: b0, caps, tcp: Seq::empty(), udp: Seq::empty(), to_write: Seq::empty() };
                            assert(gro_run(start, 0, b0.len() as int, offset as int, can_udp_gro, little).0);
                            assert(offset_fits(b0[0].len(), offset as int));
                        }
                    }
                    Ok(offset - VIRTIO_NET_HDR_LEN)
                },
                Err(e) => Err(e),
            }
        } else {
            let n = bufs.len();
            let mut i: usize = 0;
            while i < n
                invariant
                    i <= n,
                    self.wf(),
                    self.tcp_flows().len() == 0,
                    self.udp_flows().len() == 0,
                    self.to_write@ == Seq::new(i as nat, |j: int| j as usize),
                decreases n - i,
            {
                self.to_write.push(i);
                i = i + 1;
                assert(self.to_write@ =~= Seq::new(i as nat, |j: int| j as usize));
            }
            Ok(offset)
        }
    }
}

} // verus!
