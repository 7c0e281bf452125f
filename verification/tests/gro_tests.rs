use tun_rs::checksum::{checksum, pseudo_header_checksum_no_fold};
use tun_rs::gro::{tcp_packets_can_coalesce, CanCoalesce, TcpFlowKey, TcpGROItem};
use tun_rs::{
    apply_tcp_coalesce_accounting, handle_gro, packet_is_gro_candidate, GROTable, GroCandidateType, OffloadError,
    TcpGROTable, UdpGROTable, VirtioNetHdr, VIRTIO_NET_HDR_LEN,
};

const SRC4: [u8; 4] = [192, 168, 1, 2];
const DST4: [u8; 4] = [192, 168, 1, 3];

fn ipv4_header(total_len: usize, proto: u8) -> Vec<u8> {
    let mut h = vec![0x45, 0, (total_len >> 8) as u8, total_len as u8, 0x12, 0x34, 0x40, 0, 64, proto, 0, 0];
    h.extend_from_slice(&SRC4);
    h.extend_from_slice(&DST4);
    let c = !checksum(&h, 0);
    h[10] = (c >> 8) as u8;
    h[11] = c as u8;
    h
}

fn tcp4(sport: u16, seq: u32, flags: u8, payload: &[u8]) -> Vec<u8> {
    let mut t = Vec::new();
    t.extend_from_slice(&sport.to_be_bytes());
    t.extend_from_slice(&80u16.to_be_bytes());
    t.extend_from_slice(&seq.to_be_bytes());
    t.extend_from_slice(&7u32.to_be_bytes());
    t.extend_from_slice(&[0x50, flags, 0xFF, 0xFF, 0, 0, 0, 0]);
    t.extend_from_slice(payload);
    let ps = pseudo_header_checksum_no_fold(6, &SRC4, &DST4, t.len() as u16);
    let c = !checksum(&t, ps);
    t[16] = (c >> 8) as u8;
    t[17] = c as u8;
    let mut p = ipv4_header(20 + t.len(), 6);
    p.extend_from_slice(&t);
    p
}

fn udp4(sport: u16, payload: &[u8]) -> Vec<u8> {
    let len = 8 + payload.len();
    let mut u = Vec::new();
    u.extend_from_slice(&sport.to_be_bytes());
    u.extend_from_slice(&53u16.to_be_bytes());
    u.extend_from_slice(&(len as u16).to_be_bytes());
    u.extend_from_slice(&[0, 0]);
    u.extend_from_slice(payload);
    let ps = pseudo_header_checksum_no_fold(17, &SRC4, &DST4, len as u16);
    let c = !checksum(&u, ps);
    u[6] = (c >> 8) as u8;
    u[7] = c as u8;
    let mut p = ipv4_header(20 + len, 17);
    p.extend_from_slice(&u);
    p
}

fn batch(pkts: &[Vec<u8>]) -> Vec<Vec<u8>> {
    pkts.iter()
        .map(|p| {
            let mut b = Vec::with_capacity(VIRTIO_NET_HDR_LEN + 65535);
            b.extend_from_slice(&[0xAAu8; VIRTIO_NET_HDR_LEN]);
            b.extend_from_slice(p);
            b
        })
        .collect()
}

fn be16(b: &[u8], at: usize) -> u16 {
    u16::from_be_bytes([b[at], b[at + 1]])
}

#[test]
fn gro_candidates_are_classified() {
    assert_eq!(packet_is_gro_candidate(&tcp4(1, 1, 0x10, &[1; 10]), false), GroCandidateType::Tcp4GRO);
    assert_eq!(packet_is_gro_candidate(&udp4(1, &[1; 10]), true), GroCandidateType::Udp4GRO);
    assert_eq!(packet_is_gro_candidate(&udp4(1, &[1; 10]), false), GroCandidateType::NotGRO);
    assert_eq!(packet_is_gro_candidate(&[0x45; 27], true), GroCandidateType::NotGRO);
    let mut options = tcp4(1, 1, 0x10, &[1; 10]);
    options[0] = 0x46;
    assert_eq!(packet_is_gro_candidate(&options, false), GroCandidateType::NotGRO);
    let mut v6 = vec![0u8; 60];
    v6[0] = 0x60;
    v6[6] = 6;
    assert_eq!(packet_is_gro_candidate(&v6, false), GroCandidateType::Tcp6GRO);
    v6[6] = 17;
    assert_eq!(packet_is_gro_candidate(&v6, true), GroCandidateType::Udp6GRO);
}

#[test]
fn gro_coalesces_consecutive_tcp4_segments() {
    let p1 = tcp4(1000, 5000, 0x10, &[1u8; 100]);
    let p2 = tcp4(1000, 5100, 0x10, &[2u8; 100]);
    let mut bufs = batch(&[p1.clone(), p2.clone()]);
    let mut tcp = TcpGROTable::new();
    let mut udp = UdpGROTable::new();
    let mut to_write = Vec::new();
    assert_eq!(handle_gro(&mut bufs, VIRTIO_NET_HDR_LEN, &mut tcp, &mut udp, false, &mut to_write), Ok(()));
    assert_eq!(to_write, vec![0]);
    let b = &bufs[0];
    assert_eq!(b.len(), VIRTIO_NET_HDR_LEN + 40 + 200);
    let hdr = VirtioNetHdr::decode(&b[..VIRTIO_NET_HDR_LEN]).unwrap();
    assert_eq!(hdr, VirtioNetHdr { flags: 1, gso_type: 1, hdr_len: 40, gso_size: 100, csum_start: 20, csum_offset: 16 });
    let pkt = &b[VIRTIO_NET_HDR_LEN..];
    assert_eq!(be16(pkt, 2), 240);
    assert_eq!(checksum(&pkt[..20], 0), 0xFFFF);
    let psum = pseudo_header_checksum_no_fold(6, &SRC4, &DST4, 220);
    assert_eq!(be16(pkt, 36), checksum(&[], psum));
    assert_eq!(&pkt[40..140], &[1u8; 100][..]);
    assert_eq!(&pkt[140..240], &[2u8; 100][..]);
    assert_eq!(&bufs[1][VIRTIO_NET_HDR_LEN..], &p2[..]);
}

#[test]
fn gro_coalesces_a_segment_in_front() {
    let p1 = tcp4(1000, 5100, 0x10, &[2u8; 100]);
    let p2 = tcp4(1000, 5000, 0x10, &[1u8; 100]);
    let mut bufs = batch(&[p1, p2]);
    let mut tcp = TcpGROTable::new();
    let mut udp = UdpGROTable::new();
    let mut to_write = Vec::new();
    assert_eq!(handle_gro(&mut bufs, VIRTIO_NET_HDR_LEN, &mut tcp, &mut udp, false, &mut to_write), Ok(()));
    assert_eq!(to_write, vec![0]);
    let pkt = &bufs[0][VIRTIO_NET_HDR_LEN..];
    assert_eq!(pkt.len(), 240);
    assert_eq!(u32::from_be_bytes([pkt[24], pkt[25], pkt[26], pkt[27]]), 5000);
    assert_eq!(&pkt[40..140], &[1u8; 100][..]);
    assert_eq!(&pkt[140..240], &[2u8; 100][..]);
}

#[test]
fn gro_keeps_separate_flows_apart() {
    let p1 = tcp4(1000, 5000, 0x10, &[1u8; 100]);
    let p2 = tcp4(2000, 5100, 0x10, &[2u8; 100]);
    let mut bufs = batch(&[p1.clone(), p2.clone()]);
    let mut tcp = TcpGROTable::new();
    let mut udp = UdpGROTable::new();
    let mut to_write = Vec::new();
    assert_eq!(handle_gro(&mut bufs, VIRTIO_NET_HDR_LEN, &mut tcp, &mut udp, false, &mut to_write), Ok(()));
    assert_eq!(to_write, vec![0, 1]);
    assert_eq!(&bufs[0][..VIRTIO_NET_HDR_LEN], &[0u8; VIRTIO_NET_HDR_LEN][..]);
    assert_eq!(&bufs[1][..VIRTIO_NET_HDR_LEN], &[0u8; VIRTIO_NET_HDR_LEN][..]);
    assert_eq!(&bufs[0][VIRTIO_NET_HDR_LEN..], &p1[..]);
    assert_eq!(&bufs[1][VIRTIO_NET_HDR_LEN..], &p2[..]);
}

#[test]
fn gro_refuses_a_segment_with_a_bad_checksum() {
    let p1 = tcp4(1000, 5000, 0x10, &[1u8; 100]);
    let mut p2 = tcp4(1000, 5100, 0x10, &[2u8; 100]);
    p2[39] ^= 0xFF;
    let mut bufs = batch(&[p1, p2]);
    let mut tcp = TcpGROTable::new();
    let mut udp = UdpGROTable::new();
    let mut to_write = Vec::new();
    assert_eq!(handle_gro(&mut bufs, VIRTIO_NET_HDR_LEN, &mut tcp, &mut udp, false, &mut to_write), Ok(()));
    assert_eq!(to_write, vec![0, 1]);
    assert_eq!(bufs[0].len(), VIRTIO_NET_HDR_LEN + 140);
}

#[test]
fn gro_leaves_other_packets_alone() {
    let u = udp4(1000, &[3u8; 50]);
    let mut bufs = batch(&[u.clone(), vec![0x45u8; 20]]);
    let mut tcp = TcpGROTable::new();
    let mut udp = UdpGROTable::new();
    let mut to_write = vec![7];
    assert_eq!(handle_gro(&mut bufs, VIRTIO_NET_HDR_LEN, &mut tcp, &mut udp, false, &mut to_write), Ok(()));
    assert_eq!(to_write, vec![7, 0, 1]);
    assert_eq!(&bufs[0][..VIRTIO_NET_HDR_LEN], &[0u8; VIRTIO_NET_HDR_LEN][..]);
    assert_eq!(&bufs[0][VIRTIO_NET_HDR_LEN..], &u[..]);
}

#[test]
fn gro_coalesces_udp4_datagrams() {
    let u1 = udp4(1000, &[3u8; 100]);
    let u2 = udp4(1000, &[4u8; 100]);
    let mut bufs = batch(&[u1, u2]);
    let mut tcp = TcpGROTable::new();
    let mut udp = UdpGROTable::new();
    let mut to_write = Vec::new();
    assert_eq!(handle_gro(&mut bufs, VIRTIO_NET_HDR_LEN, &mut tcp, &mut udp, true, &mut to_write), Ok(()));
    assert_eq!(to_write, vec![0]);
    let hdr = VirtioNetHdr::decode(&bufs[0][..VIRTIO_NET_HDR_LEN]).unwrap();
    assert_eq!(hdr, VirtioNetHdr { flags: 1, gso_type: 5, hdr_len: 28, gso_size: 100, csum_start: 20, csum_offset: 6 });
    let pkt = &bufs[0][VIRTIO_NET_HDR_LEN..];
    assert_eq!(pkt.len(), 228);
    assert_eq!(be16(pkt, 2), 228);
    assert_eq!(be16(pkt, 24), 208);
    assert_eq!(checksum(&pkt[..20], 0), 0xFFFF);
    let psum = pseudo_header_checksum_no_fold(17, &SRC4, &DST4, 208);
    assert_eq!(be16(pkt, 26), checksum(&[], psum));
}

#[test]
fn gro_rejects_an_offset_without_room() {
    let p1 = tcp4(1000, 5000, 0x10, &[1u8; 100]);
    let mut bufs = batch(&[p1]);
    let mut tcp = TcpGROTable::new();
    let mut udp = UdpGROTable::new();
    let mut to_write = Vec::new();
    assert_eq!(handle_gro(&mut bufs, 5, &mut tcp, &mut udp, false, &mut to_write), Err(OffloadError::InvalidOffset));
    let len = bufs[0].len();
    assert_eq!(handle_gro(&mut bufs, len, &mut tcp, &mut udp, false, &mut to_write), Err(OffloadError::InvalidOffset));
    assert!(to_write.is_empty());
}

#[test]
fn gro_accounting_on_empty_table_changes_nothing() {
    let mut bufs = batch(&[tcp4(1000, 5000, 0x10, &[1u8; 10])]);
    let before = bufs.clone();
    let tcp = TcpGROTable::new();
    assert_eq!(apply_tcp_coalesce_accounting(&mut bufs, VIRTIO_NET_HDR_LEN, &tcp), Ok(()));
    assert_eq!(bufs, before);
}

#[test]
fn gro_table_prepares_batches() {
    let mut table = GROTable::new();
    assert!(table.to_write().is_empty());
    let p1 = tcp4(1000, 5000, 0x10, &[1u8; 100]);
    let p2 = tcp4(1000, 5100, 0x10, &[2u8; 100]);
    let mut bufs = batch(&[p1.clone(), p2.clone(), p1.clone()]);
    assert_eq!(table.prepare_write(&mut bufs, VIRTIO_NET_HDR_LEN, false, false), Ok(VIRTIO_NET_HDR_LEN));
    assert_eq!(table.to_write(), &[0, 1, 2]);
    let mut bufs = batch(&[p1, p2]);
    assert_eq!(table.prepare_write(&mut bufs, VIRTIO_NET_HDR_LEN, true, false), Ok(0));
    assert_eq!(table.to_write(), &[0]);
    table.reset();
    assert!(table.to_write().is_empty());
    let table = GROTable::default();
    assert!(table.to_write().is_empty());
}

#[test]
fn tcp_coalesce_check_on_mismatched_headers() {
    let key = TcpFlowKey { src_addr: 0, dst_addr: 0, src_port: 1, dst_port: 80, rx_ack: 7, is_v6: false };
    let target = tcp4(1, 1000, 0x10, &[1u8; 100]);
    let pkt = tcp4(1, 1100, 0x10, &[2u8; 100]);
    let bufs = vec![target.clone()];
    let item = TcpGROItem { key, sent_seq: 1000, bufs_index: 0, num_merged: 0, gso_size: 100, iph_len: 20, tcph_len: 20, psh_set: false };
    assert_eq!(tcp_packets_can_coalesce(&pkt, 20, 20, 1100, false, 100, &item, &bufs, 0), CanCoalesce::Append);
    // A packet IP header length that leaves no room in the target.
    assert_eq!(tcp_packets_can_coalesce(&pkt, 200, 20, 1100, false, 100, &item, &bufs, 0), CanCoalesce::Unavailable);
    // Header lengths past the end of the packet.
    let item24 = TcpGROItem { tcph_len: 24, ..item };
    assert_eq!(tcp_packets_can_coalesce(&pkt[..30], 20, 24, 1100, false, 100, &item24, &bufs, 0), CanCoalesce::Unavailable);
    // An item that has merged as many packets as a count can hold.
    let full = TcpGROItem { num_merged: u16::MAX, ..item };
    assert_eq!(tcp_packets_can_coalesce(&pkt, 20, 20, 1100, false, 100, &full, &bufs, 0), CanCoalesce::Unavailable);
}
