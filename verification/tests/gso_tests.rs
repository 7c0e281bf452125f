use tun_rs::checksum::{checksum, pseudo_header_checksum_no_fold};
use tun_rs::gso::{gso_split_admissible, handle_virtio_read_admissible};
use tun_rs::{
    gso_none_checksum, gso_split, handle_virtio_read, OffloadError, VirtioNetHdr, VIRTIO_NET_HDR_F_NEEDS_CSUM,
    VIRTIO_NET_HDR_GSO_NONE, VIRTIO_NET_HDR_GSO_TCPV4, VIRTIO_NET_HDR_GSO_TCPV6, VIRTIO_NET_HDR_GSO_UDP_L4,
};

const SRC4: [u8; 4] = [10, 0, 0, 1];
const DST4: [u8; 4] = [10, 0, 0, 2];

fn ipv4_header(total_len: usize, proto: u8) -> Vec<u8> {
    let mut h = vec![0x45, 0, (total_len >> 8) as u8, total_len as u8, 0x00, 0x07, 0x40, 0, 64, proto, 0, 0];
    h.extend_from_slice(&SRC4);
    h.extend_from_slice(&DST4);
    let c = !checksum(&h, 0);
    h[10] = (c >> 8) as u8;
    h[11] = c as u8;
    h
}

fn tcp4(seq: u32, flags: u8, payload: &[u8]) -> Vec<u8> {
    let mut p = ipv4_header(40 + payload.len(), 6);
    p.extend_from_slice(&[0x04, 0xD2, 0x00, 0x50]);
    p.extend_from_slice(&seq.to_be_bytes());
    p.extend_from_slice(&[0, 0, 0, 9, 0x50, flags, 0xFF, 0xFF, 0, 0, 0, 0]);
    p.extend_from_slice(payload);
    p
}

fn udp4(payload: &[u8]) -> Vec<u8> {
    let len = 8 + payload.len();
    let mut p = ipv4_header(20 + len, 17);
    p.extend_from_slice(&[0x04, 0xD2, 0x00, 0x35, (len >> 8) as u8, len as u8, 0, 0]);
    p.extend_from_slice(payload);
    p
}

fn be16(b: &[u8], at: usize) -> u16 {
    u16::from_be_bytes([b[at], b[at + 1]])
}

fn payload(n: usize) -> Vec<u8> {
    (0..n).map(|i| (i % 251) as u8).collect()
}

#[test]
fn gso_none_checksum_makes_the_packet_verify() {
    let mut pkt = tcp4(1, 0x18, &payload(333));
    let tlen = (pkt.len() - 20) as u16;
    let seed = checksum(&[], pseudo_header_checksum_no_fold(6, &SRC4, &DST4, tlen));
    pkt[36] = (seed >> 8) as u8;
    pkt[37] = seed as u8;
    gso_none_checksum(&mut pkt, 20, 16);
    assert_eq!(checksum(&pkt[20..], seed as u64), 0xFFFF);
    let full = pseudo_header_checksum_no_fold(6, &SRC4, &DST4, tlen);
    assert_eq!(checksum(&pkt[20..], full), 0xFFFF);
}

#[test]
fn gso_split_cuts_a_tcp4_packet() {
    let data = payload(2500);
    let mut input = tcp4(1_000_000, 0x19, &data);
    let hdr = VirtioNetHdr {
        flags: VIRTIO_NET_HDR_F_NEEDS_CSUM,
        gso_type: VIRTIO_NET_HDR_GSO_TCPV4,
        hdr_len: 40,
        gso_size: 1000,
        csum_start: 20,
        csum_offset: 16,
    };
    let mut out = vec![vec![0u8; 1600]; 4];
    let mut sizes = vec![0usize; 4];
    assert_eq!(gso_split(&mut input, hdr, &mut out, &mut sizes, 4, false), Ok(3));
    assert_eq!(sizes, vec![1040, 1040, 540, 0]);
    for k in 0..3 {
        let seg = &out[k][4..4 + sizes[k]];
        assert_eq!(be16(seg, 2) as usize, sizes[k]);
        assert_eq!(be16(seg, 4), 7 + k as u16);
        assert_eq!(checksum(&seg[..20], 0), 0xFFFF);
        let seq = u32::from_be_bytes([seg[24], seg[25], seg[26], seg[27]]);
        assert_eq!(seq, 1_000_000 + 1000 * k as u32);
        assert_eq!(seg[33], if k < 2 { 0x10 } else { 0x19 });
        let psum = pseudo_header_checksum_no_fold(6, &SRC4, &DST4, (sizes[k] - 20) as u16);
        assert_eq!(checksum(&seg[20..], psum), 0xFFFF);
        assert_eq!(&seg[40..], &data[1000 * k..(1000 * k + sizes[k] - 40)]);
    }
    assert_eq!(out[3], vec![0u8; 1600]);
}

#[test]
fn gso_split_cuts_a_udp4_packet() {
    let data = payload(300);
    let mut input = udp4(&data);
    let hdr = VirtioNetHdr {
        flags: VIRTIO_NET_HDR_F_NEEDS_CSUM,
        gso_type: VIRTIO_NET_HDR_GSO_UDP_L4,
        hdr_len: 28,
        gso_size: 128,
        csum_start: 20,
        csum_offset: 6,
    };
    let mut out = vec![vec![0u8; 200]; 3];
    let mut sizes = vec![0usize; 3];
    assert_eq!(gso_split(&mut input, hdr, &mut out, &mut sizes, 0, false), Ok(3));
    assert_eq!(sizes, vec![156, 156, 72]);
    for k in 0..3 {
        let seg = &out[k][..sizes[k]];
        assert_eq!(be16(seg, 24) as usize, sizes[k] - 20);
        let psum = pseudo_header_checksum_no_fold(17, &SRC4, &DST4, (sizes[k] - 20) as u16);
        assert_eq!(checksum(&seg[20..], psum), 0xFFFF);
    }
}

#[test]
fn gso_split_needs_enough_buffers() {
    let mut input = tcp4(1, 0x10, &payload(2500));
    let hdr = VirtioNetHdr {
        flags: VIRTIO_NET_HDR_F_NEEDS_CSUM,
        gso_type: VIRTIO_NET_HDR_GSO_TCPV4,
        hdr_len: 40,
        gso_size: 1000,
        csum_start: 20,
        csum_offset: 16,
    };
    let mut out = vec![vec![0u8; 1600]; 2];
    let mut sizes = vec![0usize; 2];
    assert_eq!(gso_split(&mut input, hdr, &mut out, &mut sizes, 0, false), Err(OffloadError::TooManySegments));
    assert_eq!(sizes, vec![1040, 1040]);
}

#[test]
fn virtio_read_without_gso_copies_the_packet() {
    let mut input = tcp4(1, 0x10, &payload(100));
    let expected = input.clone();
    let hdr = VirtioNetHdr::default();
    let mut bufs = vec![vec![0u8; 200], vec![0u8; 200]];
    let mut sizes = vec![0usize; 2];
    assert_eq!(handle_virtio_read(hdr, &mut input, &mut bufs, &mut sizes, 6), Ok(1));
    assert_eq!(sizes[0], expected.len());
    assert_eq!(&bufs[0][6..6 + expected.len()], &expected[..]);
    assert_eq!(&bufs[0][..6], &[0u8; 6]);
}

#[test]
fn virtio_read_completes_a_partial_checksum() {
    let mut input = tcp4(1, 0x10, &payload(101));
    let tlen = (input.len() - 20) as u16;
    let seed = checksum(&[], pseudo_header_checksum_no_fold(6, &SRC4, &DST4, tlen));
    input[36] = (seed >> 8) as u8;
    input[37] = seed as u8;
    let hdr = VirtioNetHdr { flags: VIRTIO_NET_HDR_F_NEEDS_CSUM, gso_type: VIRTIO_NET_HDR_GSO_NONE, hdr_len: 0, gso_size: 0, csum_start: 20, csum_offset: 16 };
    let mut bufs = vec![vec![0u8; 300]];
    let mut sizes = vec![0usize; 1];
    assert_eq!(handle_virtio_read(hdr, &mut input, &mut bufs, &mut sizes, 0), Ok(1));
    let pkt = &bufs[0][..sizes[0]];
    let full = pseudo_header_checksum_no_fold(6, &SRC4, &DST4, tlen);
    assert_eq!(checksum(&pkt[20..], full), 0xFFFF);
}

#[test]
fn virtio_read_reports_each_error() {
    let base = tcp4(1, 0x10, &payload(100));
    let mut bufs = vec![vec![0u8; 50]];
    let mut sizes = vec![0usize; 1];
    let mut input = base.clone();
    assert_eq!(
        handle_virtio_read(VirtioNetHdr::default(), &mut input, &mut bufs, &mut sizes, 0),
        Err(OffloadError::ReadOverflowsBuffer { read_len: base.len(), buf_len: 50 })
    );
    let gso = |gso_type: u8| VirtioNetHdr { flags: 1, gso_type, hdr_len: 40, gso_size: 50, csum_start: 20, csum_offset: 16 };
    let mut bufs = vec![vec![0u8; 200]; 4];
    let mut sizes = vec![0usize; 4];
    let mut input = base.clone();
    assert_eq!(
        handle_virtio_read(gso(3), &mut input, &mut bufs, &mut sizes, 0),
        Err(OffloadError::UnsupportedGsoType { gso_type: 3 })
    );
    let mut input = base.clone();
    assert_eq!(
        handle_virtio_read(gso(VIRTIO_NET_HDR_GSO_TCPV6), &mut input, &mut bufs, &mut sizes, 0),
        Err(OffloadError::GsoTypeMismatch { ip_version: 4, gso_type: VIRTIO_NET_HDR_GSO_TCPV6 })
    );
    let mut input = base.clone();
    input[0] = 0x55;
    assert_eq!(
        handle_virtio_read(gso(VIRTIO_NET_HDR_GSO_TCPV4), &mut input, &mut bufs, &mut sizes, 0),
        Err(OffloadError::InvalidIpVersion { ip_version: 5 })
    );
    let mut input = base[..32].to_vec();
    assert_eq!(
        handle_virtio_read(gso(VIRTIO_NET_HDR_GSO_TCPV4), &mut input, &mut bufs, &mut sizes, 0),
        Err(OffloadError::PacketTooShort)
    );
    let mut input = base.clone();
    input[32] = 0x40;
    assert_eq!(
        handle_virtio_read(gso(VIRTIO_NET_HDR_GSO_TCPV4), &mut input, &mut bufs, &mut sizes, 0),
        Err(OffloadError::InvalidTcpHeaderLen { tcp_h_len: 16 })
    );
    let mut input = base[..36].to_vec();
    assert_eq!(
        handle_virtio_read(gso(VIRTIO_NET_HDR_GSO_TCPV4), &mut input, &mut bufs, &mut sizes, 0),
        Err(OffloadError::HeaderLenExceedsPacket { len: 36, hdr_len: 40 })
    );
    let mut input = base.clone();
    let far = VirtioNetHdr { flags: 1, gso_type: VIRTIO_NET_HDR_GSO_TCPV4, hdr_len: 40, gso_size: 50, csum_start: 20, csum_offset: 200 };
    assert_eq!(
        handle_virtio_read(far, &mut input, &mut bufs, &mut sizes, 0),
        Err(OffloadError::CsumOffsetExceedsPacket { csum_end: 221, len: base.len() })
    );
    let mut input = base.clone();
    assert_eq!(handle_virtio_read(gso(VIRTIO_NET_HDR_GSO_TCPV4), &mut input, &mut bufs, &mut sizes, 0), Ok(2));
    assert_eq!(&sizes[..2], &[90, 90]);
}

#[test]
fn virtio_read_admissibility() {
    let input = tcp4(1, 0x10, &payload(2500));
    let hdr = VirtioNetHdr {
        flags: VIRTIO_NET_HDR_F_NEEDS_CSUM,
        gso_type: VIRTIO_NET_HDR_GSO_TCPV4,
        hdr_len: 40,
        gso_size: 1000,
        csum_start: 20,
        csum_offset: 16,
    };
    let roomy = vec![vec![0u8; 1600]; 3];
    assert!(handle_virtio_read_admissible(hdr, &input, &roomy, 3, 0));
    assert!(gso_split_admissible(&input, hdr, &roomy, 3, 0, false));
    // Segment buffers too small for a segment.
    let small = vec![vec![0u8; 100]; 3];
    assert!(!handle_virtio_read_admissible(hdr, &input, &small, 3, 0));
    // Too few sizes for the segments.
    assert!(!gso_split_admissible(&input, hdr, &roomy, 2, 0, false));
    // Without GSO: one buffer and one size suffice.
    assert!(handle_virtio_read_admissible(VirtioNetHdr::default(), &input, &roomy, 1, 0));
    assert!(!handle_virtio_read_admissible(VirtioNetHdr::default(), &input, &roomy, 0, 0));
}
