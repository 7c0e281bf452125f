use tun_rs::{OffloadError, VirtioNetHdr, VIRTIO_NET_HDR_LEN};

#[test]
fn virtio_header_roundtrip() {
    let hdr = VirtioNetHdr { flags: 1, gso_type: 4, hdr_len: 60, gso_size: 1440, csum_start: 40, csum_offset: 16 };
    let mut buf = [0u8; 12];
    assert_eq!(hdr.encode(&mut buf), Ok(()));
    assert_eq!(VirtioNetHdr::decode(&buf), Ok(hdr));
    assert_eq!(buf[10], 0);
    assert_eq!(buf[11], 0);
}

#[test]
fn virtio_header_layout_in_host_order() {
    let hdr = VirtioNetHdr { flags: 1, gso_type: 5, hdr_len: 0x0102, gso_size: 0x0304, csum_start: 0x0506, csum_offset: 0x0708 };
    let mut buf = [0xEEu8; VIRTIO_NET_HDR_LEN];
    hdr.encode(&mut buf).unwrap();
    let mut expected = vec![1u8, 5];
    for v in [0x0102u16, 0x0304, 0x0506, 0x0708] {
        expected.extend_from_slice(&v.to_ne_bytes());
    }
    expected.extend_from_slice(&[0u8, 0u8]);
    assert_eq!(buf.to_vec(), expected);
}

#[test]
fn virtio_header_explicit_byte_orders() {
    let hdr = VirtioNetHdr { flags: 0, gso_type: 0, hdr_len: 0x0102, gso_size: 0, csum_start: 0, csum_offset: 0 };
    let mut le = [0u8; VIRTIO_NET_HDR_LEN];
    let mut be = [0u8; VIRTIO_NET_HDR_LEN];
    hdr.encode_with(&mut le, true).unwrap();
    hdr.encode_with(&mut be, false).unwrap();
    assert_eq!(&le[2..4], &[0x02, 0x01]);
    assert_eq!(&be[2..4], &[0x01, 0x02]);
    assert_eq!(VirtioNetHdr::decode_with(&le, true), Ok(hdr));
    assert_eq!(VirtioNetHdr::decode_with(&be, false), Ok(hdr));
}

#[test]
fn virtio_header_too_short() {
    assert_eq!(VirtioNetHdr::decode(&[0u8; 9]), Err(OffloadError::TooShort));
    let mut short = [7u8; 9];
    assert_eq!(VirtioNetHdr::default().encode(&mut short), Err(OffloadError::TooShort));
    assert_eq!(short, [7u8; 9]);
}

#[test]
fn virtio_header_is_twelve_bytes() {
    assert_eq!(VIRTIO_NET_HDR_LEN, 12);
    assert_eq!(VirtioNetHdr::decode(&[0u8; 11]), Err(OffloadError::TooShort));
    let mut short = [0u8; 11];
    assert_eq!(VirtioNetHdr::default().encode(&mut short), Err(OffloadError::TooShort));
    assert_eq!(short, [0u8; 11]);
    let mut long = [9u8; 14];
    assert_eq!(VirtioNetHdr::default().encode(&mut long), Ok(()));
    assert_eq!(long, [0, 0, 0, 0, 0, 0, 0, 0, 0, 0, 0, 0, 9, 9]);
}

#[test]
fn virtio_header_default_is_zero() {
    let hdr = VirtioNetHdr::default();
    assert_eq!(hdr, VirtioNetHdr { flags: 0, gso_type: 0, hdr_len: 0, gso_size: 0, csum_start: 0, csum_offset: 0 });
    let mut buf = [0xFFu8; VIRTIO_NET_HDR_LEN];
    hdr.encode(&mut buf).unwrap();
    assert_eq!(buf, [0u8; VIRTIO_NET_HDR_LEN]);
}
