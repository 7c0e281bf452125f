use tun_rs::bpf::bpf_packets;

fn record(buf: &mut Vec<u8>, hdrlen: u16, caplen: u32, data: &[u8]) {
    let start = buf.len();
    buf.resize(start + hdrlen as usize, 0);
    buf[start + 8..start + 12].copy_from_slice(&caplen.to_ne_bytes());
    buf[start + 16..start + 18].copy_from_slice(&hdrlen.to_ne_bytes());
    buf.extend_from_slice(data);
    while buf.len() % 4 != 0 {
        buf.push(0);
    }
}

#[test]
fn bpf_records_yield_their_packets() {
    let mut buf = Vec::new();
    record(&mut buf, 20, 5, &[1, 2, 3, 4, 5]);
    record(&mut buf, 20, 0, &[]);
    record(&mut buf, 18, 6, &[9; 6]);
    let len = buf.len();
    buf.resize(len + 64, 0xEE);
    assert_eq!(bpf_packets(&buf, len), Some(vec![(20, 5), (66, 6)]));
    assert_eq!(&buf[20..25], &[1, 2, 3, 4, 5]);
}

#[test]
fn bpf_record_past_the_data_is_skipped() {
    let mut buf = Vec::new();
    record(&mut buf, 20, 4, &[7; 4]);
    let len = buf.len() - 2;
    assert_eq!(bpf_packets(&buf, len), Some(vec![]));
    assert_eq!(bpf_packets(&buf, 0), Some(vec![]));
}

#[test]
fn bpf_malformed_buffers_are_refused() {
    let buf = vec![0u8; 64];
    assert_eq!(bpf_packets(&buf, 64), None);
    let mut short = Vec::new();
    record(&mut short, 20, 4, &[7; 4]);
    short.truncate(20);
    assert_eq!(bpf_packets(&short, 20), Some(vec![]));
    let mut two = Vec::new();
    record(&mut two, 20, 4, &[7; 4]);
    two.extend_from_slice(&[0u8; 10]);
    let len = two.len();
    assert_eq!(bpf_packets(&two, len), None);
}
