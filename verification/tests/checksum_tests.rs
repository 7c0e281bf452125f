use tun_rs::checksum::{checksum, checksum_no_fold, pseudo_header_checksum_no_fold};

/// The RFC 1071 reference: 16-bit big-endian words, an odd byte padded,
/// summed with end-around carry.
fn rfc1071(data: &[u8], initial: u64) -> u16 {
    let mut sum: u64 = initial;
    let mut i = 0;
    while i + 1 < data.len() {
        sum += ((data[i] as u64) << 8) | data[i + 1] as u64;
        i += 2;
    }
    if i < data.len() {
        sum += (data[i] as u64) << 8;
    }
    while sum > 0xFFFF {
        sum = (sum >> 16) + (sum & 0xFFFF);
    }
    sum as u16
}

#[test]
fn checksum_of_nothing_is_folded_initial() {
    assert_eq!(checksum(&[], 0), 0);
    assert_eq!(checksum(&[], 0x1_0000), 1);
    assert_eq!(checksum(&[], 0xFFFF), 0xFFFF);
    assert_eq!(checksum(&[], 0x1FFFE), 0xFFFF);
}

#[test]
fn checksum_rfc1071_example() {
    let data = [0x00u8, 0x01, 0xf2, 0x03, 0xf4, 0xf5, 0xf6, 0xf7];
    assert_eq!(checksum(&data, 0), 0xddf2);
}

#[test]
fn checksum_odd_length_pads_last_byte() {
    assert_eq!(checksum_no_fold(&[0xAB], 0), 0xAB00);
    assert_eq!(checksum(&[0xAB], 0), 0xAB00);
    assert_eq!(checksum_no_fold(&[1, 2, 3, 4, 5, 6, 7], 0), 0x0102_0304 + 0x0506 + 0x0700);
}

#[test]
fn checksum_no_fold_adds_initial() {
    assert_eq!(checksum_no_fold(&[0xFF, 0xFF, 0xFF, 0xFF], 5), 0xFFFF_FFFF + 5);
}

#[test]
fn pseudo_header_sum_of_ipv4_addresses() {
    let r = pseudo_header_checksum_no_fold(6, &[10, 0, 0, 1], &[10, 0, 0, 2], 20);
    assert_eq!(r, 0x0A00_0001 + 0x0A00_0002 + 0x0006_0014);
}

#[test]
fn checksum_agrees_with_rfc1071_sum() {
    let mut data: Vec<u8> = Vec::new();
    for i in 0..1001u32 {
        data.push((i.wrapping_mul(37) ^ 0x5A) as u8);
    }
    for len in [0usize, 1, 2, 3, 4, 5, 7, 8, 63, 64, 65, 1000, 1001] {
        for init in [0u64, 1, 0xFFFF, 0x1234_5678] {
            assert_eq!(checksum(&data[..len], init), rfc1071(&data[..len], init));
        }
    }
}

#[test]
fn pseudo_header_sum_matches_concatenated_bytes() {
    let src = [192u8, 168, 1, 2];
    let dst = [10u8, 0, 0, 9];
    let mut all = Vec::new();
    all.extend_from_slice(&src);
    all.extend_from_slice(&dst);
    all.extend_from_slice(&[0, 17, 0x05, 0xDC]);
    assert_eq!(pseudo_header_checksum_no_fold(17, &src, &dst, 1500), checksum_no_fold(&all, 0));
    let src6 = [0x20u8, 1, 0xd, 0xb8, 0, 0, 0, 0, 0, 0, 0, 0, 0, 0, 0, 1];
    let dst6 = [0xfeu8, 0x80, 0, 0, 0, 0, 0, 0, 0, 0, 0, 0, 0, 0, 0, 2];
    let mut all6 = Vec::new();
    all6.extend_from_slice(&src6);
    all6.extend_from_slice(&dst6);
    all6.extend_from_slice(&[0, 6, 0, 40]);
    assert_eq!(pseudo_header_checksum_no_fold(6, &src6, &dst6, 40), checksum_no_fold(&all6, 0));
}

#[test]
fn checksum_carries_across_an_even_split() {
    let data: Vec<u8> = (0..257u32).map(|i| (i * 37 + 11) as u8).collect();
    for cut in [0usize, 2, 6, 10, 100, 256] {
        let (a, b) = data.split_at(cut);
        assert_eq!(checksum(&data, 0x1234), checksum(b, checksum_no_fold(a, 0x1234)));
    }
}
