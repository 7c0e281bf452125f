//! The virtio network header that precedes every packet on a Linux TUN
//! device with offload enabled (`struct virtio_net_hdr` of the kernel).
use vstd::prelude::*;

verus! {

/// GSO type: not a GSO frame (a normal packet).
pub const VIRTIO_NET_HDR_GSO_NONE: u8 = 0;

/// Flag: the checksum from `csum_start` is to be computed and stored at
/// `csum_start + csum_offset`.
pub const VIRTIO_NET_HDR_F_NEEDS_CSUM: u8 = 1;

/// GSO type: IPv4 TCP segmentation.
pub const VIRTIO_NET_HDR_GSO_TCPV4: u8 = 1;

/// GSO type: IPv6 TCP segmentation.
pub const VIRTIO_NET_HDR_GSO_TCPV6: u8 = 4;

/// GSO type: UDP segmentation for IPv4 and IPv6.
pub const VIRTIO_NET_HDR_GSO_UDP_L4: u8 = 5;

/// Size of the virtio network header in bytes (12 bytes): the six fields of
/// [`VirtioNetHdr`] laid out as in `#[repr(C)]`, 1 + 1 + 2 + 2 + 2 + 2
/// bytes, followed by two bytes that an encoded header holds as zero.
pub const VIRTIO_NET_HDR_LEN: usize = 12;

/// Recommended number of packets per batch operation.
pub const IDEAL_BATCH_SIZE: usize = 128;

/// Errors of the offload operations.
#[derive(Debug, Clone, Copy, PartialEq, Eq)]
pub enum OffloadError {
    /// A buffer is shorter than a virtio network header.
    TooShort,
    /// The packet offset leaves no room for a virtio header, or lies past
    /// the end of a buffer.
    InvalidOffset,
    /// A GSO packet needs more segments than there are output buffers.
    TooManySegments,
    /// A packet read from the device does not fit the first output buffer
    /// at the given offset.
    ReadOverflowsBuffer { read_len: usize, buf_len: usize },
    /// The GSO type of a received packet is not one this library splits.
    UnsupportedGsoType { gso_type: u8 },
    /// The GSO type of a received packet does not match its IP version.
    GsoTypeMismatch { ip_version: u8, gso_type: u8 },
    /// The IP version nibble of a received packet is neither 4 nor 6.
    InvalidIpVersion { ip_version: u8 },
    /// A received TCP packet ends before its TCP header length field.
    PacketTooShort,
    /// The TCP header length of a received packet is not in 20..=60.
    InvalidTcpHeaderLen { tcp_h_len: u16 },
    /// The packet is shorter than its headers.
    HeaderLenExceedsPacket { len: usize, hdr_len: u16 },
    /// The header length is below the checksum start.
    HeaderLenBelowCsumStart { hdr_len: u16, csum_start: u16 },
    /// The checksum field lies past the end of the packet.
    CsumOffsetExceedsPacket { csum_end: usize, len: usize },
}

/// Virtio network header for offload support; multi-byte fields are in the
/// byte order of the host.
#[derive(Debug, Clone, Copy, PartialEq, Eq, Structural)]
pub struct VirtioNetHdr {
    pub flags: u8,
    pub gso_type: u8,
    pub hdr_len: u16,
    pub gso_size: u16,
    pub csum_start: u16,
    pub csum_offset: u16,
}

/// The header with every field zero.
pub open spec fn zero_hdr() -> VirtioNetHdr {
    VirtioNetHdr { flags: 0, gso_type: 0, hdr_len: 0, gso_size: 0, csum_start: 0, csum_offset: 0 }
}

impl Default for VirtioNetHdr {
    fn default() -> (h: VirtioNetHdr)
        ensures
            h == zero_hdr(),
    {
        VirtioNetHdr { flags: 0, gso_type: 0, hdr_len: 0, gso_size: 0, csum_start: 0, csum_offset: 0 }
    }
}

/// The 16-bit value of the bytes `a` (first) and `b` (second) in little-
/// endian (`little`) or big-endian byte order.
pub open spec fn u16_of(a: u8, b: u8, little: bool) -> u16 {
    if little {
        (a as nat + (b as nat) * 256) as u16
    } else {
        ((a as nat) * 256 + b as nat) as u16
    }
}

/// The first of the two bytes of `v` in the given byte order.
pub open spec fn first_byte(v: u16, little: bool) -> u8 {
    if little {
        (v % 256) as u8
    } else {
        (v / 256) as u8
    }
}

/// The second of the two bytes of `v` in the given byte order.
pub open spec fn second_byte(v: u16, little: bool) -> u8 {
    if little {
        (v / 256) as u8
    } else {
        (v % 256) as u8
    }
}

/// The header that the first [`VIRTIO_NET_HDR_LEN`] bytes of `s` hold, read
/// in the given byte order.
pub open spec fn hdr_from_bytes(s: Seq<u8>, little: bool) -> VirtioNetHdr {
    VirtioNetHdr {
        flags: s[0],
        gso_type: s[1],
        hdr_len: u16_of(s[2], s[3], little),
        gso_size: u16_of(s[4], s[5], little),
        csum_start: u16_of(s[6], s[7], little),
        csum_offset: u16_of(s[8], s[9], little),
    }
}

/// The [`VIRTIO_NET_HDR_LEN`] bytes of `h` in the given byte order: its
/// fields, then two zero bytes.
pub open spec fn hdr_bytes(h: VirtioNetHdr, little: bool) -> Seq<u8> {
    seq![
        h.flags,
        h.gso_type,
        first_byte(h.hdr_len, little),
        second_byte(h.hdr_len, little),
        first_byte(h.gso_size, little),
        second_byte(h.gso_size, little),
        first_byte(h.csum_start, little),
        second_byte(h.csum_start, little),
        first_byte(h.csum_offset, little),
        second_byte(h.csum_offset, little),
        0u8,
        0u8,
    ]
}

/// `s` with `h` written over its first [`VIRTIO_NET_HDR_LEN`] bytes.
pub open spec fn write_hdr(s: Seq<u8>, h: VirtioNetHdr, little: bool) -> Seq<u8> {
    hdr_bytes(h, little) + s.subrange(12, s.len() as int)
}

/// `u16::from_ne_bytes`: the value of the two bytes in the byte order of
/// the machine, which is either little-endian or big-endian; which one is
/// left open, as it depends on the machine.
#[verifier::external_body]
fn u16_from_ne_bytes(bytes: [u8; 2]) -> (r: u16)
    ensures
        r == u16_of(bytes[0], bytes[1], true) || r == u16_of(bytes[0], bytes[1], false),
{
    u16::from_ne_bytes(bytes)
}

/// Whether the host stores multi-byte integers least significant byte
/// first. Which of the two it is depends on the machine, so no clause
/// states it; the functions that depend on it take it as an argument.
pub fn host_is_little_endian() -> bool {
    u16_from_ne_bytes([1u8, 0u8]) == 1
}

pub(crate) fn u16_from_bytes(a: u8, b: u8, little: bool) -> (r: u16)
    ensures
        r == u16_of(a, b, little),
{
    if little {
        a as u16 + (b as u16) * 256
    } else {
        (a as u16) * 256 + b as u16
    }
}

fn first_byte_of(v: u16, little: bool) -> (r: u8)
    ensures
        r == first_byte(v, little),
{
    if little {
        (v % 256) as u8
    } else {
        (v / 256) as u8
    }
}

fn second_byte_of(v: u16, little: bool) -> (r: u8)
    ensures
        r == second_byte(v, little),
{
    if little {
        (v / 256) as u8
    } else {
        (v % 256) as u8
    }
}

/// Decoding what encoding wrote gives the header back, in either byte order.
pub proof fn lemma_hdr_roundtrip(h: VirtioNetHdr, little: bool)
    ensures
        hdr_from_bytes(hdr_bytes(h, little), little) == h,
{
    let b = hdr_bytes(h, little);
    assert(u16_of(first_byte(h.hdr_len, little), second_byte(h.hdr_len, little), little)
        == h.hdr_len);
    assert(u16_of(first_byte(h.gso_size, little), second_byte(h.gso_size, little), little)
        == h.gso_size);
    assert(u16_of(first_byte(h.csum_start, little), second_byte(h.csum_start, little), little)
        == h.csum_start);
    assert(u16_of(first_byte(h.csum_offset, little), second_byte(h.csum_offset, little), little)
        == h.csum_offset);
}

/// Encoding what decoding read gives the bytes back, in either byte order,
/// where the header's two trailing bytes are zero.
pub proof fn lemma_bytes_roundtrip(s: Seq<u8>, little: bool)
    requires
        s.len() == VIRTIO_NET_HDR_LEN,
        s[10] == 0,
        s[11] == 0,
    ensures
        hdr_bytes(hdr_from_bytes(s, little), little) == s,
{
    let h = hdr_from_bytes(s, little);
    assert(first_byte(u16_of(s[2], s[3], little), little) == s[2]);
    assert(second_byte(u16_of(s[2], s[3], little), little) == s[3]);
    assert(first_byte(u16_of(s[4], s[5], little), little) == s[4]);
    assert(second_byte(u16_of(s[4], s[5], little), little) == s[5]);
    assert(first_byte(u16_of(s[6], s[7], little), little) == s[6]);
    assert(second_byte(u16_of(s[6], s[7], little), little) == s[7]);
    assert(first_byte(u16_of(s[8], s[9], little), little) == s[8]);
    assert(second_byte(u16_of(s[8], s[9], little), little) == s[9]);
    assert(hdr_bytes(h, little) =~= s);
}

impl VirtioNetHdr {
    /// Decodes a header from the first [`VIRTIO_NET_HDR_LEN`] bytes of
    /// `buf`, with its multi-byte fields in the given byte order.
    pub fn decode_with(buf: &[u8], little: bool) -> (r: Result<VirtioNetHdr, OffloadError>)
        ensures
            buf@.len() < VIRTIO_NET_HDR_LEN ==> r == Err::<VirtioNetHdr, OffloadError>(
                OffloadError::TooShort,
            ),
            buf@.len() >= VIRTIO_NET_HDR_LEN ==> r == Ok::<VirtioNetHdr, OffloadError>(
                hdr_from_bytes(buf@, little),
            ),
    {
        if buf.len() < VIRTIO_NET_HDR_LEN {
            return Err(OffloadError::TooShort);
        }
        Ok(VirtioNetHdr {
            flags: buf[0],
            gso_type: buf[1],
            hdr_len: u16_from_bytes(buf[2], buf[3], little),
            gso_size: u16_from_bytes(buf[4], buf[5], little),
            csum_start: u16_from_bytes(buf[6], buf[7], little),
            csum_offset: u16_from_bytes(buf[8], buf[9], little),
        })
    }

    /// Decodes a header from the first [`VIRTIO_NET_HDR_LEN`] bytes of
    /// `buf`, in the byte order of the host.
    pub fn decode(buf: &[u8]) -> (r: Result<VirtioNetHdr, OffloadError>)
        ensures
            buf@.len() < VIRTIO_NET_HDR_LEN ==> r == Err::<VirtioNetHdr, OffloadError>(
                OffloadError::TooShort,
            ),
            buf@.len() >= VIRTIO_NET_HDR_LEN ==> (r == Ok::<VirtioNetHdr, OffloadError>(
                hdr_from_bytes(buf@, true),
            ) || r == Ok::<VirtioNetHdr, OffloadError>(hdr_from_bytes(buf@, false))),
    {
        let little = host_is_little_endian();
        Self::decode_with(buf, little)
    }

    /// Writes this header over the first [`VIRTIO_NET_HDR_LEN`] bytes of
    /// `buf`, with its multi-byte fields in the given byte order.
    pub fn encode_with(&self, buf: &mut [u8], little: bool) -> (r: Result<(), OffloadError>)
        ensures
            old(buf)@.len() < VIRTIO_NET_HDR_LEN ==> r == Err::<(), OffloadError>(
                OffloadError::TooShort,
            ) && final(buf)@ == old(buf)@,
            old(buf)@.len() >= VIRTIO_NET_HDR_LEN ==> r == Ok::<(), OffloadError>(())
                && final(buf)@ == write_hdr(old(buf)@, *self, little),
    {
        if buf.len() < VIRTIO_NET_HDR_LEN {
            return Err(OffloadError::TooShort);
        }
        buf[0] = self.flags;
        buf[1] = self.gso_type;
        buf[2] = first_byte_of(self.hdr_len, little);
        buf[3] = second_byte_of(self.hdr_len, little);
        buf[4] = first_byte_of(self.gso_size, little);
        buf[5] = second_byte_of(self.gso_size, little);
        buf[6] = first_byte_of(self.csum_start, little);
        buf[7] = second_byte_of(self.csum_start, little);
        buf[8] = first_byte_of(self.csum_offset, little);
        buf[9] = second_byte_of(self.csum_offset, little);
        buf[10] = 0;
        buf[11] = 0;
        assert(buf@ =~= write_hdr(old(buf)@, *self, little));
        Ok(())
    }

    /// Writes this header over the first [`VIRTIO_NET_HDR_LEN`] bytes of
    /// `buf`, in the byte order of the host.
    pub fn encode(&self, buf: &mut [u8]) -> (r: Result<(), OffloadError>)
        ensures
            old(buf)@.len() < VIRTIO_NET_HDR_LEN ==> r == Err::<(), OffloadError>(
                OffloadError::TooShort,
            ) && final(buf)@ == old(buf)@,
            old(buf)@.len() >= VIRTIO_NET_HDR_LEN ==> r == Ok::<(), OffloadError>(()) && (
            final(buf)@ == write_hdr(old(buf)@, *self, true) || final(buf)@ == write_hdr(
                old(buf)@,
                *self,
                false,
            )),
    {
        let little = host_is_little_endian();
        self.encode_with(buf, little)
    }
}

} // verus!
