//! The packets in a buffer read from a BPF device, as the macOS TAP back end
//! receives them: a sequence of records, each a `bpf_hdr` (capture length at
//! byte 8, header length at byte 16, in the byte order of the host) followed
//! by the captured bytes, the next record starting at the next multiple of
//! four bytes.
use crate::virtio::{host_is_little_endian, u16_of};
use vstd::prelude::*;

verus! {

/// The bytes of a `bpf_hdr` that are read: up to the end of its header
/// length field.
pub const BPF_HDR_READ_LEN: usize = 18;

/// The 32-bit value of the four bytes of `b` at `i` in the given byte order.
pub open spec fn u32_at(b: Seq<u8>, i: int, little: bool) -> nat {
    if little {
        b[i] as nat + (b[i + 1] as nat) * 0x100 + (b[i + 2] as nat) * 0x1_0000 + (b[i + 3] as nat) * 0x100_0000
    } else {
        (b[i] as nat) * 0x100_0000 + (b[i + 1] as nat) * 0x1_0000 + (b[i + 2] as nat) * 0x100 + b[i + 3] as nat
    }
}

/// The capture length of the record at `p`.
pub open spec fn bpf_caplen(b: Seq<u8>, p: int, little: bool) -> nat {
    u32_at(b, p + 8, little)
}

/// The header length of the record at `p`.
pub open spec fn bpf_hdrlen(b: Seq<u8>, p: int, little: bool) -> nat {
    u16_of(b[p + 16], b[p + 17], little) as nat
}

/// How far the record at `p` reaches: its header and capture lengths,
/// rounded down to a multiple of four after adding three.
pub open spec fn bpf_step(b: Seq<u8>, p: int, little: bool) -> nat {
    ((bpf_hdrlen(b, p, little) + bpf_caplen(b, p, little) + 3) / 4 * 4) as nat
}

/// The packets (start and length) of the records from `p` on, in the first
/// `len` bytes of `b`: a record with a nonzero capture length that lies
/// within those bytes yields its captured bytes, any other yields nothing.
/// `None` where the walk would read a header past the end of `b` or would
/// not advance.
pub open spec fn bpf_walk(b: Seq<u8>, len: int, p: int, little: bool) -> Option<Seq<(usize, usize)>>
    decreases len - p,
{
    if p >= len {
        Some(Seq::empty())
    } else if p + BPF_HDR_READ_LEN > b.len() || bpf_step(b, p, little) == 0 {
        None
    } else {
        let caplen = bpf_caplen(b, p, little);
        let hdrlen = bpf_hdrlen(b, p, little);
        let here = if caplen > 0 && p + hdrlen + caplen <= len {
            seq![((p + hdrlen) as usize, caplen as usize)]
        } else {
            Seq::empty()
        };
        let next = p + bpf_step(b, p, little);
        let rest = if next >= len {
            Some(Seq::empty())
        } else {
            bpf_walk(b, len, next, little)
        };
        match rest {
            Some(rest) => Some(here + rest),
            None => None,
        }
    }
}

/// One record of the walk: what it yields, then the walk from the next one.
proof fn lemma_bpf_walk_step(b: Seq<u8>, len: int, p: int, little: bool)
    requires
        0 <= p < len,
        p + BPF_HDR_READ_LEN <= b.len(),
        bpf_step(b, p, little) > 0,
    ensures
        bpf_walk(b, len, p, little) == ({
            let caplen = bpf_caplen(b, p, little);
            let hdrlen = bpf_hdrlen(b, p, little);
            let here = if caplen > 0 && p + hdrlen + caplen <= len {
                seq![((p + hdrlen) as usize, caplen as usize)]
            } else {
                Seq::empty()
            };
            let next = p + bpf_step(b, p, little);
            let rest = if next >= len {
                Some(Seq::empty())
            } else {
                bpf_walk(b, len, next, little)
            };
            match rest {
                Some(r) => Some(here + r),
                None => None,
            }
        }),
{
}

fn u32_from_bytes(a: u8, b: u8, c: u8, d: u8, little: bool) -> (r: u32)
    ensures
        r as nat == u32_at(seq![a, b, c, d], 0, little),
{
    if little {
        a as u32 + (b as u32) * 0x100 + (c as u32) * 0x1_0000 + (d as u32) * 0x100_0000
    } else {
        (a as u32) * 0x100_0000 + (b as u32) * 0x1_0000 + (c as u32) * 0x100 + d as u32
    }
}

/// The packets of the first `len` bytes of the BPF buffer `buffer`, with the
/// headers read in the given byte order, as [`bpf_walk`] says.
#[verifier::rlimit(80)]
#[verifier::spinoff_prover]
pub fn bpf_packets_with(buffer: &[u8], len: usize, little: bool) -> (r: Option<Vec<(usize, usize)>>)
    requires
        len <= buffer@.len(),
    ensures
        match r {
            Some(v) => bpf_walk(buffer@, len as int, 0, little) == Some(v@),
            None => bpf_walk(buffer@, len as int, 0, little) is None,
        },
{
    let ghost b = buffer@;
    let mut out: Vec<(usize, usize)> = Vec::new();
    let mut p: usize = 0;
    while p < len
        invariant
            b == buffer@,
            len <= b.len(),
            p <= len,
            bpf_walk(b, len as int, 0, little) == match bpf_walk(b, len as int, p as int, little) {
                Some(rest) => Some(out@ + rest),
                None => None::<Seq<(usize, usize)>>,
            },
        decreases len - p,
    {
        if buffer.len() - p < BPF_HDR_READ_LEN {
            return None;
        }
        let caplen = u32_from_bytes(buffer[p + 8], buffer[p + 9], buffer[p + 10], buffer[p + 11], little);
        let hdrlen = crate::virtio::u16_from_bytes(buffer[p + 16], buffer[p + 17], little);
        assert(caplen as nat == bpf_caplen(b, p as int, little));
        let sum: u64 = hdrlen as u64 + caplen as u64 + 3;
        let step: u64 = sum & !3u64;
        assert(sum & !3u64 == sum / 4 * 4) by (bit_vector);
        if step == 0 {
            return None;
        }
        let ghost here: Seq<(usize, usize)> = if caplen > 0 && p + hdrlen + caplen <= len {
            seq![((p + hdrlen) as usize, caplen as usize)]
        } else {
            Seq::empty()
        };
        let ghost rest = if p + step >= len {
            Some(Seq::<(usize, usize)>::empty())
        } else {
            bpf_walk(b, len as int, p + step, little)
        };
        assert(hdrlen as nat == bpf_hdrlen(b, p as int, little));
        assert(step as nat == bpf_step(b, p as int, little));
        proof {
            lemma_bpf_walk_step(b, len as int, p as int, little);
        }
        let ghost out0 = out@;
        if caplen > 0 && (hdrlen as u64) + (caplen as u64) <= (len - p) as u64 {
            out.push((p + hdrlen as usize, caplen as usize));
        }
        assert(out@ =~= out0 + here);
        proof {
            if let Some(r) = rest {
                assert(out0 + (here + r) =~= out@ + r);
            }
        }
        if step >= (len - p) as u64 {
            p = len;
        } else {
            p = p + step as usize;
        }
    }
    Some(out)
}

/// `r` is what [`bpf_walk`] gives for the first `len` bytes of `b` read in
/// the given byte order.
pub open spec fn bpf_packets_are(r: Option<Seq<(usize, usize)>>, b: Seq<u8>, len: int, little: bool) -> bool {
    r == bpf_walk(b, len, 0, little)
}

/// The packets (start and length) of the first `len` bytes of the BPF
/// buffer `buffer`, read in the byte order of the host, as [`bpf_walk`]
/// says; `None` where the records would run past the buffer or stop
/// advancing.
pub fn bpf_packets(buffer: &[u8], len: usize) -> (r: Option<Vec<(usize, usize)>>)
    requires
        len <= buffer@.len(),
    ensures
        bpf_packets_are(
            match r {
                Some(v) => Some(v@),
                None => None,
            },
            buffer@,
            len as int,
            true,
        ) || bpf_packets_are(
            match r {
                Some(v) => Some(v@),
                None => None,
            },
            buffer@,
            len as int,
            false,
        ),
{
    let little = host_is_little_endian();
    bpf_packets_with(buffer, len, little)
}

} // verus!
