//! The decisions a device makes around its I/O: whether a descriptor is
//! closed when dropped, how an interrupt event is triggered, how a batch of
//! writes is totalled, and the protocol-family header of the BSD and macOS
//! devices. The I/O itself is left to the caller, which performs what these
//! functions decide.
use vstd::prelude::*;

verus! {

/// Whether a descriptor `inner` is closed when its owner is dropped: it must
/// be valid (not negative) and owned rather than borrowed.
pub fn should_drop_cleanup(inner: i32, borrow: bool) -> (r: bool)
    ensures
        r == (inner >= 0 && !borrow),
{
    inner >= 0 && !borrow
}

/// What triggering an interrupt event with a value does.
#[derive(Debug, Clone, Copy, PartialEq, Eq, Structural)]
pub enum TriggerStep {
    /// The value 0 is refused: it stands for an event not triggered.
    Refused,
    /// The event is triggered already; nothing changes.
    AlreadyTriggered,
    /// The event takes the value, and its waiters are to be woken.
    Signal { state: i32 },
}

/// The step of triggering an event whose state is `state` with `val`.
pub fn trigger_step(state: i32, val: i32) -> (r: TriggerStep)
    ensures
        r == (if val == 0 {
            TriggerStep::Refused
        } else if state != 0 {
            TriggerStep::AlreadyTriggered
        } else {
            TriggerStep::Signal { state: val }
        }),
{
    if val == 0 {
        TriggerStep::Refused
    } else if state != 0 {
        TriggerStep::AlreadyTriggered
    } else {
        TriggerStep::Signal { state: val }
    }
}

/// The outcome of one write of a batch.
#[derive(Debug, Clone, Copy, PartialEq, Eq, Structural)]
pub enum WriteOutcome {
    /// The write took this many bytes.
    Written { len: usize },
    /// The write failed; `fatal` where the descriptor is bad (`EBADFD`).
    Failed { fatal: bool },
}

/// Where the writes of a batch stand: the bytes written so far, and the
/// position of the last write that failed, if any.
#[derive(Debug, Clone, Copy, PartialEq, Eq, Structural)]
pub struct WriteProgress {
    pub total: usize,
    pub last_error: Option<usize>,
}

/// What follows one write of a batch.
#[derive(Debug, Clone, Copy, PartialEq, Eq, Structural)]
pub enum WriteNext {
    /// Go on with the next write.
    Continue { progress: WriteProgress },
    /// Stop and report the error of this write.
    Stop,
}

/// The step after write number `k` of a batch came out as `outcome`: bytes
/// written are added to the total, a failure is remembered as the last
/// one, and a failure on a bad descriptor stops the batch.
pub fn write_step(p: WriteProgress, k: usize, outcome: WriteOutcome) -> (r: WriteNext)
    requires
        outcome matches WriteOutcome::Written { len } ==> p.total + len <= usize::MAX,
    ensures
        r == (match outcome {
            WriteOutcome::Written { len } => WriteNext::Continue {
                progress: WriteProgress { total: (p.total + len) as usize, last_error: p.last_error },
            },
            WriteOutcome::Failed { fatal } => if fatal {
                WriteNext::Stop
            } else {
                WriteNext::Continue { progress: WriteProgress { total: p.total, last_error: Some(k) } }
            },
        }),
{
    match outcome {
        WriteOutcome::Written { len } => WriteNext::Continue {
            progress: WriteProgress { total: p.total + len, last_error: p.last_error },
        },
        WriteOutcome::Failed { fatal } => if fatal {
            WriteNext::Stop
        } else {
            WriteNext::Continue { progress: WriteProgress { total: p.total, last_error: Some(k) } }
        },
    }
}

/// What a batch of writes reports once every write is done: the error of
/// the last write that failed, if any, else the bytes written.
pub fn write_result(p: WriteProgress) -> (r: Result<usize, usize>)
    ensures
        r == (match p.last_error {
            Some(k) => Err::<usize, usize>(k),
            None => Ok::<usize, usize>(p.total),
        }),
{
    match p.last_error {
        Some(k) => Err(k),
        None => Ok(p.total),
    }
}

/// The big-endian bytes of `v`.
pub open spec fn be32_bytes(v: u32) -> Seq<u8> {
    seq![(v / 0x100_0000) as u8, ((v / 0x1_0000) % 256) as u8, ((v / 0x100) % 256) as u8, (v % 256) as u8]
}

/// The header that the BSD and macOS devices put in front of a packet: the
/// protocol family (`af_inet6` for IPv6, `af_inet` for IPv4, as the
/// platform numbers them), big-endian.
pub fn generate_packet_information(ipv6: bool, af_inet: u32, af_inet6: u32) -> (r: [u8; 4])
    ensures
        r@ == be32_bytes(if ipv6 { af_inet6 } else { af_inet }),
{
    let v = if ipv6 { af_inet6 } else { af_inet };
    let r = [(v / 0x100_0000) as u8, ((v / 0x1_0000) % 256) as u8, ((v / 0x100) % 256) as u8, (v % 256) as u8];
    assert(r@ =~= be32_bytes(v));
    r
}

/// The packet bytes a write of `written` bytes carried, the 4-byte
/// protocol-family header not counted.
pub fn payload_sent(written: usize) -> (r: usize)
    ensures
        r == (if written >= 4 { written - 4 } else { 0 }),
{
    if written >= 4 {
        written - 4
    } else {
        0
    }
}

} // verus!
