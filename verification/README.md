# tun_rs

The packet logic of a TUN/TAP library, written in Verus: every function in
`src/` carries a contract that Verus proves, except the few small wrappers
(marked `#[verifier::external_body]`) through which the library calls
`byteorder`, `encoding_rs` and a handful of standard library functions;
their contracts are trusted, and each one's doc comment says what it claims
of the function it calls.

- `checksum`: the Internet checksum (RFC 1071), with the proof that the
  32-bit accumulation folds to the 16-bit word sum.
- `virtio`: the virtio network header that precedes packets on a Linux TUN
  device with offload, and its encoding in either byte order.
- `gso`: splitting a large TCP or UDP packet into segments (with proofs that
  the segments partition the payload and carry checksums that verify), and
  completing partial checksums.
- `gro`, `gro_batch`: coalescing the packets of one flow in a batch, and the
  rewriting of headers and checksums that follows.
- `utf16`, `netsh`, `ioctl`: helpers of the Windows back end (UTF-16
  strings, `netsh` command lines and the outcome reported for a command's
  output, I/O control codes).
- `bpf`, `dev_name`, `ip_version`: helpers of the BSD and macOS back ends.
- `byte_order`: big-endian access through the `byteorder` crate.

`app/` holds the I/O around the library: reading and writing batches,
running commands, and the state and kernel structures that the library does
not model. `tests/` exercises the library on concrete packets.

## Design notes

- The virtio header is 12 bytes (`VIRTIO_NET_HDR_LEN`): the six fields of
  `VirtioNetHdr` (10 bytes) followed by two bytes that an encoded header
  holds as zero.
- The GRO flow tables keep their flows in two vectors, keys and items, in
  the order the flows were first seen, rather than in a `HashMap`. The
  contracts speak of the flows as a sequence, and of a table's walk over
  them: the order in which a `HashMap` is walked cannot be stated, and for
  the struct keys a flow needs (two addresses, two ports, an
  acknowledgement number) Verus's specification of `HashMap` proves
  nothing of lookups. The outcome of a batch does not depend on the order,
  as the items of different flows refer to different buffers.
- The buffers of a batch are `Vec<u8>`, for which `ExpandBuffer` is
  implemented and proved; an implementation for another crate's buffer type
  would have to stand in that crate or in `app/`, where nothing proves it.
