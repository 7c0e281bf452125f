//! Packet-level logic of a TUN/TAP library: Internet checksums, the virtio
//! network header, Generic Receive Offload (coalescing) and Generic
//! Segmentation Offload (splitting) for Linux TUN devices with offload
//! enabled, and the pure helpers of the platform back ends (UTF-16 strings
//! and `netsh` commands for Windows, I/O control codes, IP versions).
#![allow(non_camel_case_types)]
#![allow(non_snake_case)]

pub mod byte_order;
pub mod checksum;
pub mod virtio;
pub mod gso;
pub mod gro;
pub mod gro_batch;
pub mod utf16;
pub mod netsh;
pub mod ioctl;
pub mod ip_version;
pub mod bpf;
pub mod dev_name;
pub mod device;

pub use checksum::{checksum, checksum_no_fold, pseudo_header_checksum_no_fold};
pub use gro::{
    packet_is_gro_candidate, ExpandBuffer, GroCandidateType, TcpFlowKey, TcpGROItem, TcpGROTable, UdpFlowKey,
    UdpGROItem, UdpGROTable,
};
pub use gro_batch::{apply_tcp_coalesce_accounting, apply_udp_coalesce_accounting, handle_gro, GROTable};
pub use gso::{gso_none_checksum, gso_split, handle_virtio_read};
pub use virtio::{
    OffloadError, VirtioNetHdr, IDEAL_BATCH_SIZE, VIRTIO_NET_HDR_F_NEEDS_CSUM, VIRTIO_NET_HDR_GSO_NONE,
    VIRTIO_NET_HDR_GSO_TCPV4, VIRTIO_NET_HDR_GSO_TCPV6, VIRTIO_NET_HDR_GSO_UDP_L4, VIRTIO_NET_HDR_LEN,
};
