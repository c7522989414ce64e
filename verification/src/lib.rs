//! Verified core of a kernel-bypass packet relay and shred reassembly
//! pipeline.
//!
//! The library models the zero-copy datapath (UMEM frame arena, the four
//! descriptor rings, the relay decision loop) and the shred reassembly
//! engine (per-slot bitmap tracking, segment detection, deshredding) as
//! verified data structures with contracts. The unverifiable shell around
//! it (sockets, BPF loading, capability and scheduler syscalls) lives
//! outside the library and hands it plain values.

use vstd::prelude::*;

pub mod classifier;
pub mod datapath;
pub mod descriptor;
pub mod laws;
pub mod packet;
pub mod reassembler;
pub mod ring;
pub mod shred;
pub mod umem;
pub mod window;

verus! {

/// The size in bytes of an Ethernet header: destination MAC, source MAC,
/// ethertype.
pub const ETH_HEADER_SIZE: usize = 14;

/// The size in bytes of an IPv4 header without options.
pub const IP_HEADER_SIZE: usize = 20;

/// The size in bytes of a UDP header.
pub const UDP_HEADER_SIZE: usize = 8;

} // verus!
