//! A transport-stream filtering engine for ISDB/DVB broadcast streams.
//!
//! The engine classifies each fixed-size 188-byte packet by its 13-bit
//! packet identifier (PID), analyzes the Program Association Table once
//! per stream, caches a rebuilt PAT that lists only the selected
//! services, reassembles Program Map Table sections across packets, and
//! keeps a per-PID retention table that decides which packets of a live
//! stream are copied through. A version change on a tracked PMT
//! triggers a rescan that re-derives the retained PIDs without dropping
//! the ones the new tables confirm.
//!
//! [`state::split_startup`] creates the engine state for one selection
//! expression; [`filter::split_select`] primes the selection from
//! incoming packets; [`filter::split_ts`] filters a buffer once the
//! selection is ready. The laws in [`laws`] state the engine's
//! stream-level guarantees.

pub mod channel;
pub mod filter;
pub mod laws;
pub mod pat;
pub mod pmt;
pub mod selection;
pub mod state;

use vstd::prelude::*;

verus! {

/// Outcome of one engine operation on a packet or buffer.
#[derive(Debug, Copy, Clone, PartialEq, Eq, Structural)]
pub enum TsStatus {
    /// The operation finished: a section completed, or the selection is ready.
    Success,
    /// A malformed section or a reassembly discontinuity was detected.
    Error,
    /// A rescan pass is still in progress.
    Null,
    /// A multi-packet section needs more packets.
    Continue,
}

/// The 13-bit packet identifier carried in bytes 1 and 2 of a packet.
pub open spec fn spec_pid(d: Seq<u8>, off: int) -> u16 {
    ((d[off + 1] % 32) as u16 * 256 + d[off + 2] as u16) as u16
}

/// Whether the packet's payload-unit-start indicator (byte 1, bit `0x40`)
/// is set: the packet carries the start of a new section.
pub open spec fn spec_payload_start(d: Seq<u8>) -> bool {
    d[1] / 64 % 2 == 1
}

/// The section length field of a section that starts in this packet:
/// the low nibble of byte 6 and all of byte 7.
pub open spec fn spec_section_len(d: Seq<u8>) -> u16 {
    ((d[6] % 16) as u16 * 256 + d[7] as u16) as u16
}

/// The packet's 4-bit continuity counter (low nibble of byte 3).
pub open spec fn spec_cc(d: Seq<u8>) -> u8 {
    d[3] % 16
}

/// The version field of a PMT section header (byte 10, bits `0x3E`).
pub open spec fn spec_version_byte(d: Seq<u8>) -> u8 {
    ((d[10] / 2 % 32) * 2) as u8
}

/// Reads the 13-bit PID from the start of a packet slice.
pub fn get_pid(data: &[u8]) -> (pid: u16)
    requires
        data@.len() >= 3,
    ensures
        pid == spec_pid(data@, 0),
        pid < 8192,
{
    (data[1] % 32) as u16 * 256 + data[2] as u16
}

} // verus!
