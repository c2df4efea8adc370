//! The uTP connection packet: the 20-byte ST_SYN record a datagram
//! handshake opens with.
use vstd::prelude::*;

verus! {

use crate::utils::u16_be;
use crate::utils::u32_be;

/// The ST_SYN type nibble joined with version 1.
pub const SYN_HEAD: u8 = 0x41;

/// A 20-byte uTP packet: type and version, extension, connection id,
/// timestamps, receive window, and the sequence counters.
#[derive(Eq, PartialEq, PartialOrd, Ord)]
pub struct UtpPacket {
    pub packet_version: u8,
    pub extension: u8,
    pub connection_id: u16,
    pub timestamp: u32,
    pub timestamp_difference: u32,
    pub window_size: u32,
    /// sequence number
    pub seq_number: u16,
    /// acknowledged number
    pub ack_number: u16,
}

fn make_stamp() -> u32 {
    let (secs, micros) = crate::utils::unix_time();
    let low = (secs.wrapping_add(1_000_000) % 0x1_0000_0000) as u32;
    low.wrapping_add(micros)
}

impl UtpPacket {
    /// A fresh ST_SYN packet: header `0x41`, no extension, a fixed
    /// nonzero connection id, the current clock stamp, a 60928-byte
    /// window, sequence 1 and nothing acknowledged.
    pub fn new() -> (r: UtpPacket)
        ensures
            r.packet_version == SYN_HEAD,
            r.extension == 0,
            r.connection_id == 0x35,
            r.timestamp_difference == 0,
            r.window_size == 0xf000,
            r.seq_number == 1,
            r.ack_number == 0,
    {
        let timestamp = make_stamp();
        UtpPacket {
            packet_version: SYN_HEAD,
            extension: 0,
            connection_id: 0x35,
            timestamp,
            timestamp_difference: 0,
            window_size: 0xf000,
            seq_number: 1,
            ack_number: 0,
        }
    }

    /// Refresh the clock stamp; every other field keeps its value.
    pub fn refetch_timestamp(&mut self)
        ensures
            final(self).packet_version == old(self).packet_version,
            final(self).extension == old(self).extension,
            final(self).connection_id == old(self).connection_id,
            final(self).timestamp_difference == old(self).timestamp_difference,
            final(self).window_size == old(self).window_size,
            final(self).seq_number == old(self).seq_number,
            final(self).ack_number == old(self).ack_number,
    {
        let timestamp = make_stamp();
        self.timestamp = timestamp;
    }

    /// The 20 bytes that go on the wire, all multi-byte fields
    /// big-endian.
    pub fn as_bytes(self) -> (r: Vec<u8>)
        ensures
            r@ == seq![self.packet_version, self.extension] + u16_be(self.connection_id) + u32_be(
                self.timestamp,
            ) + u32_be(self.timestamp_difference) + u32_be(self.window_size) + u16_be(
                self.seq_number,
            ) + u16_be(self.ack_number),
            r@.len() == 20,
    {
        let mut bytes: Vec<u8> = Vec::new();
        bytes.push(self.packet_version);
        bytes.push(self.extension);
        crate::utils::push_u16_be(&mut bytes, self.connection_id);
        crate::utils::push_u32_be(&mut bytes, self.timestamp);
        crate::utils::push_u32_be(&mut bytes, self.timestamp_difference);
        crate::utils::push_u32_be(&mut bytes, self.window_size);
        crate::utils::push_u16_be(&mut bytes, self.seq_number);
        crate::utils::push_u16_be(&mut bytes, self.ack_number);
        proof {
            assert(bytes@ =~= seq![self.packet_version, self.extension] + u16_be(
                self.connection_id,
            ) + u32_be(self.timestamp) + u32_be(self.timestamp_difference) + u32_be(
                self.window_size,
            ) + u16_be(self.seq_number) + u16_be(self.ack_number));
        }
        bytes
    }
}

} // verus!
