//! The peer handshake record and the tracker's answer: the 68-byte
//! handshake this client sends, and the peer directory an announce
//! returns.
use vstd::prelude::*;

verus! {

use crate::url::Url;

/// The fixed 68-byte BitTorrent handshake: length byte, protocol name,
/// eight reserved feature bytes, info-hash and peer id.
pub struct Handshake {
    pub len: u8,
    pub protocol: [u8; 19],
    pub reserved: [u8; 8],
    pub info_hash: [u8; 20],
    pub peer_id: [u8; 20],
}

/// The ASCII bytes of `BitTorrent protocol`.
pub open spec fn protocol_bytes() -> Seq<u8> {
    seq![
        66u8,
        105u8,
        116u8,
        84u8,
        111u8,
        114u8,
        114u8,
        101u8,
        110u8,
        116u8,
        32u8,
        112u8,
        114u8,
        111u8,
        116u8,
        111u8,
        99u8,
        111u8,
        108u8,
    ]
}

/// The reserved bytes this client sets: extension protocol (byte 5,
/// bit 4) and DHT support (byte 7, bit 0).
pub open spec fn reserved_bytes() -> Seq<u8> {
    seq![0u8, 0u8, 0u8, 0u8, 0u8, 0x10u8, 0u8, 0x01u8]
}

impl Handshake {
    /// The handshake this client sends for a torrent.
    pub fn new(info_hash: [u8; 20], peer_id: [u8; 20]) -> (r: Handshake)
        ensures
            r.len == 19,
            r.protocol@ == protocol_bytes(),
            r.reserved@ == reserved_bytes(),
            r.info_hash@ == info_hash@,
            r.peer_id@ == peer_id@,
    {
        let mut reserved = [0u8; 8];
        reserved[7] = reserved[7] | 0x01;
        reserved[5] = reserved[5] | 0x10;
        let protocol: [u8; 19] = [66, 105, 116, 84, 111, 114, 114, 101, 110, 116, 32, 112, 114,
            111, 116, 111, 99, 111, 108];
        proof {
            assert(reserved@ =~= reserved_bytes()) by {
                assert(0u8 | 0x01 == 0x01u8) by (bit_vector);
                assert(0u8 | 0x10 == 0x10u8) by (bit_vector);
            }
            assert(protocol@ =~= protocol_bytes());
        }
        Handshake { len: 19, protocol, reserved, info_hash, peer_id }
    }

    /// The 68 bytes that go on the wire, in field order.
    pub fn to_bytes(&self) -> (r: Vec<u8>)
        ensures
            r@ == seq![self.len] + self.protocol@ + self.reserved@ + self.info_hash@
                + self.peer_id@,
            r@.len() == 68,
    {
        let mut out: Vec<u8> = Vec::new();
        out.push(self.len);
        out.extend_from_slice(self.protocol.as_slice());
        out.extend_from_slice(self.reserved.as_slice());
        out.extend_from_slice(self.info_hash.as_slice());
        out.extend_from_slice(self.peer_id.as_slice());
        proof {
            assert(out@ =~= seq![self.len] + self.protocol@ + self.reserved@ + self.info_hash@
                + self.peer_id@);
        }
        out
    }
}

/// Whether a handshake exchange succeeded: exactly 68 bytes came back
/// and the reply leads with the protocol length byte 19.
pub fn valid_handshake_reply(res: &[u8], read: usize) -> (r: bool)
    ensures
        r == (read == 68 && res@.len() >= 1 && res@[0] == 19),
{
    read == 68 && res.len() >= 1 && res[0] == 19
}

/// Whether the peer set the extension-protocol bit (byte 5, bit 4) in
/// the reserved bytes it sent back in a 68-byte handshake reply.
pub fn supports_extensions(res: &[u8]) -> (r: bool)
    requires
        res@.len() == 68,
    ensures
        r == (res@[25] & 0x10 != 0),
{
    res[25] & 0x10 != 0
}

/// What a tracker announce returned: the poll interval, the swarm
/// counts, and the peer endpoints.
#[derive(Debug)]
pub struct Peers {
    pub interval: i32,
    pub seeders: i32,
    pub leechers: i32,
    pub peer: Vec<Url>,
}

impl Peers {
    /// Bundle an announce reply.
    pub fn new(interval: i32, seeders: i32, leechers: i32, ip: Vec<Url>) -> (r: Peers)
        ensures
            r.interval == interval,
            r.seeders == seeders,
            r.leechers == leechers,
            r.peer == ip,
    {
        Peers { interval, seeders, leechers, peer: ip }
    }
}

} // verus!
