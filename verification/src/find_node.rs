//! Choosing a well-known node to bootstrap a DHT lookup from.
use vstd::prelude::*;

verus! {

use crate::url::Url;
use crate::url::Scheme;
use crate::url::port_chars;

/// Which of the well-known bootstrap networks to prefer.
#[derive(Debug, Clone, Copy)]
pub enum PrefferedNetwork {
    UTORRENT,
    Bitorrent,
    Transmission,
    Aelitis,
}

/// The host name of a bootstrap preference; anything unstated falls to
/// the mainline router.
pub open spec fn bootstrap_host(preffered: Option<PrefferedNetwork>) -> Seq<char> {
    match preffered {
        Some(PrefferedNetwork::UTORRENT) => seq!['r', 'o', 'u', 't', 'e', 'r', '.', 'u', 't', 'o', 'r', 'r', 'e', 'n', 't', '.', 'c', 'o', 'm'],
        Some(PrefferedNetwork::Transmission) => seq!['d', 'h', 't', '.', 't', 'r', 'a', 'n', 's', 'm', 'i', 's', 's', 'i', 'o', 'n', 'b', 't', '.', 'c', 'o', 'm'],
        Some(PrefferedNetwork::Aelitis) => seq!['d', 'h', 't', '.', 'a', 'e', 'l', 'i', 't', 'i', 's', '.', 'c', 'o', 'm'],
        _ => seq!['r', 'o', 'u', 't', 'e', 'r', '.', 'b', 'i', 't', 't', 'o', 'r', 'r', 'e', 'n', 't', '.', 'c', 'o', 'm'],
    }
}

/// A lookup's starting point: one well-known bootstrap node.
#[derive(Debug)]
pub struct NodeFinder {
    pub base: Url,
}

impl NodeFinder {
    /// A finder aimed at the preferred bootstrap network, port 6881.
    pub fn new(preffered: Option<PrefferedNetwork>) -> (r: NodeFinder)
        ensures
            r.base.scheme == Scheme::HTTP,
            r.base.host@ == bootstrap_host(preffered) + seq![':'] + port_chars(6881),
    {
        let base = match preffered {
            Some(PrefferedNetwork::UTORRENT) => "router.utorrent.com",
            Some(PrefferedNetwork::Transmission) => "dht.transmissionbt.com",
            Some(PrefferedNetwork::Aelitis) => "dht.aelitis.com",
            _ => "router.bittorrent.com",
        };
        proof {
            reveal_strlit("router.utorrent.com");
            reveal_strlit("dht.transmissionbt.com");
            reveal_strlit("dht.aelitis.com");
            reveal_strlit("router.bittorrent.com");
            assert(base@ =~= bootstrap_host(preffered));
        }
        let url = match Url::from_ip(base, 6881) {
            Ok(u) => u,
            Err(_) => {
                proof {
                    assert(false);
                }
                let four: [u8; 4] = [0, 0, 0, 0];
                Url::from_ip_bytes(four.as_slice(), 0)
            },
        };
        NodeFinder { base: url }
    }

    /// The peers found for an info-hash.  Lookups run round by round
    /// through the owner's transport; with none attached yet, no peers
    /// come back.
    pub fn get_peers(&self, hash: [u8; 20]) -> (r: Vec<Url>)
        ensures
            r@.len() == 0,
    {
        let _ = hash;
        Vec::new()
    }
}

} // verus!
