//! The DHT client shell: which bootstrap network it talks to and how
//! many queries it keeps in flight.
use vstd::prelude::*;

verus! {

use crate::url::Url;
use crate::url::Scheme;
use crate::url::UrlError;
use crate::url::port_chars;

/// Why the client could not be built or a lookup failed outright.
#[derive(Debug, PartialEq, Eq, Structural)]
pub enum D2H2ClientError {
    MoveOutofArcError,
    UrlFormError(UrlError),
}

/// Which of the well-known bootstrap networks to prefer.
#[derive(Debug, Clone, Copy)]
pub enum PrefferedNetwork {
    UTORRENT,
    Bitorrent,
    Transmission,
    Aelitis,
}

/// The host name of a bootstrap preference; anything unstated falls to
/// the mainline router.
pub open spec fn client_host(preffered: Option<PrefferedNetwork>) -> Seq<char> {
    match preffered {
        Some(PrefferedNetwork::UTORRENT) => seq!['r', 'o', 'u', 't', 'e', 'r', '.', 'u', 't', 'o', 'r', 'r', 'e', 'n', 't', '.', 'c', 'o', 'm'],
        Some(PrefferedNetwork::Transmission) => seq!['d', 'h', 't', '.', 't', 'r', 'a', 'n', 's', 'm', 'i', 's', 's', 'i', 'o', 'n', 'b', 't', '.', 'c', 'o', 'm'],
        Some(PrefferedNetwork::Aelitis) => seq!['d', 'h', 't', '.', 'a', 'e', 'l', 'i', 't', 'i', 's', '.', 'c', 'o', 'm'],
        _ => seq!['r', 'o', 'u', 't', 'e', 'r', '.', 'b', 'i', 't', 't', 'o', 'r', 'r', 'e', 'n', 't', '.', 'c', 'o', 'm'],
    }
}

/// A DHT client: the endpoints it will contact next, and its fan-out.
#[derive(Debug)]
pub struct D2H2Client {
    /// Endpoints to contact to find peers; refreshed whenever a node
    /// answers with closer nodes instead of peers
    pub paths: Vec<Url>,
    /// How many queries to keep in flight per round
    pub concurrent: u8,
}

impl D2H2Client {
    /// A client aimed at the preferred bootstrap network, port 6881.
    pub fn new(preffered: Option<PrefferedNetwork>) -> (r: Result<D2H2Client, D2H2ClientError>)
        ensures
            r matches Ok(c) && c.paths@.len() == 1 && c.paths@[0].scheme == Scheme::HTTP
                && c.paths@[0].host@ == client_host(preffered) + seq![':'] + port_chars(6881)
                && c.concurrent == 5,
    {
        let base = match preffered {
            Some(PrefferedNetwork::UTORRENT) => "router.utorrent.com",
            Some(PrefferedNetwork::Transmission) => "dht.transmissionbt.com",
            Some(PrefferedNetwork::Aelitis) => "dht.aelitis.com",
            _ => "router.bittorrent.com",
        };
        proof {
            reveal_strlit("router.utorrent.com");
            reveal_strlit("dht.transmissionbt.com");
            reveal_strlit("dht.aelitis.com");
            reveal_strlit("router.bittorrent.com");
            assert(base@ =~= client_host(preffered));
        }
        let url = match Url::from_ip(base, 6881) {
            Ok(u) => u,
            Err(e) => {
                proof {
                    assert(false);
                }
                return Err(D2H2ClientError::UrlFormError(e));
            },
        };
        let mut paths: Vec<Url> = Vec::new();
        paths.push(url);
        Ok(D2H2Client { paths, concurrent: 5 })
    }

    /// The peers found for an info-hash.  The iterative lookup runs
    /// through the owner's transport; with none attached yet, no peers
    /// come back.
    pub fn find_peers(&self, info_hash: &[u8; 20]) -> (r: Result<Vec<Url>, D2H2ClientError>)
        ensures
            r matches Ok(v) && v@.len() == 0,
    {
        let _ = info_hash;
        Ok(Vec::new())
    }
}

} // verus!
