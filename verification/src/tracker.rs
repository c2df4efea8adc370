//! The tracker announce client: the immutable per-announce parameters,
//! the HTTP query and the 98-byte UDP announce record built from them,
//! and the two peer-list reply forms decoded back into endpoints.
use vstd::prelude::*;

verus! {

use crate::bencode::BTypes;
use crate::bencode::BValue;
use crate::bencode::bval_pairs;
use crate::bencode::bval_seq;
use crate::bencode::dec_rec;
use crate::torrent::Torrent;
use crate::torrent::FileMode;
use crate::torrent::files_total;
use crate::torrent::fits_usize;
use crate::url::Url;
use crate::url::Scheme;
use crate::utils::assoc;
use crate::utils::chars_of;
use crate::utils::dict_get;
use crate::utils::u64_be;
use crate::utils::u32_be;
use crate::utils::u16_be;
use crate::utils::BencodeErr;

/// What an announce reports about this client's progress.
#[derive(Debug, Clone, Copy, PartialEq, Eq, Structural)]
pub enum Event {
    Started,
    Stopped,
    Completed,
}

/// The immutable parameters of one announce: identity, counters and
/// the tracker endpoint they go to.
pub struct TrackerParams {
    pub url: Url,
    pub info_hash: [u8; 20],
    pub peer_id: [u8; 20],
    pub port: u16,
    pub uploaded: u64,
    pub downloaded: u64,
    pub left: u64,
    pub compact: Vec<u8>,
    pub event: Event,
    pub trackerid: Option<[u8; 20]>,
}

/// The peer id this client announces under.
pub open spec fn default_peer_id() -> Seq<u8> {
    seq![45u8, 45u8, 115u8, 100u8, 45u8, 45u8, 84u8, 79u8, 82u8, 65u8, 73u8, 78u8, 45u8, 45u8, 45u8, 48u8, 49u8, 53u8, 50u8, 51u8]
}

/// The query name of an announce event.
pub open spec fn event_bytes(e: Event) -> Seq<u8> {
    match e {
        Event::Started => seq![115u8, 116u8, 97u8, 114u8, 116u8, 101u8, 100u8],
        Event::Stopped => seq![115u8, 116u8, 111u8, 112u8, 112u8, 101u8, 100u8],
        Event::Completed => seq![99u8, 111u8, 109u8, 112u8, 108u8, 101u8, 116u8, 101u8, 100u8],
    }
}

/// The announce query pairs, in the order the request writes them.
pub open spec fn params_spec(t: TrackerParams) -> Seq<(Seq<u8>, Seq<u8>)> {
    seq![
        (seq![105u8, 110u8, 102u8, 111u8, 95u8, 104u8, 97u8, 115u8, 104u8], t.info_hash@),
        (seq![112u8, 101u8, 101u8, 114u8, 95u8, 105u8, 100u8], t.peer_id@),
        (seq![112u8, 111u8, 114u8, 116u8], dec_rec(t.port as nat)),
        (seq![117u8, 112u8, 108u8, 111u8, 97u8, 100u8, 101u8, 100u8], dec_rec(t.uploaded as nat)),
        (seq![100u8, 111u8, 119u8, 110u8, 108u8, 111u8, 97u8, 100u8, 101u8, 100u8], dec_rec(t.downloaded as nat)),
        (seq![108u8, 101u8, 102u8, 116u8], dec_rec(t.left as nat)),
        (seq![99u8, 111u8, 109u8, 112u8, 97u8, 99u8, 116u8], t.compact@),
        (seq![101u8, 118u8, 101u8, 110u8, 116u8], event_bytes(t.event)),
    ]
}

/// The 98-byte UDP announce record: connection id, action 1, the
/// transaction id, identity, counters, event 2 (started), default ip,
/// key 1, num-want -1 and the listening port, all big-endian.
pub open spec fn udp_announce_spec(t: TrackerParams, connection_id: u64, transaction_id: u32) -> Seq<u8> {
    u64_be(connection_id) + u32_be(1) + u32_be(transaction_id) + t.info_hash@ + t.peer_id@
        + u64_be(t.downloaded) + u64_be(t.left) + u64_be(t.uploaded) + u32_be(2) + u32_be(0)
        + u32_be(1) + u32_be(0xFFFF_FFFF) + u16_be(t.port)
}

impl TrackerParams {
    /// Announce parameters for a fresh download of a torrent.
    pub fn new(torrent: &Torrent) -> (r: TrackerParams)
        requires
            torrent.info.mode matches FileMode::MultiMode { files } ==> files_total(files@)
                <= usize::MAX,
        ensures
            r.url.scheme == torrent.announce.scheme,
            r.url.host@ == torrent.announce.host@,
            r.url.location@ == torrent.announce.location@,
            r.info_hash@ == torrent.hash@,
            r.peer_id@ == default_peer_id(),
            r.port == 6881,
            r.uploaded == 0,
            r.downloaded == 0,
            match torrent.info.mode {
                FileMode::SingleMode { length } => r.left == length,
                FileMode::MultiMode { files } => r.left == files_total(files@),
            },
            r.compact@ == seq![49u8],
            r.event == Event::Started,
            r.trackerid is None,
    {
        let peer_id: [u8; 20] = [45, 45, 115, 100, 45, 45, 84, 79, 82, 65, 73, 78, 45, 45, 45, 48, 49, 53, 50, 51];
        proof {
            assert(peer_id@ =~= default_peer_id());
        }
        let left = torrent.calculate_left();
        let mut compact: Vec<u8> = Vec::new();
        compact.push(49);
        proof {
            assert(compact@ =~= seq![49u8]);
        }
        let url = Url {
            scheme: torrent.announce.scheme,
            host: torrent.announce.host.clone(),
            location: torrent.announce.location.clone(),
        };
        TrackerParams {
            url,
            info_hash: torrent.hash,
            peer_id,
            port: 6881,
            uploaded: 0,
            downloaded: 0,
            left: left as u64,
            compact,
            event: Event::Started,
            trackerid: None,
        }
    }

    /// The announce query pairs, in request order.
    pub fn params(&self) -> (r: Vec<(Vec<u8>, Vec<u8>)>)
        ensures
            crate::urutil::pairs_view(r@) == params_spec(*self),
    {
        let mut out: Vec<(Vec<u8>, Vec<u8>)> = Vec::new();
        let k0: [u8; 9] = [105, 110, 102, 111, 95, 104, 97, 115, 104];
        out.push((vstd::slice::slice_to_vec(k0.as_slice()), vstd::slice::slice_to_vec(self.info_hash.as_slice())));
        let k1: [u8; 7] = [112, 101, 101, 114, 95, 105, 100];
        out.push((vstd::slice::slice_to_vec(k1.as_slice()), vstd::slice::slice_to_vec(self.peer_id.as_slice())));
        let k2: [u8; 4] = [112, 111, 114, 116];
        out.push((vstd::slice::slice_to_vec(k2.as_slice()), crate::bencode::dec_u64(self.port as u64)));
        let k3: [u8; 8] = [117, 112, 108, 111, 97, 100, 101, 100];
        out.push((vstd::slice::slice_to_vec(k3.as_slice()), crate::bencode::dec_u64(self.uploaded)));
        let k4: [u8; 10] = [100, 111, 119, 110, 108, 111, 97, 100, 101, 100];
        out.push((vstd::slice::slice_to_vec(k4.as_slice()), crate::bencode::dec_u64(self.downloaded)));
        let k5: [u8; 4] = [108, 101, 102, 116];
        out.push((vstd::slice::slice_to_vec(k5.as_slice()), crate::bencode::dec_u64(self.left)));
        let k6: [u8; 7] = [99, 111, 109, 112, 97, 99, 116];
        out.push((vstd::slice::slice_to_vec(k6.as_slice()), self.compact.clone()));
        let k7: [u8; 5] = [101, 118, 101, 110, 116];
        let ev: Vec<u8> = match self.event {
            Event::Started => {
                let e: [u8; 7] = [115, 116, 97, 114, 116, 101, 100];
                vstd::slice::slice_to_vec(e.as_slice())
            },
            Event::Stopped => {
                let e: [u8; 7] = [115, 116, 111, 112, 112, 101, 100];
                vstd::slice::slice_to_vec(e.as_slice())
            },
            Event::Completed => {
                let e: [u8; 9] = [99, 111, 109, 112, 108, 101, 116, 101, 100];
                vstd::slice::slice_to_vec(e.as_slice())
            },
        };
        out.push((vstd::slice::slice_to_vec(k7.as_slice()), ev));
        proof {
            assert(crate::urutil::pairs_view(out@) =~= params_spec(*self));
        }
        out
    }

    /// The full announce query string for the tracker's path.
    pub fn announce_path(&self) -> (r: String)
        ensures
            r@ == self.url.location@ + seq!['?'] + chars_of(
                crate::urutil::query_of(params_spec(*self)),
            ),
    {
        let params = self.params();
        crate::urutil::build_url(self.url.location.as_str(), &params)
    }

    /// The 98-byte UDP announce record quoting the tracker's
    /// connection id.
    pub fn announce_udp_request(&self, connection_id: u64, transaction_id: u32) -> (r: Vec<u8>)
        ensures
            r@ == udp_announce_spec(*self, connection_id, transaction_id),
            r@.len() == 98,
    {
        let mut out: Vec<u8> = Vec::new();
        crate::utils::push_u64_be(&mut out, connection_id);
        crate::utils::push_u32_be(&mut out, 1);
        crate::utils::push_u32_be(&mut out, transaction_id);
        out.extend_from_slice(self.info_hash.as_slice());
        out.extend_from_slice(self.peer_id.as_slice());
        crate::utils::push_u64_be(&mut out, self.downloaded);
        crate::utils::push_u64_be(&mut out, self.left);
        crate::utils::push_u64_be(&mut out, self.uploaded);
        crate::utils::push_u32_be(&mut out, 2);
        crate::utils::push_u32_be(&mut out, 0);
        crate::utils::push_u32_be(&mut out, 1);
        crate::utils::push_u32_be(&mut out, 0xFFFF_FFFF);
        crate::utils::push_u16_be(&mut out, self.port);
        proof {
            assert(out@ =~= udp_announce_spec(*self, connection_id, transaction_id));
        }
        out
    }

    /// Decode a compact peer list: each complete 6-byte record is four
    /// IPv4 octets and a big-endian port; leftover bytes are dropped.
    pub fn compact_ip_mode(bytes: &[u8]) -> (r: Vec<Url>)
        ensures
            r@.len() == bytes@.len() / 6,
            forall|i: int|
                0 <= i < r@.len() ==> compact_peer_matches(
                    #[trigger] r@[i],
                    bytes@.subrange(6 * i, 6 * i + 6),
                ),
    {
        let mut out: Vec<Url> = Vec::new();
        let mut i: usize = 0;
        let blen = bytes.len();
        let n = blen / 6;
        while i < n
            invariant
                i <= n,
                blen == bytes@.len(),
                n == blen / 6,
                out@.len() == i,
                forall|j: int|
                    0 <= j < i ==> compact_peer_matches(
                        #[trigger] out@[j],
                        bytes@.subrange(6 * j, 6 * j + 6),
                    ),
            decreases n - i,
        {
            proof {
                assert(6 * (i as int) + 6 <= 6 * (n as int));
                assert(6 * (n as int) <= blen);
            }
            let chunk = vstd::slice::slice_subrange(bytes, 6 * i, 6 * i + 6);
            let ip = vstd::slice::slice_subrange(chunk, 0, 4);
            let port = (chunk[4] as u16) * 256 + (chunk[5] as u16);
            let u = Url::from_ip_bytes(ip, port);
            out.push(u);
            i = i + 1;
        }
        out
    }
}

/// How a decoded endpoint relates to one 6-byte compact record: host
/// text `a.b.c.d:port` with the port read big-endian.
pub open spec fn compact_peer_matches(u: Url, rec: Seq<u8>) -> bool {
    u.scheme == Scheme::HTTP && u.location@ == seq!['/'] && u.host@ == chars_of(
        Url::ip_host_bytes(rec.subrange(0, 4), (rec[4] * 256 + rec[5]) as u16),
    )
}


pub open spec fn k_failure() -> Seq<u8> {
    seq![102u8, 97u8, 105u8, 108u8, 117u8, 114u8, 101u8]
}

pub open spec fn k_interval() -> Seq<u8> {
    seq![105u8, 110u8, 116u8, 101u8, 114u8, 118u8, 97u8, 108u8]
}

pub open spec fn k_peers() -> Seq<u8> {
    seq![112u8, 101u8, 101u8, 114u8, 115u8]
}

pub open spec fn k_ip() -> Seq<u8> {
    seq![105u8, 112u8]
}

pub open spec fn k_port() -> Seq<u8> {
    seq![112u8, 111u8, 114u8, 116u8]
}

/// One entry of a dictionary-form peer list: an `ip` byte-string and a
/// `port` integer that fits sixteen bits.
pub open spec fn peer_entry_ok(v: BValue) -> bool {
    v matches BValue::Dict(pd) && (assoc(pd, k_ip()) matches Some(iv) && iv matches BValue::Str(
        _,
    )) && (assoc(pd, k_port()) matches Some(pv) && pv matches BValue::Int(p) && 0 <= p <= 65535)
}

pub open spec fn peer_entries_ok(l: Seq<BValue>) -> bool {
    forall|i: int| 0 <= i < l.len() ==> peer_entry_ok(#[trigger] l[i])
}

/// Whether a tracker reply dictionary is well shaped: no failure key,
/// an interval that fits, and peers in dictionary or compact form.
pub open spec fn peers_dict_ok(dv: Seq<(Seq<u8>, BValue)>) -> bool {
    assoc(dv, k_failure()) is None && (assoc(dv, k_interval()) matches Some(iv) && iv matches
        BValue::Int(i) && fits_usize(i)) && (match assoc(dv, k_peers()) {
        Option::Some(BValue::Str(_)) => true,
        Option::Some(BValue::List(l)) => peer_entries_ok(l),
        _ => false,
    })
}

/// How one decoded endpoint relates to a dictionary-form peer entry.
pub open spec fn dict_peer_matches(u: Url, v: BValue) -> bool {
    v matches BValue::Dict(pd) && (assoc(pd, k_ip()) matches Some(BValue::Str(ip)) && (assoc(
        pd,
        k_port(),
    ) matches Some(BValue::Int(p)) && u.scheme == Scheme::HTTP && u.location@ == seq!['/']
        && u.host@ == chars_of(ip) + seq![':'] + crate::url::port_chars(p as u16)))
}

/// How the decoded endpoints relate to the reply's `peers` field.
pub open spec fn peers_value_matches(urls: Seq<Url>, pv: BValue) -> bool {
    match pv {
        BValue::Str(s) => urls.len() == s.len() / 6 && forall|i: int|
            0 <= i < urls.len() ==> compact_peer_matches(
                #[trigger] urls[i],
                s.subrange(6 * i, 6 * i + 6),
            ),
        BValue::List(l) => urls.len() == l.len() && forall|i: int|
            0 <= i < urls.len() ==> dict_peer_matches(#[trigger] urls[i], l[i]),
        _ => false,
    }
}

impl TrackerParams {
    /// Decode a dictionary-form tracker reply into its interval and
    /// peer endpoints; the compact byte-string form is accepted too.
    pub fn bencoded_ip_mode(bytes: Vec<u8>) -> (r: Result<(usize, Vec<Url>), BencodeErr>)
        ensures
            r is Ok <==> (crate::torrent::dict_of(bytes@) matches Some(dv) && peers_dict_ok(dv)),
            r matches Ok(t) ==> (crate::torrent::dict_of(bytes@) matches Some(dv) && (assoc(
                dv,
                k_interval(),
            ) matches Some(BValue::Int(i)) && t.0 == i) && (assoc(dv, k_peers()) matches Some(pv)
                && peers_value_matches(t.1@, pv))),
    {
        let d = match crate::bencode::decode(bytes.as_slice()) {
            Ok(BTypes::DICT(d)) => d,
            Ok(_) => {
                return Err(BencodeErr::Berr);
            },
            Err(_) => {
                return Err(BencodeErr::Berr);
            },
        };
        let fkey: [u8; 7] = [102, 97, 105, 108, 117, 114, 101];
        proof {
            assert(fkey@ =~= k_failure());
        }
        if dict_get(&d, fkey.as_slice()).is_some() {
            return Err(BencodeErr::Berr);
        }
        let ikey: [u8; 8] = [105, 110, 116, 101, 114, 118, 97, 108];
        proof {
            assert(ikey@ =~= k_interval());
        }
        let interval = match dict_get(&d, ikey.as_slice()) {
            None => {
                return Err(BencodeErr::Berr);
            },
            Some(bt) => match bt {
                BTypes::INT(i) => {
                    let i = *i;
                    if i < 0 || (i as u64) > (usize::MAX as u64) {
                        return Err(BencodeErr::Berr);
                    }
                    i as usize
                },
                _ => {
                    return Err(BencodeErr::Berr);
                },
            },
        };
        let pkey: [u8; 5] = [112, 101, 101, 114, 115];
        proof {
            assert(pkey@ =~= k_peers());
        }
        let urls = match dict_get(&d, pkey.as_slice()) {
            None => {
                return Err(BencodeErr::Berr);
            },
            Some(bt) => match bt {
                BTypes::BSTRING(s) => Self::compact_ip_mode(s.as_slice()),
                BTypes::LIST(l) => {
                    proof {
                        crate::utils::lemma_bval_seq_len(l@);
                    }
                    match Self::dict_ip_mode(l) {
                        Ok(us) => us,
                        Err(e) => {
                            return Err(e);
                        },
                    }
                },
                _ => {
                    proof {
                        crate::bencode::lemma_bval_variant(*bt);
                    }
                    return Err(BencodeErr::Berr);
                },
            },
        };
        Ok((interval, urls))
    }

    /// Decode a dictionary-form peer list entry by entry.
    fn dict_ip_mode(l: &Vec<BTypes>) -> (r: Result<Vec<Url>, BencodeErr>)
        ensures
            r is Ok <==> peer_entries_ok(bval_seq(l@)),
            r matches Ok(us) ==> us@.len() == l@.len() && forall|i: int|
                0 <= i < us@.len() ==> dict_peer_matches(#[trigger] us@[i], bval_seq(l@)[i]),
    {
        let mut out: Vec<Url> = Vec::new();
        let mut i: usize = 0;
        proof {
            crate::utils::lemma_bval_pairs_len(Seq::empty());
            crate::utils::lemma_bval_seq_len(l@);
        }
        while i < l.len()
            invariant
                i <= l@.len(),
                bval_seq(l@).len() == l@.len(),
                out@.len() == i,
                forall|j: int| 0 <= j < i ==> peer_entry_ok(#[trigger] bval_seq(l@)[j]),
                forall|j: int|
                    0 <= j < i ==> dict_peer_matches(#[trigger] out@[j], bval_seq(l@)[j]),
            decreases l@.len() - i,
        {
            proof {
                crate::utils::lemma_bval_seq_index(l@, i as int);
            }
            let pd = match &l[i] {
                BTypes::DICT(pd) => pd,
                _ => {
                    proof {
                        crate::bencode::lemma_bval_variant(l@[i as int]);
                        assert(!peer_entry_ok(bval_seq(l@)[i as int]));
                    }
                    return Err(BencodeErr::Berr);
                },
            };
            let ipkey: [u8; 2] = [105, 112];
            proof {
                assert(ipkey@ =~= k_ip());
            }
            let ip_text = match dict_get(pd, ipkey.as_slice()) {
                None => {
                    proof {
                        assert(!peer_entry_ok(bval_seq(l@)[i as int]));
                    }
                    return Err(BencodeErr::Berr);
                },
                Some(v) => match v {
                    BTypes::BSTRING(s) => crate::utils::vec_to_string(s),
                    _ => {
                        proof {
                            crate::bencode::lemma_bval_variant(*v);
                            assert(!peer_entry_ok(bval_seq(l@)[i as int]));
                        }
                        return Err(BencodeErr::Berr);
                    },
                },
            };
            let pokey: [u8; 4] = [112, 111, 114, 116];
            proof {
                assert(pokey@ =~= k_port());
            }
            let port = match dict_get(pd, pokey.as_slice()) {
                None => {
                    proof {
                        assert(!peer_entry_ok(bval_seq(l@)[i as int]));
                    }
                    return Err(BencodeErr::Berr);
                },
                Some(v) => match v {
                    BTypes::INT(p) => {
                        let p = *p;
                        if p < 0 || p > 65535 {
                            proof {
                                assert(!peer_entry_ok(bval_seq(l@)[i as int]));
                            }
                            return Err(BencodeErr::Berr);
                        }
                        p as u16
                    },
                    _ => {
                        proof {
                            crate::bencode::lemma_bval_variant(*v);
                            assert(!peer_entry_ok(bval_seq(l@)[i as int]));
                        }
                        return Err(BencodeErr::Berr);
                    },
                },
            };
            let u = match Url::from_ip(ip_text.as_str(), port) {
                Ok(u) => u,
                Err(_) => {
                    proof {
                        assert(false);
                    }
                    return Err(BencodeErr::Berr);
                },
            };
            out.push(u);
            i = i + 1;
        }
        Ok(out)
    }
}

} // verus!
