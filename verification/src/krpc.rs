//! The KRPC envelope: the bencoded dictionary a DHT datagram carries,
//! with a transaction id and one of a query, a response or an error.
use vstd::prelude::*;

verus! {

use crate::bencode::BTypes;
use crate::bencode::BValue;
use crate::bencode::DecodeError;
use crate::bencode::bval_pairs;
use crate::bencode::bval_seq;
use crate::bencode::benc;
use crate::bencode::bp_value;
use crate::tracker::compact_peer_matches;
use crate::url::Url;
use crate::utils::assoc;
use crate::utils::chars_of;
use crate::utils::dict_get;
use crate::utils::vec_to_string;
use vstd::string::StringSliceAdditionalSpecFns;
use vstd::string::StrSliceExecFns;

/// A KRPC error reply, by its numeric code; the last variant also
/// stands for any unknown code.
#[derive(Debug, PartialEq, Eq, Structural, Clone, Copy)]
pub enum DHTError {
    GenericError,
    ServerError,
    ProtocError,
    UnknownMethod,
    FailedSystemTimeGen,
}

/// Why a KRPC datagram could not be decoded.
#[derive(Debug, PartialEq, Eq, Structural)]
pub enum SerdeError {
    ParsingBencode(DecodeError),
    KeyError,
    BencodeGenericError,
    UnknownDHTError,
    NoValidIDPresent,
    UnimplementedQueryParsing,
}

/// One decoded KRPC message.
#[derive(Debug)]
pub struct KRPC {
    pub transaction_id: String,
    pub message_type: MessageType,
}

/// What the message carries: a query, a response, or an error code.
#[derive(Debug)]
pub enum MessageType {
    Query(Query),
    Response(Response),
    Error(DHTError),
}

/// A reply dictionary: the sender's id, an optional token, and the
/// nodes or peer values it returned.
#[derive(Debug, PartialEq, Eq)]
pub struct Response {
    pub id: String,
    pub token: Option<String>,
    pub response: Option<ResponseType>,
}

/// What a reply points at: other nodes to ask, or actual peers.
#[derive(Debug, PartialEq, Eq)]
pub enum ResponseType {
    Node(Vec<Url>),
    Values(Vec<Url>),
}

/// An outgoing query: its method name and its argument dictionary.
#[derive(Debug)]
pub struct Query {
    pub method_name: String,
    pub arguments: BTypes,
}

pub open spec fn k_t() -> Seq<u8> {
    seq![116u8]
}

pub open spec fn k_y() -> Seq<u8> {
    seq![121u8]
}

pub open spec fn k_r() -> Seq<u8> {
    seq![114u8]
}

pub open spec fn k_e() -> Seq<u8> {
    seq![101u8]
}

pub open spec fn k_a() -> Seq<u8> {
    seq![97u8]
}

pub open spec fn k_q() -> Seq<u8> {
    seq![113u8]
}

pub open spec fn k_id() -> Seq<u8> {
    seq![105u8, 100u8]
}

pub open spec fn k_token() -> Seq<u8> {
    seq![116u8, 111u8, 107u8, 101u8, 110u8]
}

pub open spec fn k_nodes() -> Seq<u8> {
    seq![110u8, 111u8, 100u8, 101u8, 115u8]
}

pub open spec fn k_values() -> Seq<u8> {
    seq![118u8, 97u8, 108u8, 117u8, 101u8, 115u8]
}

/// The error variant a numeric code selects.
pub open spec fn dht_code(i: int) -> DHTError {
    if i == 201 {
        DHTError::GenericError
    } else if i == 202 {
        DHTError::ServerError
    } else if i == 203 {
        DHTError::ProtocError
    } else {
        DHTError::UnknownMethod
    }
}

/// Whether an error payload is usable: a list whose first element is a
/// numeric code.
pub open spec fn err_ok(v: Option<BValue>) -> bool {
    v matches Some(ev) && ev matches BValue::List(l) && l.len() >= 1 && l[0] is Int
}

/// Whether a reply payload is usable: a dictionary with a byte-string
/// id.
pub open spec fn resp_ok(v: Option<BValue>) -> bool {
    v matches Some(rv) && rv matches BValue::Dict(rd) && (assoc(rd, k_id()) matches Some(iv)
        && iv is Str)
}

/// Whether a datagram decodes to a message this client handles: a
/// dictionary with byte-string `t` and `y`, carrying a usable error
/// for `y = e` or a usable reply for `y = r`.
pub open spec fn krpc_ok(dv: Seq<(Seq<u8>, BValue)>) -> bool {
    (assoc(dv, k_t()) matches Some(tv) && tv is Str) && (assoc(dv, k_y()) matches Some(yv)
        && yv matches BValue::Str(y) && ((y == seq![101u8] && err_ok(assoc(dv, k_e()))) || (y
        == seq![114u8] && resp_ok(assoc(dv, k_r())))))
}

/// The 6-byte records among a value list: the byte-string elements of
/// exactly six bytes, in order.
pub open spec fn compact6(vl: Seq<BValue>) -> Seq<Seq<u8>>
    decreases vl.len(),
{
    if vl.len() == 0 {
        Seq::empty()
    } else {
        match vl.last() {
            BValue::Str(s) => if s.len() == 6 {
                compact6(vl.drop_last()).push(s)
            } else {
                compact6(vl.drop_last())
            },
            _ => compact6(vl.drop_last()),
        }
    }
}

/// How decoded endpoints relate to a `nodes` byte run: one endpoint
/// per complete 26-byte record, read from its last six bytes.
pub open spec fn nodes_match(urls: Seq<Url>, ns: Seq<u8>) -> bool {
    urls.len() == ns.len() / 26 && forall|i: int|
        0 <= i < urls.len() ==> compact_peer_matches(
            #[trigger] urls[i],
            ns.subrange(26 * i + 20, 26 * i + 26),
        )
}

/// How decoded endpoints relate to a `values` list: one endpoint per
/// 6-byte record among its elements.
pub open spec fn values_match(urls: Seq<Url>, vl: Seq<BValue>) -> bool {
    urls.len() == compact6(vl).len() && forall|i: int|
        0 <= i < urls.len() ==> compact_peer_matches(#[trigger] urls[i], compact6(vl)[i])
}

/// How a decoded reply relates to its dictionary.
pub open spec fn response_matches(resp: Response, rd: Seq<(Seq<u8>, BValue)>) -> bool {
    (assoc(rd, k_id()) matches Some(BValue::Str(s)) && resp.id@ == chars_of(s)) && (match assoc(
        rd,
        k_token(),
    ) {
        Some(BValue::Str(tk)) => resp.token matches Some(x) && x@ == chars_of(tk),
        _ => resp.token is None,
    }) && (match assoc(rd, k_nodes()) {
        Some(BValue::Str(ns)) => resp.response matches Some(rt) && rt matches ResponseType::Node(
            urls,
        ) && nodes_match(urls@, ns),
        _ => match assoc(rd, k_values()) {
            Some(BValue::List(vl)) => resp.response matches Some(rt) && rt matches
                ResponseType::Values(urls) && values_match(urls@, vl),
            _ => resp.response is None,
        },
    })
}

/// How a whole decoded message relates to its dictionary.
pub open spec fn krpc_matches(k: KRPC, dv: Seq<(Seq<u8>, BValue)>) -> bool {
    (assoc(dv, k_t()) matches Some(BValue::Str(ts)) && k.transaction_id@ == chars_of(ts)) && (
    assoc(dv, k_y()) matches Some(BValue::Str(y)) && ((y == seq![101u8] && (assoc(dv, k_e())
        matches Some(BValue::List(l)) && l[0] matches BValue::Int(code) && k.message_type matches
        MessageType::Error(de) && de == dht_code(code))) || (y == seq![114u8] && (assoc(dv, k_r())
        matches Some(BValue::Dict(rd)) && k.message_type matches MessageType::Response(resp)
        && response_matches(resp, rd)))))
}

impl KRPC {
    /// Decode one KRPC datagram.
    pub fn deserialize_bytes(packet: Vec<u8>) -> (r: Result<KRPC, SerdeError>)
        ensures
            r is Ok <==> (crate::torrent::dict_of(packet@) matches Some(dv) && krpc_ok(dv)),
            r matches Ok(k) ==> (crate::torrent::dict_of(packet@) matches Some(dv)
                && krpc_matches(k, dv)),
            bp_value(packet@, 0) matches Err(e) ==> r == Err::<KRPC, SerdeError>(
                SerdeError::ParsingBencode(e),
            ),
    {
        let d = match crate::bencode::decode(packet.as_slice()) {
            Ok(BTypes::DICT(d)) => d,
            Ok(_) => {
                return Err(SerdeError::BencodeGenericError);
            },
            Err(e) => {
                return Err(SerdeError::ParsingBencode(e));
            },
        };
        let tkey: [u8; 1] = [116];
        proof {
            assert(tkey@ =~= k_t());
        }
        let transaction_id = match dict_get(&d, tkey.as_slice()) {
            Some(BTypes::BSTRING(ts)) => vec_to_string(ts),
            Some(bt) => {
                proof {
                    crate::bencode::lemma_bval_variant(*bt);
                }
                return Err(SerdeError::BencodeGenericError);
            },
            None => {
                return Err(SerdeError::BencodeGenericError);
            },
        };
        let ykey: [u8; 1] = [121];
        proof {
            assert(ykey@ =~= k_y());
        }
        let y = match dict_get(&d, ykey.as_slice()) {
            Some(BTypes::BSTRING(ys)) => ys,
            Some(bt) => {
                proof {
                    crate::bencode::lemma_bval_variant(*bt);
                }
                return Err(SerdeError::BencodeGenericError);
            },
            None => {
                return Err(SerdeError::BencodeGenericError);
            },
        };
        if y.len() == 1 && y[0] == 101 {
            proof {
                assert(y@ =~= seq![101u8]);
            }
            let ekey: [u8; 1] = [101];
            proof {
                assert(ekey@ =~= k_e());
            }
            let l = match dict_get(&d, ekey.as_slice()) {
                Some(BTypes::LIST(l)) => l,
                Some(bt) => {
                    proof {
                        crate::bencode::lemma_bval_variant(*bt);
                    }
                    return Err(SerdeError::UnknownDHTError);
                },
                None => {
                    return Err(SerdeError::UnknownDHTError);
                },
            };
            proof {
                crate::utils::lemma_bval_seq_len(l@);
            }
            if l.len() == 0 {
                return Err(SerdeError::UnknownDHTError);
            }
            proof {
                crate::utils::lemma_bval_seq_index(l@, 0);
            }
            let code = match &l[0] {
                BTypes::INT(i) => *i,
                _ => {
                    proof {
                        crate::bencode::lemma_bval_variant(l@[0]);
                    }
                    return Err(SerdeError::UnknownDHTError);
                },
            };
            let dht_error = if code == 201 {
                DHTError::GenericError
            } else if code == 202 {
                DHTError::ServerError
            } else if code == 203 {
                DHTError::ProtocError
            } else {
                DHTError::UnknownMethod
            };
            return Ok(KRPC { transaction_id, message_type: MessageType::Error(dht_error) });
        }
        if y.len() == 1 && y[0] == 114 {
            proof {
                assert(y@ =~= seq![114u8]);
            }
            let rkey: [u8; 1] = [114];
            proof {
                assert(rkey@ =~= k_r());
            }
            let rd = match dict_get(&d, rkey.as_slice()) {
                Some(BTypes::DICT(rd)) => rd,
                Some(bt) => {
                    proof {
                        crate::bencode::lemma_bval_variant(*bt);
                    }
                    return Err(SerdeError::BencodeGenericError);
                },
                None => {
                    return Err(SerdeError::BencodeGenericError);
                },
            };
            let idkey: [u8; 2] = [105, 100];
            proof {
                assert(idkey@ =~= k_id());
            }
            let id = match dict_get(rd, idkey.as_slice()) {
                Some(BTypes::BSTRING(s)) => vec_to_string(s),
                Some(bt) => {
                    proof {
                        crate::bencode::lemma_bval_variant(*bt);
                    }
                    return Err(SerdeError::NoValidIDPresent);
                },
                None => {
                    return Err(SerdeError::NoValidIDPresent);
                },
            };
            let tokkey: [u8; 5] = [116, 111, 107, 101, 110];
            proof {
                assert(tokkey@ =~= k_token());
            }
            let token = match dict_get(rd, tokkey.as_slice()) {
                Some(BTypes::BSTRING(s)) => Some(vec_to_string(s)),
                _ => None,
            };
            let ndkey: [u8; 5] = [110, 111, 100, 101, 115];
            proof {
                assert(ndkey@ =~= k_nodes());
            }
            let response = match dict_get(rd, ndkey.as_slice()) {
                Some(BTypes::BSTRING(ns)) => Some(ResponseType::Node(node_urls(ns))),
                _ => {
                    let vlkey: [u8; 6] = [118, 97, 108, 117, 101, 115];
                    proof {
                        assert(vlkey@ =~= k_values());
                    }
                    match dict_get(rd, vlkey.as_slice()) {
                        Some(BTypes::LIST(vl)) => Some(ResponseType::Values(value_urls(vl))),
                        _ => None,
                    }
                },
            };
            let resp = Response { id, token, response };
            return Ok(KRPC { transaction_id, message_type: MessageType::Response(resp) });
        }
        if y.len() == 1 && y[0] == 113 {
            return Err(SerdeError::UnimplementedQueryParsing);
        }
        proof {
            assert(y@ != seq![101u8] && y@ != seq![114u8]);
        }
        Err(SerdeError::UnknownDHTError)
    }
}

/// Decode the endpoints of a `nodes` byte run: one per complete
/// 26-byte record, from its trailing 6 bytes; leftovers are dropped.
fn node_urls(ns: &Vec<u8>) -> (r: Vec<Url>)
    ensures
        nodes_match(r@, ns@),
{
    let mut out: Vec<Url> = Vec::new();
    let blen = ns.len();
    let n = blen / 26;
    let mut i: usize = 0;
    while i < n
        invariant
            i <= n,
            blen == ns@.len(),
            n == blen / 26,
            out@.len() == i,
            forall|j: int|
                0 <= j < i ==> compact_peer_matches(
                    #[trigger] out@[j],
                    ns@.subrange(26 * j + 20, 26 * j + 26),
                ),
        decreases n - i,
    {
        proof {
            assert(26 * (i as int) + 26 <= 26 * (n as int));
            assert(26 * (n as int) <= blen);
        }
        let rec = vstd::slice::slice_subrange(ns.as_slice(), 26 * i + 20, 26 * i + 26);
        let ip = vstd::slice::slice_subrange(rec, 0, 4);
        let port = (rec[4] as u16) * 256 + (rec[5] as u16);
        let u = Url::from_ip_bytes(ip, port);
        out.push(u);
        i = i + 1;
    }
    out
}

/// Decode the endpoints of a `values` list: each byte-string element
/// of exactly six bytes yields one; anything else is passed over.
fn value_urls(vl: &Vec<BTypes>) -> (r: Vec<Url>)
    ensures
        values_match(r@, bval_seq(vl@)),
{
    let mut out: Vec<Url> = Vec::new();
    let mut i: usize = 0;
    proof {
        crate::utils::lemma_bval_seq_len(vl@);
    }
    while i < vl.len()
        invariant
            i <= vl@.len(),
            bval_seq(vl@).len() == vl@.len(),
            values_match(out@, bval_seq(vl@).take(i as int)),
        decreases vl@.len() - i,
    {
        proof {
            crate::utils::lemma_bval_seq_index(vl@, i as int);
            assert(bval_seq(vl@).take(i + 1).drop_last() =~= bval_seq(vl@).take(i as int));
            assert(bval_seq(vl@).take(i + 1).last() == bval_seq(vl@)[i as int]);
        }
        match &vl[i] {
            BTypes::BSTRING(s) => {
                if s.len() == 6 {
                    let ip = vstd::slice::slice_subrange(s.as_slice(), 0, 4);
                    let port = (s[4] as u16) * 256 + (s[5] as u16);
                    let u = Url::from_ip_bytes(ip, port);
                    out.push(u);
                    proof {
                        assert(s@ =~= s@.subrange(0, 6));
                    }
                }
            },
            _ => {},
        }
        i = i + 1;
    }
    proof {
        assert(bval_seq(vl@).take(vl@.len() as int) =~= bval_seq(vl@));
    }
    out
}

/// Encode a KRPC message canonically: a query carries its arguments
/// and method under `a` and `q`; a response or error reply carries at
/// least its transaction id and kind tag.
pub fn serialize(ds: KRPC) -> (r: Vec<u8>)
    ensures
        ds.message_type matches MessageType::Query(qr) ==> r@ == benc(
            BValue::Dict(
                seq![
                    (k_a(), crate::bencode::bval(qr.arguments)),
                    (k_q(), BValue::Str(vstd::utf8::encode_utf8(qr.method_name@))),
                    (k_t(), BValue::Str(vstd::utf8::encode_utf8(ds.transaction_id@))),
                    (k_y(), BValue::Str(seq![113u8])),
                ],
            ),
        ),
        !(ds.message_type is Query) ==> r@ == benc(
            BValue::Dict(
                seq![
                    (k_t(), BValue::Str(vstd::utf8::encode_utf8(ds.transaction_id@))),
                    (
                        k_y(),
                        BValue::Str(
                            if ds.message_type is Response {
                                seq![114u8]
                            } else {
                                seq![101u8]
                            },
                        ),
                    ),
                ],
            ),
        ),
{
    let tid = ds.transaction_id.as_str().as_bytes_vec();
    let mut pairs: Vec<(Vec<u8>, BTypes)> = Vec::new();
    match ds.message_type {
        MessageType::Query(qr) => {
            let akey: [u8; 1] = [97];
            let qkey: [u8; 1] = [113];
            let tkey: [u8; 1] = [116];
            let ykey: [u8; 1] = [121];
            let mname = qr.method_name.as_str().as_bytes_vec();
            pairs.push((vstd::slice::slice_to_vec(akey.as_slice()), qr.arguments));
            pairs.push((vstd::slice::slice_to_vec(qkey.as_slice()), BTypes::BSTRING(mname)));
            pairs.push((vstd::slice::slice_to_vec(tkey.as_slice()), BTypes::BSTRING(tid)));
            let mut ytag: Vec<u8> = Vec::new();
            ytag.push(113);
            pairs.push((vstd::slice::slice_to_vec(ykey.as_slice()), BTypes::BSTRING(ytag)));
            let dict = BTypes::DICT(pairs);
            let out = crate::bencode::ser(&dict);
            proof {
                assert(akey@ =~= k_a());
                assert(qkey@ =~= k_q());
                assert(tkey@ =~= k_t());
                assert(ykey@ =~= k_y());
                crate::utils::lemma_bval_pairs_len(dict->DICT_0@);
                crate::utils::lemma_bval_pairs_index(dict->DICT_0@, 0);
                crate::utils::lemma_bval_pairs_index(dict->DICT_0@, 1);
                crate::utils::lemma_bval_pairs_index(dict->DICT_0@, 2);
                crate::utils::lemma_bval_pairs_index(dict->DICT_0@, 3);
                assert(bval_pairs(dict->DICT_0@) =~= seq![
                    (k_a(), crate::bencode::bval(qr.arguments)),
                    (k_q(), BValue::Str(vstd::utf8::encode_utf8(qr.method_name@))),
                    (k_t(), BValue::Str(vstd::utf8::encode_utf8(ds.transaction_id@))),
                    (k_y(), BValue::Str(seq![113u8])),
                ]);
            }
            out
        },
        MessageType::Response(_) => {
            let tkey: [u8; 1] = [116];
            let ykey: [u8; 1] = [121];
            pairs.push((vstd::slice::slice_to_vec(tkey.as_slice()), BTypes::BSTRING(tid)));
            let mut ytag: Vec<u8> = Vec::new();
            ytag.push(114);
            pairs.push((vstd::slice::slice_to_vec(ykey.as_slice()), BTypes::BSTRING(ytag)));
            let dict = BTypes::DICT(pairs);
            let out = crate::bencode::ser(&dict);
            proof {
                assert(tkey@ =~= k_t());
                assert(ykey@ =~= k_y());
                crate::utils::lemma_bval_pairs_len(dict->DICT_0@);
                crate::utils::lemma_bval_pairs_index(dict->DICT_0@, 0);
                crate::utils::lemma_bval_pairs_index(dict->DICT_0@, 1);
                assert(bval_pairs(dict->DICT_0@) =~= seq![
                    (k_t(), BValue::Str(vstd::utf8::encode_utf8(ds.transaction_id@))),
                    (k_y(), BValue::Str(seq![114u8])),
                ]);
            }
            out
        },
        MessageType::Error(_) => {
            let tkey: [u8; 1] = [116];
            let ykey: [u8; 1] = [121];
            pairs.push((vstd::slice::slice_to_vec(tkey.as_slice()), BTypes::BSTRING(tid)));
            let mut ytag: Vec<u8> = Vec::new();
            ytag.push(101);
            pairs.push((vstd::slice::slice_to_vec(ykey.as_slice()), BTypes::BSTRING(ytag)));
            let dict = BTypes::DICT(pairs);
            let out = crate::bencode::ser(&dict);
            proof {
                assert(tkey@ =~= k_t());
                assert(ykey@ =~= k_y());
                crate::utils::lemma_bval_pairs_len(dict->DICT_0@);
                crate::utils::lemma_bval_pairs_index(dict->DICT_0@, 0);
                crate::utils::lemma_bval_pairs_index(dict->DICT_0@, 1);
                assert(bval_pairs(dict->DICT_0@) =~= seq![
                    (k_t(), BValue::Str(vstd::utf8::encode_utf8(ds.transaction_id@))),
                    (k_y(), BValue::Str(seq![101u8])),
                ]);
            }
            out
        },
    }
}

} // verus!
