//! The metainfo model: the decoded fields of a torrent dictionary and
//! the info-hash, the SHA-1 digest of the canonically re-encoded `info`
//! subtree.
use vstd::prelude::*;

verus! {

use crate::bencode::BTypes;
use crate::bencode::BValue;
use crate::bencode::bval_pairs;
use crate::bencode::bval_seq;
use crate::bencode::benc;
use crate::bencode::bp_value;
use crate::sha1::Sha1;
use crate::sha1::sha1_digest;
use crate::url::Url;
use crate::url::url_parse;
use crate::url::scheme_of;
use crate::utils::assoc;
use crate::utils::chars_of;
use crate::utils::vec_to_string;
use crate::utils::dict_get;
use crate::utils::lemma_bval_seq_index;
use crate::error::TorrentError;
use vstd::string::StringSliceAdditionalSpecFns;

/// A decoded torrent: where to announce, the optional descriptive
/// fields, the `info` subtree and its 20-byte SHA-1 info-hash.
#[derive(Debug, Clone)]
pub struct Torrent {
    /// Tracker endpoint announce requests are sent to
    pub announce: Url,
    /// Further tracker endpoints, when the torrent names any
    pub announce_list: Option<Vec<String>>,
    /// Seconds since the epoch at which the torrent was made
    pub creation_date: Option<usize>,
    /// Plain-text remarks about the content
    pub comment: Option<String>,
    /// The program that made the torrent
    pub created_by: Option<String>,
    /// Text encoding named for the `pieces` field
    pub encoding: Option<String>,
    /// Name, piece size, piece digests and file layout
    pub info: Info,
    /// SHA-1 of the re-encoded `info` dictionary
    pub hash: [u8; 20],
}

/// The `info` subtree: suggested name, bytes per piece, the
/// concatenated 20-byte piece digests, and the file layout.
#[derive(Debug, Clone)]
pub struct Info {
    pub name: String,
    pub piece_length: usize,
    pub pieces: Vec<u8>,
    pub mode: FileMode,
}

/// Single-file torrents carry one length; multi-file torrents a list
/// of files.
#[derive(Debug, PartialEq, Clone)]
pub enum FileMode {
    SingleMode { length: usize },
    MultiMode { files: Vec<Files> },
}

/// One file of a multi-file torrent: its length and path components.
#[derive(Debug, PartialEq, Clone)]
pub struct Files {
    pub length: usize,
    pub path: Vec<String>,
}

pub open spec fn k_announce() -> Seq<u8> {
    seq![97u8, 110u8, 110u8, 111u8, 117u8, 110u8, 99u8, 101u8]
}

pub open spec fn k_announce_list() -> Seq<u8> {
    seq![97u8, 110u8, 110u8, 111u8, 117u8, 110u8, 99u8, 101u8, 45u8, 108u8, 105u8, 115u8, 116u8]
}

pub open spec fn k_creation_date() -> Seq<u8> {
    seq![99u8, 114u8, 101u8, 97u8, 116u8, 105u8, 111u8, 110u8, 32u8, 100u8, 97u8, 116u8, 101u8]
}

pub open spec fn k_comment() -> Seq<u8> {
    seq![99u8, 111u8, 109u8, 109u8, 101u8, 110u8, 116u8]
}

pub open spec fn k_created_by() -> Seq<u8> {
    seq![99u8, 114u8, 101u8, 97u8, 116u8, 101u8, 100u8, 32u8, 98u8, 121u8]
}

pub open spec fn k_encoding() -> Seq<u8> {
    seq![101u8, 110u8, 99u8, 111u8, 100u8, 105u8, 110u8, 103u8]
}

pub open spec fn k_info() -> Seq<u8> {
    seq![105u8, 110u8, 102u8, 111u8]
}

pub open spec fn k_name() -> Seq<u8> {
    seq![110u8, 97u8, 109u8, 101u8]
}

pub open spec fn k_piece_length() -> Seq<u8> {
    seq![112u8, 105u8, 101u8, 99u8, 101u8, 32u8, 108u8, 101u8, 110u8, 103u8, 116u8, 104u8]
}

pub open spec fn k_pieces() -> Seq<u8> {
    seq![112u8, 105u8, 101u8, 99u8, 101u8, 115u8]
}

pub open spec fn k_files() -> Seq<u8> {
    seq![102u8, 105u8, 108u8, 101u8, 115u8]
}

pub open spec fn k_length() -> Seq<u8> {
    seq![108u8, 101u8, 110u8, 103u8, 116u8, 104u8]
}

pub open spec fn k_path() -> Seq<u8> {
    seq![112u8, 97u8, 116u8, 104u8]
}

/// Whether an integer field fits the machine's `usize`.
pub open spec fn fits_usize(i: int) -> bool {
    0 <= i <= usize::MAX
}

/// An optional field is well shaped when absent, or a byte-string.
pub open spec fn opt_str_ok(v: Option<BValue>) -> bool {
    match v {
        Option::None => true,
        Option::Some(BValue::Str(_)) => true,
        _ => false,
    }
}

/// How an optional byte-string field relates to the stored text.
pub open spec fn opt_str_matches(v: Option<BValue>, t: Option<String>) -> bool {
    match v {
        Option::None => t is None,
        Option::Some(BValue::Str(s)) => t matches Some(x) && x@ == chars_of(s),
        _ => false,
    }
}

/// One entry of a `files` list: a dictionary with a length that fits
/// and a path list of byte-strings.
pub open spec fn file_entry_ok(v: BValue) -> bool {
    v matches BValue::Dict(fd) && (assoc(fd, k_length()) matches Some(lv) && lv matches
        BValue::Int(i) && fits_usize(i)) && (assoc(fd, k_path()) matches Some(pv) && pv matches
        BValue::List(ps) && all_strings(ps))
}

pub open spec fn all_strings(ps: Seq<BValue>) -> bool {
    forall|j: int| 0 <= j < ps.len() ==> (#[trigger] ps[j]) matches BValue::Str(s)
}

pub open spec fn files_ok(l: Seq<BValue>) -> bool {
    forall|i: int| 0 <= i < l.len() ==> file_entry_ok(#[trigger] l[i])
}

/// How stored path components relate to the decoded path list.
pub open spec fn paths_match(ss: Seq<String>, ps: Seq<BValue>) -> bool {
    ss.len() == ps.len() && forall|j: int|
        0 <= j < ps.len() ==> ((#[trigger] ps[j]) matches BValue::Str(s) && ss[j]@ == chars_of(s))
}

/// How a stored file list relates to the decoded `files` list.
pub open spec fn files_match(fs: Seq<Files>, l: Seq<BValue>) -> bool {
    fs.len() == l.len() && forall|i: int|
        0 <= i < l.len() ==> ((#[trigger] l[i]) matches BValue::Dict(fd) && (assoc(fd, k_length())
            matches Some(BValue::Int(len)) && fs[i].length == len) && (assoc(fd, k_path()) matches
        Some(BValue::List(ps)) && paths_match(fs[i].path@, ps)))
}

/// The strings among a list's elements, in order; other kinds are
/// passed over.
pub open spec fn str_items(l: Seq<BValue>) -> Seq<Seq<u8>>
    decreases l.len(),
{
    if l.len() == 0 {
        Seq::empty()
    } else {
        match l.last() {
            BValue::Str(s) => str_items(l.drop_last()).push(s),
            _ => str_items(l.drop_last()),
        }
    }
}

pub open spec fn strings_match(ss: Seq<String>, bs: Seq<Seq<u8>>) -> bool {
    ss.len() == bs.len() && forall|j: int| 0 <= j < bs.len() ==> (#[trigger] ss[j])@ == chars_of(
        bs[j],
    )
}

/// Whether the optional `announce-list` field is well shaped.
pub open spec fn ann_list_ok(v: Option<BValue>) -> bool {
    match v {
        Option::None => true,
        Option::Some(BValue::List(_)) => true,
        _ => false,
    }
}

/// Whether an `info` dictionary carries every required field in the
/// required shape.
pub open spec fn info_ok(di: Seq<(Seq<u8>, BValue)>) -> bool {
    (assoc(di, k_name()) matches Some(nv) && nv matches BValue::Str(_)) && (assoc(
        di,
        k_piece_length(),
    ) matches Some(pv) && pv matches BValue::Int(i) && fits_usize(i)) && (assoc(di, k_pieces())
        matches Some(sv) && sv matches BValue::Str(_)) && (match assoc(di, k_files()) {
        Option::Some(BValue::List(l)) => files_ok(l),
        Option::Some(_) => false,
        Option::None => assoc(di, k_length()) matches Some(lv) && lv matches BValue::Int(i)
            && fits_usize(i),
    })
}

/// How a stored `Info` relates to a decoded `info` dictionary.
pub open spec fn info_matches(info: Info, di: Seq<(Seq<u8>, BValue)>) -> bool {
    (assoc(di, k_name()) matches Some(BValue::Str(n)) && info.name@ == chars_of(n)) && (assoc(
        di,
        k_piece_length(),
    ) matches Some(BValue::Int(p)) && info.piece_length == p) && (assoc(di, k_pieces()) matches
    Some(BValue::Str(s)) && info.pieces@ == s) && (match assoc(di, k_files()) {
        Option::Some(BValue::List(l)) => info.mode matches FileMode::MultiMode { files }
            && files_match(files@, l),
        Option::Some(_) => false,
        Option::None => assoc(di, k_length()) matches Some(BValue::Int(len)) && info.mode matches
            FileMode::SingleMode { length } && length == len,
    })
}

/// Whether a top-level torrent dictionary carries every field this
/// model reads, each in the right shape.
pub open spec fn fields_ok(dv: Seq<(Seq<u8>, BValue)>) -> bool {
    (assoc(dv, k_announce()) matches Some(av) && av matches BValue::Str(a) && url_parse(
        chars_of(a),
    ) is Some) && ann_list_ok(assoc(dv, k_announce_list())) && (match assoc(
        dv,
        k_creation_date(),
    ) {
        Option::None => true,
        Option::Some(BValue::Int(i)) => fits_usize(i),
        _ => false,
    }) && opt_str_ok(assoc(dv, k_comment())) && opt_str_ok(assoc(dv, k_created_by())) && opt_str_ok(
        assoc(dv, k_encoding()),
    ) && (assoc(dv, k_info()) matches Some(iv) && iv matches BValue::Dict(di) && info_ok(di)
        && benc(BValue::Dict(di)).len() < 0x2000_0000_0000_0000)
}

/// How a stored torrent relates to its decoded dictionary.
pub open spec fn torrent_matches(t: Torrent, dv: Seq<(Seq<u8>, BValue)>) -> bool {
    (assoc(dv, k_announce()) matches Some(BValue::Str(a)) && url_parse(chars_of(a)) matches Some(
        u3,
    ) && t.announce.scheme == scheme_of(u3.0) && t.announce.host@ == u3.1 && t.announce.location@
        == u3.2) && (match assoc(dv, k_announce_list()) {
        Option::None => t.announce_list is None,
        Option::Some(BValue::List(l)) => t.announce_list matches Some(ss) && strings_match(
            ss@,
            str_items(l),
        ),
        _ => false,
    }) && (match assoc(dv, k_creation_date()) {
        Option::None => t.creation_date is None,
        Option::Some(BValue::Int(i)) => t.creation_date == Some(i as usize),
        _ => false,
    }) && opt_str_matches(assoc(dv, k_comment()), t.comment) && opt_str_matches(
        assoc(dv, k_created_by()),
        t.created_by,
    ) && opt_str_matches(assoc(dv, k_encoding()), t.encoding) && (assoc(dv, k_info()) matches Some(
        BValue::Dict(di),
    ) && info_matches(t.info, di) && t.hash@ == sha1_digest(benc(BValue::Dict(di))))
}

/// The decoded top-level dictionary of a metainfo byte run, if the
/// bytes parse to one.
pub open spec fn dict_of(data: Seq<u8>) -> Option<Seq<(Seq<u8>, BValue)>> {
    match bp_value(data, 0) {
        Ok((BValue::Dict(d), _)) => Option::Some(d),
        _ => Option::None,
    }
}

/// The sum of the file lengths of a multi-file layout.
pub open spec fn files_total(fs: Seq<Files>) -> int
    decreases fs.len(),
{
    if fs.len() == 0 {
        0
    } else {
        files_total(fs.drop_last()) + fs.last().length
    }
}

proof fn lemma_files_total_prefix(fs: Seq<Files>, k: int)
    requires
        0 <= k <= fs.len(),
    ensures
        files_total(fs.take(k)) <= files_total(fs),
        files_total(fs.take(k)) >= 0,
    decreases fs.len() - k,
{
    lemma_files_total_nonneg(fs.take(k));
    if k == fs.len() {
        assert(fs.take(k) =~= fs);
    } else {
        lemma_files_total_prefix(fs, k + 1);
        assert(fs.take(k + 1).drop_last() =~= fs.take(k));
        assert(fs.take(k + 1).last() == fs[k]);
    }
}

proof fn lemma_files_total_nonneg(fs: Seq<Files>)
    ensures
        files_total(fs) >= 0,
    decreases fs.len(),
{
    if fs.len() > 0 {
        lemma_files_total_nonneg(fs.drop_last());
    }
}

/// Read a byte-string field as text.
fn as_string(bt: &BTypes) -> (r: Result<String, TorrentError>)
    ensures
        bt@ matches BValue::Str(s) ==> (r matches Ok(x) && x@ == chars_of(s)),
        !(bt@ matches BValue::Str(s)) ==> r == Err::<String, TorrentError>(
            TorrentError::UnexpectedField,
        ),
{
    match bt {
        BTypes::BSTRING(s) => Ok(vec_to_string(s)),
        _ => Err(TorrentError::UnexpectedField),
    }
}

/// Read an integer field that must fit a `usize`.
fn as_usize(bt: &BTypes) -> (r: Result<usize, TorrentError>)
    ensures
        (bt@ matches BValue::Int(i) && fits_usize(i)) ==> r == Ok::<usize, TorrentError>(
            (bt@->Int_0) as usize,
        ),
        !(bt@ matches BValue::Int(i) && fits_usize(i)) ==> r == Err::<usize, TorrentError>(
            TorrentError::UnexpectedField,
        ),
{
    match bt {
        BTypes::INT(i) => {
            let i = *i;
            if i < 0 {
                return Err(TorrentError::UnexpectedField);
            }
            if (i as u64) > (usize::MAX as u64) {
                return Err(TorrentError::UnexpectedField);
            }
            Ok(i as usize)
        },
        _ => Err(TorrentError::UnexpectedField),
    }
}

impl Torrent {
    /// Decode a whole metainfo byte run into a torrent.
    pub fn from_bytes(raw: &[u8]) -> (r: Result<Torrent, TorrentError>)
        ensures
            r is Ok <==> (dict_of(raw@) matches Some(dv) && fields_ok(dv)),
            r matches Ok(t) ==> (dict_of(raw@) matches Some(dv) && torrent_matches(t, dv)),
    {
        match crate::bencode::decode(raw) {
            Ok(BTypes::DICT(d)) => Self::decode_fields(&d),
            Ok(_) => Err(TorrentError::UnexpectedField),
            Err(_) => Err(TorrentError::UnexpectedField),
        }
    }

    /// Decode a metainfo held in text, byte for byte.
    pub fn from_str(val: &str) -> (r: Result<Torrent, TorrentError>)
        ensures
            r is Ok <==> (dict_of(val.spec_bytes()) matches Some(dv) && fields_ok(dv)),
            r matches Ok(t) ==> (dict_of(val.spec_bytes()) matches Some(dv) && torrent_matches(
                t,
                dv,
            )),
    {
        let u8s = crate::bencode::bcode_to_u8(val);
        Self::from_bytes(u8s.as_slice())
    }

    /// Decode the fields of an already-decoded top-level dictionary.
    pub fn decode_fields(d: &Vec<(Vec<u8>, BTypes)>) -> (r: Result<Torrent, TorrentError>)
        ensures
            r is Ok <==> fields_ok(bval_pairs(d@)),
            r matches Ok(t) ==> torrent_matches(t, bval_pairs(d@)),
    {
        let dv = d;
        let announce = {
            let key: [u8; 8] = [97, 110, 110, 111, 117, 110, 99, 101];
            proof {
                assert(key@ =~= k_announce());
            }
            match dict_get(dv, key.as_slice()) {
                None => {
                    return Err(TorrentError::UnexpectedField);
                },
                Some(bt) => match bt {
                    BTypes::BSTRING(s) => {
                        let text = vec_to_string(s);
                        match Url::new(text.as_str()) {
                            Ok(u) => u,
                            Err(_) => {
                                return Err(TorrentError::UnexpectedField);
                            },
                        }
                    },
                    _ => {
                        return Err(TorrentError::UnexpectedField);
                    },
                },
            }
        };
        let announce_list = {
            let key: [u8; 13] = [97, 110, 110, 111, 117, 110, 99, 101, 45, 108, 105, 115, 116];
            proof {
                assert(key@ =~= k_announce_list());
            }
            match dict_get(dv, key.as_slice()) {
                None => None,
                Some(bt) => match bt {
                    BTypes::LIST(l) => Some(Self::string_items(l)),
                    _ => {
                        return Err(TorrentError::UnexpectedField);
                    },
                },
            }
        };
        let creation_date = {
            let key: [u8; 13] = [99, 114, 101, 97, 116, 105, 111, 110, 32, 100, 97, 116, 101];
            proof {
                assert(key@ =~= k_creation_date());
            }
            match dict_get(dv, key.as_slice()) {
                None => None,
                Some(bt) => match as_usize(bt) {
                    Ok(v) => Some(v),
                    Err(e) => {
                        return Err(e);
                    },
                },
            }
        };
        let comment = {
            let key: [u8; 7] = [99, 111, 109, 109, 101, 110, 116];
            proof {
                assert(key@ =~= k_comment());
            }
            match dict_get(dv, key.as_slice()) {
                None => None,
                Some(bt) => match as_string(bt) {
                    Ok(v) => Some(v),
                    Err(e) => {
                        return Err(e);
                    },
                },
            }
        };
        let created_by = {
            let key: [u8; 10] = [99, 114, 101, 97, 116, 101, 100, 32, 98, 121];
            proof {
                assert(key@ =~= k_created_by());
            }
            match dict_get(dv, key.as_slice()) {
                None => None,
                Some(bt) => match as_string(bt) {
                    Ok(v) => Some(v),
                    Err(e) => {
                        return Err(e);
                    },
                },
            }
        };
        let encoding = {
            let key: [u8; 8] = [101, 110, 99, 111, 100, 105, 110, 103];
            proof {
                assert(key@ =~= k_encoding());
            }
            match dict_get(dv, key.as_slice()) {
                None => None,
                Some(bt) => match as_string(bt) {
                    Ok(v) => Some(v),
                    Err(e) => {
                        return Err(e);
                    },
                },
            }
        };
        let key: [u8; 4] = [105, 110, 102, 111];
        proof {
            assert(key@ =~= k_info());
        }
        let info_bt = match dict_get(dv, key.as_slice()) {
            None => {
                return Err(TorrentError::UnexpectedField);
            },
            Some(bt) => bt,
        };
        let info = match Self::decode_info_fields(info_bt) {
            Ok(i) => i,
            Err(e) => {
                return Err(e);
            },
        };
        let parsed = crate::bencode::ser(info_bt);
        if (parsed.len() as u64) >= 0x2000_0000_0000_0000u64 {
            return Err(TorrentError::UnexpectedField);
        }
        let mut sha = Sha1::new();
        sha.append_hash(parsed.as_slice());
        let hash = sha.get_hash();
        Ok(
            Torrent {
                announce,
                announce_list,
                creation_date,
                comment,
                created_by,
                encoding,
                info,
                hash,
            },
        )
    }

    /// The byte-string elements of a list, as text, in order.
    fn string_items(l: &Vec<BTypes>) -> (r: Vec<String>)
        ensures
            strings_match(r@, str_items(bval_seq(l@))),
    {
        let mut acc: Vec<String> = Vec::new();
        let mut i: usize = 0;
        proof {
            crate::utils::lemma_bval_seq_len(l@);
        }
        while i < l.len()
            invariant
                i <= l@.len(),
                bval_seq(l@).len() == l@.len(),
                strings_match(acc@, str_items(bval_seq(l@).take(i as int))),
            decreases l@.len() - i,
        {
            proof {
                lemma_bval_seq_index(l@, i as int);
                assert(bval_seq(l@).take(i + 1).drop_last() =~= bval_seq(l@).take(i as int));
                assert(bval_seq(l@).take(i + 1).last() == bval_seq(l@)[i as int]);
            }
            match &l[i] {
                BTypes::BSTRING(s) => {
                    acc.push(vec_to_string(s));
                },
                _ => {},
            }
            i = i + 1;
        }
        proof {
            assert(bval_seq(l@).take(l@.len() as int) =~= bval_seq(l@));
        }
        acc
    }

    /// Decode the `info` dictionary into its model.
    pub fn decode_info_fields(bt: &BTypes) -> (r: Result<Info, TorrentError>)
        ensures
            r is Ok <==> (bt@ matches BValue::Dict(di) && info_ok(di)),
            r matches Ok(info) ==> (bt@ matches BValue::Dict(di) && info_matches(info, di)),
    {
        let d = match bt {
            BTypes::DICT(d) => d,
            _ => {
                return Err(TorrentError::UnexpectedField);
            },
        };
        let name = {
            let key: [u8; 4] = [110, 97, 109, 101];
            proof {
                assert(key@ =~= k_name());
            }
            match dict_get(d, key.as_slice()) {
                None => {
                    return Err(TorrentError::UnexpectedField);
                },
                Some(v) => match as_string(v) {
                    Ok(s) => s,
                    Err(e) => {
                        return Err(e);
                    },
                },
            }
        };
        let piece_length = {
            let key: [u8; 12] = [112, 105, 101, 99, 101, 32, 108, 101, 110, 103, 116, 104];
            proof {
                assert(key@ =~= k_piece_length());
            }
            match dict_get(d, key.as_slice()) {
                None => {
                    return Err(TorrentError::UnexpectedField);
                },
                Some(v) => match as_usize(v) {
                    Ok(s) => s,
                    Err(e) => {
                        return Err(e);
                    },
                },
            }
        };
        let pieces = {
            let key: [u8; 6] = [112, 105, 101, 99, 101, 115];
            proof {
                assert(key@ =~= k_pieces());
            }
            match dict_get(d, key.as_slice()) {
                None => {
                    return Err(TorrentError::UnexpectedField);
                },
                Some(v) => match v {
                    BTypes::BSTRING(s) => s.clone(),
                    _ => {
                        return Err(TorrentError::UnexpectedField);
                    },
                },
            }
        };
        let fkey: [u8; 5] = [102, 105, 108, 101, 115];
        proof {
            assert(fkey@ =~= k_files());
        }
        let mode = match dict_get(d, fkey.as_slice()) {
            Some(p) => match Self::de_multi_file_mode(p) {
                Ok(m) => m,
                Err(e) => {
                    return Err(e);
                },
            },
            None => {
                let key: [u8; 6] = [108, 101, 110, 103, 116, 104];
                proof {
                    assert(key@ =~= k_length());
                }
                match dict_get(d, key.as_slice()) {
                    None => {
                        return Err(TorrentError::UnexpectedField);
                    },
                    Some(v) => match as_usize(v) {
                        Ok(s) => FileMode::SingleMode { length: s },
                        Err(e) => {
                            return Err(e);
                        },
                    },
                }
            },
        };
        Ok(Info { name, piece_length, pieces, mode })
    }

    /// Decode the `files` list of a multi-file torrent.
    pub fn de_multi_file_mode(d: &BTypes) -> (r: Result<FileMode, TorrentError>)
        ensures
            r is Ok <==> (d@ matches BValue::List(l) && files_ok(l)),
            r matches Ok(m) ==> (d@ matches BValue::List(l) && m matches FileMode::MultiMode {
                files,
            } && files_match(files@, l)),
    {
        let l = match d {
            BTypes::LIST(l) => l,
            _ => {
                return Err(TorrentError::UnexpectedField);
            },
        };
        let mut files: Vec<Files> = Vec::new();
        let mut i: usize = 0;
        proof {
            crate::utils::lemma_bval_seq_len(l@);
        }
        while i < l.len()
            invariant
                i <= l@.len(),
                d@ == BValue::List(bval_seq(l@)),
                bval_seq(l@).len() == l@.len(),
                files@.len() == i,
                forall|j: int| 0 <= j < i ==> file_entry_ok(#[trigger] bval_seq(l@)[j]),
                forall|j: int|
                    0 <= j < i ==> ((#[trigger] bval_seq(l@)[j]) matches BValue::Dict(fd) && (
                    assoc(fd, k_length()) matches Some(BValue::Int(len)) && files@[j].length
                        == len) && (assoc(fd, k_path()) matches Some(BValue::List(ps))
                        && paths_match(files@[j].path@, ps))),
            decreases l@.len() - i,
        {
            proof {
                lemma_bval_seq_index(l@, i as int);
            }
            let fd = match &l[i] {
                BTypes::DICT(fd) => fd,
                _ => {
                    proof {
                        crate::bencode::lemma_bval_variant(l@[i as int]);
                        assert(!file_entry_ok(bval_seq(l@)[i as int]));
                    }
                    return Err(TorrentError::UnexpectedField);
                },
            };
            let lkey: [u8; 6] = [108, 101, 110, 103, 116, 104];
            proof {
                assert(lkey@ =~= k_length());
            }
            let length = match dict_get(fd, lkey.as_slice()) {
                None => {
                    proof {
                        assert(!file_entry_ok(bval_seq(l@)[i as int]));
                    }
                    return Err(TorrentError::UnexpectedField);
                },
                Some(v) => match as_usize(v) {
                    Ok(s) => s,
                    Err(e) => {
                        proof {
                            assert(!file_entry_ok(bval_seq(l@)[i as int]));
                        }
                        return Err(e);
                    },
                },
            };
            let pkey: [u8; 4] = [112, 97, 116, 104];
            proof {
                assert(pkey@ =~= k_path());
            }
            let path = match dict_get(fd, pkey.as_slice()) {
                None => {
                    proof {
                        assert(!file_entry_ok(bval_seq(l@)[i as int]));
                    }
                    return Err(TorrentError::UnexpectedField);
                },
                Some(v) => match Self::path_items(v) {
                    Ok(p) => p,
                    Err(e) => {
                        proof {
                            assert(!file_entry_ok(bval_seq(l@)[i as int]));
                        }
                        return Err(e);
                    },
                },
            };
            files.push(Files { length, path });
            i = i + 1;
        }
        Ok(FileMode::MultiMode { files })
    }

    /// Decode a `path` list whose every element must be a byte-string.
    fn path_items(bt: &BTypes) -> (r: Result<Vec<String>, TorrentError>)
        ensures
            r is Ok <==> (bt@ matches BValue::List(ps) && all_strings(ps)),
            r matches Ok(ss) ==> (bt@ matches BValue::List(ps) && paths_match(ss@, ps)),
    {
        let ps = match bt {
            BTypes::LIST(ps) => ps,
            _ => {
                proof {
                    crate::bencode::lemma_bval_variant(*bt);
                }
                return Err(TorrentError::UnexpectedField);
            },
        };
        let mut acc: Vec<String> = Vec::new();
        let mut i: usize = 0;
        proof {
            crate::utils::lemma_bval_seq_len(ps@);
        }
        while i < ps.len()
            invariant
                i <= ps@.len(),
                bt@ == BValue::List(bval_seq(ps@)),
                bval_seq(ps@).len() == ps@.len(),
                acc@.len() == i,
                forall|j: int|
                    0 <= j < i ==> ((#[trigger] bval_seq(ps@)[j]) matches BValue::Str(s)
                        && acc@[j]@ == chars_of(s)),
            decreases ps@.len() - i,
        {
            proof {
                lemma_bval_seq_index(ps@, i as int);
            }
            match &ps[i] {
                BTypes::BSTRING(s) => {
                    acc.push(vec_to_string(s));
                },
                _ => {
                    proof {
                        crate::bencode::lemma_bval_variant(ps@[i as int]);
                        assert(!(bval_seq(ps@)[i as int] matches BValue::Str(s)));
                    }
                    return Err(TorrentError::UnexpectedField);
                },
            }
            i = i + 1;
        }
        Ok(acc)
    }

    /// Recompute and store the info-hash: the SHA-1 of the canonical
    /// re-encoding of the `info` subtree.
    pub fn info_hash(&mut self, info: Option<&BTypes>)
        requires
            info matches Some(bt) ==> benc(bt@).len() < 0x2000_0000_0000_0000,
        ensures
            match info {
                Some(bt) => final(self).hash@ == sha1_digest(benc(bt@)) && final(self).announce
                    == old(self).announce,
                None => *final(self) == *old(self),
            },
    {
        match info {
            Some(bt) => {
                let parsed = crate::bencode::ser(bt);
                let mut sha = Sha1::new();
                sha.append_hash(parsed.as_slice());
                self.hash = sha.get_hash();
            },
            None => {},
        }
    }

    /// How many bytes remain to fetch when nothing is downloaded yet:
    /// the single file's length, or the sum over all files.
    pub fn calculate_left(&self) -> (r: usize)
        requires
            self.info.mode matches FileMode::MultiMode { files } ==> files_total(files@)
                <= usize::MAX,
        ensures
            match self.info.mode {
                FileMode::SingleMode { length } => r == length,
                FileMode::MultiMode { files } => r == files_total(files@),
            },
    {
        match &self.info.mode {
            FileMode::SingleMode { length } => *length,
            FileMode::MultiMode { files } => {
                let mut total: usize = 0;
                let mut i: usize = 0;
                while i < files.len()
                    invariant
                        i <= files@.len(),
                        files_total(files@) <= usize::MAX,
                        total == files_total(files@.take(i as int)),
                    decreases files@.len() - i,
                {
                    proof {
                        lemma_files_total_prefix(files@, i + 1);
                        assert(files@.take(i + 1).drop_last() =~= files@.take(i as int));
                        assert(files@.take(i + 1).last() == files@[i as int]);
                    }
                    total = total + files[i].length;
                    i = i + 1;
                }
                proof {
                    assert(files@.take(files@.len() as int) =~= files@);
                }
                total
            },
        }
    }
}

} // verus!
