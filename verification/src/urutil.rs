//! Tracker request and reply plumbing: percent-encoding of binary query
//! values, assembly of the announce query string, and extraction of the
//! reply body from an HTTP or UDP tracker response.
use vstd::prelude::*;

verus! {

use crate::url::Scheme;
use crate::utils::chars_of;
use crate::utils::vec_to_string;
use vstd::string::StringExecFns;

/// Why a tracker exchange failed.
#[derive(Debug, PartialEq, Eq, Structural)]
pub enum UttdError {
    IpParseFail,
    IoError,
    FailedRequest,
    RequestTimeout,
}

/// The bytes that pass through percent-encoding unchanged: digits,
/// letters, `.`, `-` and `_`.
pub open spec fn is_safe(b: u8) -> bool {
    (48 <= b <= 57) || (65 <= b <= 90) || (97 <= b <= 122) || b == 46 || b == 45 || b == 95
}

/// The uppercase hexadecimal digit of a nibble.
pub open spec fn hexu(n: u8) -> u8 {
    if n < 10 {
        (48 + n) as u8
    } else {
        (55 + n) as u8
    }
}

/// How one byte is percent-encoded: safe bytes stand as they are, all
/// others become `%XX`.
pub open spec fn enc_byte(b: u8) -> Seq<u8> {
    if is_safe(b) {
        seq![b]
    } else {
        seq![37u8, hexu(b >> 4), hexu(b & 0xF)]
    }
}

/// The percent-encoding of a byte run.
pub open spec fn urlencode(s: Seq<u8>) -> Seq<u8>
    decreases s.len(),
{
    if s.len() == 0 {
        Seq::empty()
    } else {
        urlencode(s.drop_last()) + enc_byte(s.last())
    }
}

proof fn lemma_enc_nibbles(b: u8)
    by (bit_vector)
    ensures
        (b >> 4) < 16,
        (b & 0xF) < 16,
{
}

/// Percent-encode into raw bytes.
pub fn encode_bytes(value: &[u8]) -> (r: Vec<u8>)
    ensures
        r@ == urlencode(value@),
{
    let mut acc: Vec<u8> = Vec::new();
    let mut i: usize = 0;
    while i < value.len()
        invariant
            i <= value@.len(),
            acc@ == urlencode(value@.take(i as int)),
        decreases value@.len() - i,
    {
        let b = value[i];
        proof {
            lemma_enc_nibbles(b);
        }
        if (48 <= b && b <= 57) || (65 <= b && b <= 90) || (97 <= b && b <= 122) || b == 46 || b
            == 45 || b == 95 {
            acc.push(b);
        } else {
            acc.push(37);
            let hi = b >> 4;
            let lo = b & 0xF;
            acc.push(if hi < 10 { 48 + hi } else { 55 + hi });
            acc.push(if lo < 10 { 48 + lo } else { 55 + lo });
        }
        proof {
            assert(value@.take(i + 1).drop_last() =~= value@.take(i as int));
            assert(value@.take(i + 1).last() == value@[i as int]);
            assert(acc@ =~= urlencode(value@.take(i as int)) + enc_byte(value@[i as int]));
        }
        i = i + 1;
    }
    proof {
        assert(value@.take(value@.len() as int) =~= value@);
    }
    acc
}

/// Percent-encode a byte run into text: safe bytes pass through, all
/// others become `%XX` with uppercase hexadecimal digits.
pub fn encode(value: &[u8]) -> (r: String)
    ensures
        r@ == chars_of(urlencode(value@)),
{
    let bytes = encode_bytes(value);
    vec_to_string(&bytes)
}

/// Each byte as the character with that code point.
pub fn u8_string(value: &[u8]) -> (r: String)
    ensures
        r@ == chars_of(value@),
{
    let v = vstd::slice::slice_to_vec(value);
    vec_to_string(&v)
}

/// The views of a key/value pair vector.
pub open spec fn pairs_view(ps: Seq<(Vec<u8>, Vec<u8>)>) -> Seq<(Seq<u8>, Seq<u8>)> {
    Seq::new(ps.len(), |i: int| (ps[i].0@, ps[i].1@))
}

/// One `key=value` item, the value percent-encoded.
pub open spec fn query_item(p: (Seq<u8>, Seq<u8>)) -> Seq<u8> {
    p.0 + seq![61u8] + urlencode(p.1)
}

/// The query items joined with `&`.
pub open spec fn query_of(ps: Seq<(Seq<u8>, Seq<u8>)>) -> Seq<u8>
    decreases ps.len(),
{
    if ps.len() == 0 {
        Seq::empty()
    } else if ps.len() == 1 {
        query_item(ps[0])
    } else {
        query_of(ps.drop_last()) + seq![38u8] + query_item(ps.last())
    }
}

/// Assemble `base?k=v&k=v...` with every value percent-encoded; a bare
/// `base` when there are no parameters.
pub fn build_url(base: &str, params: &Vec<(Vec<u8>, Vec<u8>)>) -> (r: String)
    ensures
        params@.len() == 0 ==> r@ == base@,
        params@.len() > 0 ==> r@ == base@ + seq!['?'] + chars_of(query_of(pairs_view(params@))),
{
    let mut url = base.to_owned();
    if params.len() == 0 {
        return url;
    }
    url.append("?");
    let mut q: Vec<u8> = Vec::new();
    let mut i: usize = 0;
    while i < params.len()
        invariant
            i <= params@.len(),
            params@.len() > 0,
            i > 0 ==> q@ == query_of(pairs_view(params@).take(i as int)),
            i == 0 ==> q@ == Seq::<u8>::empty(),
        decreases params@.len() - i,
    {
        if i > 0 {
            q.push(38);
        }
        q.extend_from_slice(params[i].0.as_slice());
        q.push(61);
        let mut ev = encode_bytes(params[i].1.as_slice());
        q.append(&mut ev);
        proof {
            let pv = pairs_view(params@);
            assert(pv.take(i + 1).drop_last() =~= pv.take(i as int));
            assert(pv.take(i + 1).last() == pv[i as int]);
            if i == 0 {
                assert(pv.take(1).len() == 1);
                assert(q@ =~= query_item(pv[0]));
                assert(pv.take(1)[0] == pv[0]);
            } else {
                assert(q@ =~= query_of(pv.take(i as int)) + seq![38u8] + query_item(pv[i as int]));
            }
        }
        i = i + 1;
    }
    proof {
        assert(pairs_view(params@).take(params@.len() as int) =~= pairs_view(params@));
    }
    let qs = vec_to_string(&q);
    url.append(qs.as_str());
    proof {
        reveal_strlit("?");
        assert("?"@ =~= seq!['?']);
        assert(url@ =~= base@ + seq!['?'] + chars_of(query_of(pairs_view(params@))));
    }
    url
}

/// Whether an empty line (CRLF CRLF) starts at `j`.
pub open spec fn crlf2_at(s: Seq<u8>, j: int) -> bool {
    s[j] == 13 && s[j + 1] == 10 && s[j + 2] == 13 && s[j + 3] == 10
}

/// The first position at or after `pos` where an empty line starts, or
/// -1.
pub open spec fn find_crlf2(s: Seq<u8>, pos: int) -> int
    decreases s.len() - pos,
{
    if pos < 0 || pos + 4 > s.len() {
        -1
    } else if crlf2_at(s, pos) {
        pos
    } else {
        find_crlf2(s, pos + 1)
    }
}

/// The status code spelled by bytes 9 to 11 of an HTTP status line.
pub open spec fn http_status(s: Seq<u8>) -> int {
    (s[9] - 48) * 100 + (s[10] - 48) * 10 + (s[11] - 48)
}

/// The reply body of a tracker response for the given transport.
pub fn response_body(scheme: Scheme, res: &Vec<u8>) -> (r: Result<Vec<u8>, UttdError>)
    ensures
        scheme == Scheme::UDP && res@.len() >= 20 ==> (r matches Ok(b) && b@ == res@.skip(20)),
        scheme == Scheme::UDP && res@.len() < 20 ==> r == Err::<Vec<u8>, UttdError>(
            UttdError::FailedRequest,
        ),
        scheme != Scheme::UDP && res@.len() >= 12 && http_status(res@) == 200 && find_crlf2(
            res@,
            0,
        ) >= 0 ==> (r matches Ok(b) && b@ == res@.skip(find_crlf2(res@, 0) + 4)),
        scheme != Scheme::UDP && !(res@.len() >= 12 && http_status(res@) == 200 && find_crlf2(
            res@,
            0,
        ) >= 0) ==> r == Err::<Vec<u8>, UttdError>(UttdError::FailedRequest),
{
    match scheme {
        Scheme::UDP => response_body_udp(res),
        _ => response_body_tcp(res),
    }
}

/// The reply body of a UDP tracker response: the 20-byte header of
/// action, transaction-id, interval, leechers and seeders is dropped
/// and the compact peer records follow.
pub fn response_body_udp(res: &Vec<u8>) -> (r: Result<Vec<u8>, UttdError>)
    ensures
        res@.len() >= 20 ==> (r matches Ok(b) && b@ == res@.skip(20)),
        res@.len() < 20 ==> r == Err::<Vec<u8>, UttdError>(UttdError::FailedRequest),
{
    if res.len() < 20 {
        return Err(UttdError::FailedRequest);
    }
    let b = vstd::slice::slice_subrange(res.as_slice(), 20, res.len());
    Ok(vstd::slice::slice_to_vec(b))
}


/// The reply body of an HTTP tracker response: the status must read
/// 200, and the body follows the first empty line.
pub fn response_body_tcp(res: &Vec<u8>) -> (r: Result<Vec<u8>, UttdError>)
    ensures
        res@.len() < 12 ==> r == Err::<Vec<u8>, UttdError>(UttdError::FailedRequest),
        res@.len() >= 12 && http_status(res@) != 200 ==> r == Err::<Vec<u8>, UttdError>(
            UttdError::FailedRequest,
        ),
        res@.len() >= 12 && http_status(res@) == 200 && find_crlf2(res@, 0) < 0 ==> r == Err::<
            Vec<u8>,
            UttdError,
        >(UttdError::FailedRequest),
        res@.len() >= 12 && http_status(res@) == 200 && find_crlf2(res@, 0) >= 0 ==> (r matches
        Ok(b) && b@ == res@.skip(find_crlf2(res@, 0) + 4)),
{
    if res.len() < 12 {
        return Err(UttdError::FailedRequest);
    }
    let code: i64 = (res[9] as i64 - 48) * 100 + (res[10] as i64 - 48) * 10 + (res[11] as i64 - 48);
    if code != 200 {
        return Err(UttdError::FailedRequest);
    }
    let n = res.len();
    let mut p: usize = 0;
    while p <= n - 4
        invariant
            n >= 12,
            p <= n - 3,
            n == res@.len(),
            http_status(res@) == 200,
            find_crlf2(res@, 0) == find_crlf2(res@, p as int),
        decreases n - p,
    {
        if res[p] == 13 && res[p + 1] == 10 && res[p + 2] == 13 && res[p + 3] == 10 {
            proof {
                assert(crlf2_at(res@, p as int));
                assert(find_crlf2(res@, p as int) == p);
            }
            let b = vstd::slice::slice_subrange(res.as_slice(), p + 4, n);
            proof {
                assert(res@.subrange(p + 4, n as int) =~= res@.skip(p + 4));
            }
            return Ok(vstd::slice::slice_to_vec(b));
        }
        p = p + 1;
    }
    Err(UttdError::FailedRequest)
}

} // verus!
