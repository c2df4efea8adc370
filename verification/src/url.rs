//! Endpoint values: a scheme, a `host:port` text and a path, parsed from
//! a URL or built from raw IPv4 octets and a port.
use vstd::prelude::*;

verus! {

use vstd::string::StrSliceExecFns;
use vstd::string::StringExecFns;
use crate::bencode::dec_rec;
use crate::utils::chars_of;

/// Why a URL text was rejected.
#[derive(Debug, PartialEq, Eq, Structural)]
pub enum UrlError {
    InvalidUrl,
    ParseIntError,
    AddressParseError,
}

/// The transport a URL selects: HTTP or HTTPS over a byte stream, UDP
/// over datagrams.
#[derive(PartialEq, Eq, Structural, Debug, Clone, Copy)]
pub enum Scheme {
    HTTP,
    HTTPS,
    UDP,
}

/// An endpoint: scheme, `host:port` text, and path (defaulting to `/`).
#[derive(PartialEq, Eq, Debug, Clone)]
pub struct Url {
    /// Scheme of the url
    pub scheme: Scheme,
    /// Host of the server, in the form `domain:port`
    pub host: String,
    /// Additional path, `/` when the URL names none
    pub location: String,
}

/// The first position at or after `pos` holding `c`, or -1.
pub open spec fn find_char(s: Seq<char>, pos: int, c: char) -> int
    decreases s.len() - pos,
{
    if pos < 0 || pos >= s.len() {
        -1
    } else if s[pos] == c {
        pos
    } else {
        find_char(s, pos + 1, c)
    }
}

/// The last position holding `c`, or -1.
pub open spec fn rfind_char(s: Seq<char>, c: char) -> int
    decreases s.len(),
{
    if s.len() == 0 {
        -1
    } else if s.last() == c {
        s.len() - 1
    } else {
        rfind_char(s.drop_last(), c)
    }
}

/// The scheme a scheme text selects; anything unknown falls to UDP.
pub open spec fn scheme_of(s: Seq<char>) -> Scheme {
    if s == seq!['h', 't', 't', 'p'] {
        Scheme::HTTP
    } else if s == seq!['h', 't', 't', 'p', 's'] {
        Scheme::HTTPS
    } else {
        Scheme::UDP
    }
}

/// How a URL text splits: the scheme before `://`, the host up to the
/// last `/` of the remainder, and the path from that `/` on (or `/`
/// when the remainder has none).
pub open spec fn url_parse(s: Seq<char>) -> Option<(Seq<char>, Seq<char>, Seq<char>)> {
    let ci = find_char(s, 0, ':');
    if ci < 0 {
        Option::None
    } else {
        let scheme = s.subrange(0, ci);
        if ci + 3 > s.len() || s[ci + 1] != '/' || s[ci + 2] != '/' {
            Option::None
        } else {
            let rest = s.subrange(ci + 3, s.len() as int);
            let si = rfind_char(rest, '/');
            if si < 0 {
                Option::Some((scheme, rest, seq!['/']))
            } else {
                Option::Some(
                    (scheme, rest.subrange(0, si), rest.subrange(si, rest.len() as int)),
                )
            }
        }
    }
}

/// The digits of a `u16` port, as characters.
pub open spec fn port_chars(port: u16) -> Seq<char> {
    chars_of(dec_rec(port as nat))
}

/// The value of an all-digit character run, or none.
pub open spec fn char_digits_val(s: Seq<char>) -> Option<int>
    decreases s.len(),
{
    if s.len() == 0 {
        Option::None
    } else if !('0' <= s.last() && s.last() <= '9') {
        Option::None
    } else if s.len() == 1 {
        Option::Some(s.last() as int - 48)
    } else {
        match char_digits_val(s.drop_last()) {
            Option::None => Option::None,
            Option::Some(v) => Option::Some(v * 10 + (s.last() as int - 48)),
        }
    }
}

/// The port named after the first `:` of a `host:port` text, when it is
/// a digit run no larger than a `u16` holds.
pub open spec fn port_of(host: Seq<char>) -> Option<u16> {
    let ci = find_char(host, 0, ':');
    if ci < 0 {
        Option::None
    } else {
        match char_digits_val(host.subrange(ci + 1, host.len() as int)) {
            Option::None => Option::None,
            Option::Some(v) => if 0 <= v <= 65535 {
                Option::Some(v as u16)
            } else {
                Option::None
            },
        }
    }
}

/// A digit run's value only grows as digits are appended.
proof fn lemma_char_digits_prefix(s: Seq<char>, k: int)
    requires
        1 <= k <= s.len(),
        char_digits_val(s) is Some,
    ensures
        char_digits_val(s.take(k)) is Some,
        char_digits_val(s.take(k)) matches Some(v) && 0 <= v,
        char_digits_val(s.take(k)).unwrap() <= char_digits_val(s).unwrap(),
    decreases s.len() - k,
{
    if k == s.len() {
        assert(s.take(k) =~= s);
        lemma_char_digits_nonneg(s);
    } else {
        lemma_char_digits_prefix(s, k + 1);
        assert(s.take(k + 1).drop_last() =~= s.take(k));
        assert(s.take(k + 1).last() == s[k]);
    }
}

proof fn lemma_char_digits_nonneg(s: Seq<char>)
    requires
        char_digits_val(s) is Some,
    ensures
        char_digits_val(s).unwrap() >= 0,
    decreases s.len(),
{
    if s.len() > 1 {
        lemma_char_digits_nonneg(s.drop_last());
    }
}

/// Scan for `c` at or after `pos`.
fn find_char_from(s: &str, pos: usize, n: usize, c: char) -> (r: Option<usize>)
    requires
        n == s@.len(),
        pos <= n,
    ensures
        match r {
            Some(j) => find_char(s@, pos as int, c) == j as int && pos <= j < s@.len()
                && s@[j as int] == c,
            None => find_char(s@, pos as int, c) == -1,
        },
{
    let mut p = pos;
    while p < n
        invariant
            pos <= p <= n,
            n == s@.len(),
            find_char(s@, pos as int, c) == find_char(s@, p as int, c),
        decreases n - p,
    {
        if s.get_char(p) == c {
            return Some(p);
        }
        p = p + 1;
    }
    None
}

/// The scheme named by the first `ci` characters.
fn scheme_from(address: &str, ci: usize, n: usize) -> (r: Scheme)
    requires
        n == address@.len(),
        ci <= n,
    ensures
        r == scheme_of(address@.subrange(0, ci as int)),
{
    let ghost sch = address@.subrange(0, ci as int);
    let ghost hseq = seq!['h', 't', 't', 'p'];
    let ghost hsseq = seq!['h', 't', 't', 'p', 's'];
    proof {
        assert(hseq.len() == 4 && hseq[0] == 'h' && hseq[1] == 't' && hseq[2] == 't' && hseq[3]
            == 'p');
        assert(hsseq.len() == 5 && hsseq[0] == 'h' && hsseq[1] == 't' && hsseq[2] == 't'
            && hsseq[3] == 'p' && hsseq[4] == 's');
        assert(sch.len() == ci);
    }
    if ci == 4 {
        let m = address.get_char(0) == 'h' && address.get_char(1) == 't' && address.get_char(2)
            == 't' && address.get_char(3) == 'p';
        if m {
            proof {
                assert(sch =~= hseq);
            }
            Scheme::HTTP
        } else {
            proof {
                if sch == hseq {
                    assert(address@[0] == sch[0] && address@[1] == sch[1] && address@[2] == sch[2]
                        && address@[3] == sch[3]);
                }
            }
            Scheme::UDP
        }
    } else if ci == 5 {
        let m = address.get_char(0) == 'h' && address.get_char(1) == 't' && address.get_char(2)
            == 't' && address.get_char(3) == 'p' && address.get_char(4) == 's';
        if m {
            proof {
                assert(sch =~= hsseq);
            }
            Scheme::HTTPS
        } else {
            proof {
                if sch == hsseq {
                    assert(address@[0] == sch[0] && address@[1] == sch[1] && address@[2] == sch[2]
                        && address@[3] == sch[3] && address@[4] == sch[4]);
                }
            }
            Scheme::UDP
        }
    } else {
        Scheme::UDP
    }
}

/// The position of the last `/` at or after `start`.
fn rfind_slash(address: &str, start: usize, n: usize) -> (r: Option<usize>)
    requires
        n == address@.len(),
        start <= n,
    ensures
        match r {
            Some(j) => start <= j < n && rfind_char(
                address@.subrange(start as int, n as int),
                '/',
            ) == j - start,
            None => rfind_char(address@.subrange(start as int, n as int), '/') == -1,
        },
{
    let ghost rest = address@.subrange(start as int, n as int);
    let mut q: usize = n;
    proof {
        assert(rest.take(n - start) =~= rest);
    }
    while q > start
        invariant
            start <= q <= n,
            n == address@.len(),
            rest == address@.subrange(start as int, n as int),
            rfind_char(rest.take(q - start), '/') == rfind_char(rest, '/'),
        decreases q,
    {
        let cq = address.get_char(q - 1);
        proof {
            assert(rest.take(q - start).last() == rest[q - start - 1]);
            assert(rest[q - start - 1] == address@[q - 1]);
            assert(rest.take(q - start).drop_last() =~= rest.take(q - 1 - start));
        }
        if cq == '/' {
            return Some(q - 1);
        }
        q = q - 1;
    }
    proof {
        assert(rest.take(0) =~= Seq::<char>::empty());
    }
    None
}

impl Url {
    /// Parse a `scheme://host:port[/path]` text into an endpoint.
    pub fn new(address: &str) -> (r: Result<Url, UrlError>)
        ensures
            match url_parse(address@) {
                Option::Some(t) => r matches Ok(u) && u.scheme == scheme_of(t.0) && u.host@ == t.1
                    && u.location@ == t.2,
                Option::None => r == Err::<Url, UrlError>(UrlError::InvalidUrl),
            },
    {
        let n = address.unicode_len();
        let ci = match find_char_from(address, 0, n, ':') {
            Some(j) => j,
            None => {
                return Err(UrlError::InvalidUrl);
            },
        };
        if n - ci < 3 || address.get_char(ci + 1) != '/' || address.get_char(ci + 2) != '/' {
            return Err(UrlError::InvalidUrl);
        }
        let scheme = scheme_from(address, ci, n);
        let ghost rest = address@.subrange(ci + 3, n as int);
        match rfind_slash(address, ci + 3, n) {
            Some(j) => {
                let host = address.substring_char(ci + 3, j).to_owned();
                let location = address.substring_char(j, n).to_owned();
                proof {
                    let si = j - (ci + 3);
                    assert(host@ =~= rest.subrange(0, si));
                    assert(location@ =~= rest.subrange(si, rest.len() as int));
                }
                Ok(Url { scheme, host, location })
            },
            None => {
                let host = address.substring_char(ci + 3, n).to_owned();
                let location = String::from_str("/");
                proof {
                    reveal_strlit("/");
                    assert(host@ =~= rest);
                    assert(location@ =~= seq!['/']);
                }
                Ok(Url { scheme, host, location })
            },
        }
    }

    /// The `host:port` text `a.b.c.d:port` of four IPv4 octets.
    pub open spec fn ip_host_bytes(ip: Seq<u8>, port: u16) -> Seq<u8> {
        dec_rec(ip[0] as nat) + seq![46u8] + dec_rec(ip[1] as nat) + seq![46u8] + dec_rec(
            ip[2] as nat,
        ) + seq![46u8] + dec_rec(ip[3] as nat) + seq![58u8] + dec_rec(port as nat)
    }

    /// An endpoint for four raw IPv4 octets and a port, as compact peer
    /// lists carry them.
    pub fn from_ip_bytes(ip: &[u8], port: u16) -> (r: Url)
        requires
            ip@.len() == 4,
        ensures
            r.scheme == Scheme::HTTP,
            r.host@ == chars_of(Url::ip_host_bytes(ip@, port)),
            r.location@ == seq!['/'],
    {
        let mut bytes = crate::bencode::dec_u64(ip[0] as u64);
        bytes.push(46);
        let mut b1 = crate::bencode::dec_u64(ip[1] as u64);
        bytes.append(&mut b1);
        bytes.push(46);
        let mut b2 = crate::bencode::dec_u64(ip[2] as u64);
        bytes.append(&mut b2);
        bytes.push(46);
        let mut b3 = crate::bencode::dec_u64(ip[3] as u64);
        bytes.append(&mut b3);
        bytes.push(58);
        let mut bp = crate::bencode::dec_u64(port as u64);
        bytes.append(&mut bp);
        proof {
            assert(bytes@ =~= Url::ip_host_bytes(ip@, port));
        }
        let host = crate::utils::vec_to_string(&bytes);
        let location = String::from_str("/");
        proof {
            reveal_strlit("/");
            assert(location@ =~= seq!['/']);
        }
        Url { scheme: Scheme::HTTP, host, location }
    }

    /// An endpoint for a textual IP (or host name) and a port.
    pub fn from_ip(ip: &str, port: u16) -> (r: Result<Url, UrlError>)
        ensures
            r matches Ok(u) && u.scheme == Scheme::HTTP && u.host@ == ip@ + seq![':']
                + port_chars(port) && u.location@ == seq!['/'],
    {
        let mut host = ip.to_owned();
        host.append(":");
        let pdigits = crate::bencode::dec_u64(port as u64);
        let ptext = crate::utils::vec_to_string(&pdigits);
        host.append(ptext.as_str());
        let location = String::from_str("/");
        proof {
            reveal_strlit(":");
            reveal_strlit("/");
            assert(":"@ =~= seq![':']);
            assert(location@ =~= seq!['/']);
            assert(host@ =~= ip@ + seq![':'] + port_chars(port));
        }
        Ok(Url { scheme: Scheme::HTTP, host, location })
    }

    /// The port named in `host`.  Callers hand in an endpoint whose
    /// host text carries one, as every parsed tracker or peer address
    /// does.
    pub fn port(&self) -> (r: u16)
        requires
            port_of(self.host@) is Some,
        ensures
            Some(r) == port_of(self.host@),
    {
        let host: &str = self.host.as_str();
        let n = host.unicode_len();
        let ci = match find_char_from(host, 0, n, ':') {
            Some(j) => j,
            None => {
                proof {
                    assert(false);
                }
                0
            },
        };
        let ghost digits = host@.subrange(ci + 1, n as int);
        let mut acc: u32 = 0;
        let mut i: usize = ci + 1;
        proof {
            assert(char_digits_val(digits) is Some);
            if n == ci + 1 {
                assert(false);
            }
        }
        while i < n
            invariant
                ci + 1 <= i <= n,
                n == host@.len(),
                ci + 1 < n,
                digits == host@.subrange(ci + 1, n as int),
                char_digits_val(digits) is Some,
                char_digits_val(digits).unwrap() <= 65535,
                i > ci + 1 ==> char_digits_val(digits.take(i - (ci + 1))) == Some(acc as int),
                i == ci + 1 ==> acc == 0,
                acc <= 65535,
            decreases n - i,
        {
            let c = host.get_char(i);
            proof {
                let k = i - (ci + 1);
                assert(digits.take(k + 1).last() == digits[k]);
                assert(digits.take(k + 1).drop_last() =~= digits.take(k));
                assert(digits[k] == host@[i as int]);
                lemma_char_digits_prefix(digits, k + 1);
                if !('0' <= host@[i as int] && host@[i as int] <= '9') {
                    if k == 0 {
                        lemma_char_digits_prefix(digits, 1);
                        assert(digits.take(1).last() == digits[0]);
                        assert(false);
                    } else {
                        assert(char_digits_val(digits.take(k + 1)) is None);
                        assert(false);
                    }
                }
            }
            let d: u32 = (c as u32) - 48;
            proof {
                let k = i - (ci + 1);
                if k == 0 {
                    assert(digits.take(1).drop_last() =~= Seq::<char>::empty());
                    assert(char_digits_val(digits.take(1)) == Some(digits[0] as int - 48));
                } else {
                    assert(char_digits_val(digits.take(k + 1)) == Some(acc * 10 + (digits[k] as int
                        - 48)));
                }
                assert(char_digits_val(digits.take(k + 1)).unwrap() <= 65535);
            }
            acc = acc * 10 + d;
            i = i + 1;
        }
        proof {
            assert(digits.take(n - (ci + 1)) =~= digits);
        }
        acc as u16
    }
}

} // verus!
