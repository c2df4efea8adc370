//! Small helpers shared across the crate: byte-run to text conversion,
//! hexadecimal rendering, and shape-checked access to decoded bencode
//! values.
use vstd::prelude::*;

verus! {

use crate::bencode::BTypes;
use crate::bencode::BValue;
use crate::bencode::bval_pairs;
use vstd::string::StringSliceAdditionalSpecFns;
use vstd::string::StrSliceExecFns;

/// Raised when a bencode value lacks the shape a field requires.
#[derive(Debug)]
pub enum BencodeErr {
    Berr,
    InvalidUrl,
}

/// The characters that stand for a byte run, one character per byte.
pub open spec fn chars_of(s: Seq<u8>) -> Seq<char> {
    Seq::new(s.len(), |i: int| s[i] as char)
}

/// Relies on `String::push`: appends one character to the string.
#[verifier::external_body]
fn push_char(s: &mut String, c: char)
    ensures
        final(s)@ == old(s)@.push(c),
{
    s.push(c);
}

/// Each byte as the character with that code point, so arbitrary bytes
/// survive the trip into text.
pub fn vec_to_string(holder: &Vec<u8>) -> (r: String)
    ensures
        r@ == chars_of(holder@),
{
    let mut s = String::new();
    let mut i: usize = 0;
    while i < holder.len()
        invariant
            i <= holder@.len(),
            s@ == chars_of(holder@).take(i as int),
        decreases holder@.len() - i,
    {
        push_char(&mut s, holder[i] as char);
        proof {
            assert(chars_of(holder@).take(i + 1) =~= chars_of(holder@).take(i as int).push(
                holder@[i as int] as char,
            ));
        }
        i = i + 1;
    }
    proof {
        assert(chars_of(holder@).take(holder@.len() as int) =~= chars_of(holder@));
    }
    s
}

/// The lowercase hexadecimal character of a nibble.
pub open spec fn hex_digit(n: u8) -> char {
    if n < 10 {
        ((48 + n) as u8) as char
    } else {
        ((87 + n) as u8) as char
    }
}

/// Two lowercase hexadecimal characters per byte, high nibble first.
pub open spec fn hex_chars(s: Seq<u8>) -> Seq<char> {
    Seq::new(
        2 * s.len(),
        |i: int|
            if i % 2 == 0 {
                hex_digit(s[i / 2] >> 4)
            } else {
                hex_digit(s[i / 2] & 0xF)
            },
    )
}

proof fn lemma_nibbles(b: u8)
    by (bit_vector)
    ensures
        (b >> 4) < 16,
        (b & 0xF) < 16,
{
}

/// Render bytes as lowercase hexadecimal text.
pub fn hex_string(bytes: &Vec<u8>) -> (r: String)
    ensures
        r@ == hex_chars(bytes@),
{
    let mut s = String::new();
    let mut i: usize = 0;
    while i < bytes.len()
        invariant
            i <= bytes@.len(),
            s@ == hex_chars(bytes@).take(2 * i as int),
        decreases bytes@.len() - i,
    {
        let b = bytes[i];
        proof {
            lemma_nibbles(b);
        }
        let hi = b >> 4;
        let lo = b & 0xF;
        let hc: char = if hi < 10 {
            (48 + hi) as char
        } else {
            (87 + hi) as char
        };
        let lc: char = if lo < 10 {
            (48 + lo) as char
        } else {
            (87 + lo) as char
        };
        push_char(&mut s, hc);
        push_char(&mut s, lc);
        proof {
            assert(hex_chars(bytes@).take(2 * (i + 1) as int) =~= hex_chars(bytes@).take(
                2 * i as int,
            ).push(hex_digit(b >> 4)).push(hex_digit(b & 0xF)));
        }
        i = i + 1;
    }
    proof {
        assert(hex_chars(bytes@).take(2 * bytes@.len() as int) =~= hex_chars(bytes@));
    }
    s
}

/// The big-endian bytes of a 64-bit word.
pub open spec fn u64_be(v: u64) -> Seq<u8> {
    seq![
        crate::sha1::u64_byte(v, 0),
        crate::sha1::u64_byte(v, 1),
        crate::sha1::u64_byte(v, 2),
        crate::sha1::u64_byte(v, 3),
        crate::sha1::u64_byte(v, 4),
        crate::sha1::u64_byte(v, 5),
        crate::sha1::u64_byte(v, 6),
        crate::sha1::u64_byte(v, 7),
    ]
}

/// The big-endian bytes of a 32-bit word.
pub open spec fn u32_be(v: u32) -> Seq<u8> {
    seq![
        crate::sha1::u32_byte(v, 0),
        crate::sha1::u32_byte(v, 1),
        crate::sha1::u32_byte(v, 2),
        crate::sha1::u32_byte(v, 3),
    ]
}

/// The big-endian bytes of a 16-bit word.
pub open spec fn u16_be(v: u16) -> Seq<u8> {
    seq![(v >> 8) as u8, (v & 0xFF) as u8]
}

proof fn lemma_be_bytes(x: u64, y: u32, z: u16)
    by (bit_vector)
    ensures
        (x >> 56) & 0xFF < 256,
        (x >> 48) & 0xFF < 256,
        (x >> 40) & 0xFF < 256,
        (x >> 32) & 0xFF < 256,
        (x >> 24) & 0xFF < 256,
        (x >> 16) & 0xFF < 256,
        (x >> 8) & 0xFF < 256,
        x & 0xFF < 256,
        (y >> 24) & 0xFF < 256,
        (y >> 16) & 0xFF < 256,
        (y >> 8) & 0xFF < 256,
        y & 0xFF < 256,
        (z >> 8) < 256,
        z & 0xFF < 256,
        x >> 0u64 == x,
        y >> 0u32 == y,
{
}

/// Append the eight big-endian bytes of a 64-bit word.
pub fn push_u64_be(out: &mut Vec<u8>, x: u64)
    ensures
        final(out)@ == old(out)@ + u64_be(x),
{
    proof {
        lemma_be_bytes(x, 0, 0);
    }
    let mut tail: Vec<u8> = Vec::new();
    tail.push(((x >> 56u64) & 0xFF) as u8);
    proof {
        assert(tail@ =~= u64_be(x).take(1));
    }
    tail.push(((x >> 48u64) & 0xFF) as u8);
    proof {
        assert(tail@ =~= u64_be(x).take(2));
    }
    tail.push(((x >> 40u64) & 0xFF) as u8);
    proof {
        assert(tail@ =~= u64_be(x).take(3));
    }
    tail.push(((x >> 32u64) & 0xFF) as u8);
    proof {
        assert(tail@ =~= u64_be(x).take(4));
    }
    tail.push(((x >> 24u64) & 0xFF) as u8);
    proof {
        assert(tail@ =~= u64_be(x).take(5));
    }
    tail.push(((x >> 16u64) & 0xFF) as u8);
    proof {
        assert(tail@ =~= u64_be(x).take(6));
    }
    tail.push(((x >> 8u64) & 0xFF) as u8);
    proof {
        assert(tail@ =~= u64_be(x).take(7));
    }
    tail.push((x & 0xFF) as u8);
    proof {
        assert(tail@ =~= u64_be(x).take(8));
    }
    proof {
        assert(u64_be(x).take(8) =~= u64_be(x));
    }
    out.append(&mut tail);
    proof {
        assert(out@ =~= old(out)@ + u64_be(x));
    }
}

/// Append the four big-endian bytes of a 32-bit word.
pub fn push_u32_be(out: &mut Vec<u8>, x: u32)
    ensures
        final(out)@ == old(out)@ + u32_be(x),
{
    proof {
        lemma_be_bytes(0, x, 0);
    }
    let mut tail: Vec<u8> = Vec::new();
    tail.push(((x >> 24u32) & 0xFF) as u8);
    proof {
        assert(tail@ =~= u32_be(x).take(1));
    }
    tail.push(((x >> 16u32) & 0xFF) as u8);
    proof {
        assert(tail@ =~= u32_be(x).take(2));
    }
    tail.push(((x >> 8u32) & 0xFF) as u8);
    proof {
        assert(tail@ =~= u32_be(x).take(3));
    }
    tail.push((x & 0xFF) as u8);
    proof {
        assert(tail@ =~= u32_be(x).take(4));
    }
    proof {
        assert(u32_be(x).take(4) =~= u32_be(x));
    }
    out.append(&mut tail);
    proof {
        assert(out@ =~= old(out)@ + u32_be(x));
    }
}

/// Append the two big-endian bytes of a 16-bit word.
pub fn push_u16_be(out: &mut Vec<u8>, x: u16)
    ensures
        final(out)@ == old(out)@ + u16_be(x),
{
    proof {
        lemma_be_bytes(0, 0, x);
    }
    out.push((x >> 8) as u8);
    out.push((x & 0xFF) as u8);
    proof {
        assert(out@ =~= old(out)@ + u16_be(x));
    }
}

/// Relies on `std::time::SystemTime::now`: the seconds and the
/// subsecond microseconds since the epoch, at some instant during the
/// call.
#[verifier::external_body]
pub fn unix_time() -> (u64, u32) {
    let now = std::time::SystemTime::now().duration_since(std::time::UNIX_EPOCH);
    match now {
        Ok(d) => (d.as_secs(), d.subsec_micros()),
        Err(_) => (0, 0),
    }
}

/// The value bound to `k` in an association sequence, first match.
pub open spec fn assoc(d: Seq<(Seq<u8>, BValue)>, k: Seq<u8>) -> Option<BValue>
    decreases d.len(),
{
    if d.len() == 0 {
        Option::None
    } else if d.first().0 == k {
        Option::Some(d.first().1)
    } else {
        assoc(d.drop_first(), k)
    }
}

/// Byte-for-byte equality of a vector and a slice.
pub fn eq_bytes(a: &Vec<u8>, b: &[u8]) -> (r: bool)
    ensures
        r <==> a@ == b@,
{
    if a.len() != b.len() {
        proof {
            assert(a@.len() != b@.len());
        }
        return false;
    }
    let mut i: usize = 0;
    while i < a.len()
        invariant
            i <= a@.len(),
            a@.len() == b@.len(),
            forall|j: int| 0 <= j < i ==> a@[j] == b@[j],
        decreases a@.len() - i,
    {
        if a[i] != b[i] {
            return false;
        }
        i = i + 1;
    }
    proof {
        assert(a@ =~= b@);
    }
    true
}

/// Character-for-character equality of two texts.
pub fn eq_str(a: &str, b: &str) -> (r: bool)
    ensures
        r <==> a@ == b@,
{
    let n = a.unicode_len();
    let m = b.unicode_len();
    if n != m {
        proof {
            assert(a@.len() != b@.len());
        }
        return false;
    }
    let mut i: usize = 0;
    while i < n
        invariant
            i <= n,
            n == a@.len(),
            a@.len() == b@.len(),
            forall|j: int| 0 <= j < i ==> a@[j] == b@[j],
        decreases n - i,
    {
        if a.get_char(i) != b.get_char(i) {
            return false;
        }
        i = i + 1;
    }
    proof {
        assert(a@ =~= b@);
    }
    true
}

/// Byte-for-byte equality of two slices.
pub fn eq_bytes_slices(a: &[u8], b: &[u8]) -> (r: bool)
    ensures
        r <==> a@ == b@,
{
    if a.len() != b.len() {
        proof {
            assert(a@.len() != b@.len());
        }
        return false;
    }
    let mut i: usize = 0;
    while i < a.len()
        invariant
            i <= a@.len(),
            a@.len() == b@.len(),
            forall|j: int| 0 <= j < i ==> a@[j] == b@[j],
        decreases a@.len() - i,
    {
        if a[i] != b[i] {
            return false;
        }
        i = i + 1;
    }
    proof {
        assert(a@ =~= b@);
    }
    true
}

/// Look a key up in a decoded dictionary.
pub fn dict_get<'a>(d: &'a Vec<(Vec<u8>, BTypes)>, key: &[u8]) -> (r: Option<&'a BTypes>)
    ensures
        match r {
            Some(v) => assoc(bval_pairs(d@), key@) == Some(v@),
            None => assoc(bval_pairs(d@), key@) is None,
        },
{
    let mut i: usize = 0;
    proof {
        assert(bval_pairs(d@).skip(0) =~= bval_pairs(d@));
        lemma_bval_pairs_len(d@);
    }
    while i < d.len()
        invariant
            i <= d@.len(),
            bval_pairs(d@).len() == d@.len(),
            assoc(bval_pairs(d@), key@) == assoc(bval_pairs(d@).skip(i as int), key@),
            forall|j: int| 0 <= j < i ==> bval_pairs(d@)[j].0 != key@,
        decreases d@.len() - i,
    {
        proof {
            lemma_bval_pairs_index(d@, i as int);
        }
        if eq_bytes(&d[i].0, key) {
            proof {
                assert(bval_pairs(d@).skip(i as int).first() == bval_pairs(d@)[i as int]);
            }
            return Some(&d[i].1);
        }
        proof {
            assert(bval_pairs(d@).skip(i as int).first() == bval_pairs(d@)[i as int]);
            assert(bval_pairs(d@).skip(i as int).drop_first() =~= bval_pairs(d@).skip(i + 1));
        }
        i = i + 1;
    }
    proof {
        assert(bval_pairs(d@).skip(i as int).len() == 0);
    }
    None
}

/// A field value that can be read out of one bencode value: what
/// shapes it accepts, and what it reads from them.
pub trait FromBType: Sized {
    /// Whether a value of this shape converts.
    spec fn accepts(v: BValue) -> bool;

    /// How the converted result relates to the value.
    spec fn of_bval(v: BValue, r: Self) -> bool;

    /// Convert one decoded value.
    fn from_btype(v: &BTypes) -> (r: Result<Self, BencodeErr>)
        ensures
            r is Ok <==> Self::accepts(v@),
            r matches Ok(x) ==> Self::of_bval(v@, x),
    ;
}

impl FromBType for String {
    open spec fn accepts(v: BValue) -> bool {
        v is Str
    }

    open spec fn of_bval(v: BValue, r: Self) -> bool {
        v matches BValue::Str(s) && r@ == chars_of(s)
    }

    fn from_btype(v: &BTypes) -> (r: Result<Self, BencodeErr>) {
        match v {
            BTypes::BSTRING(s) => Ok(vec_to_string(s)),
            _ => {
                proof {
                    crate::bencode::lemma_bval_variant(*v);
                }
                Err(BencodeErr::Berr)
            },
        }
    }
}

impl FromBType for usize {
    open spec fn accepts(v: BValue) -> bool {
        v matches BValue::Int(i) && 0 <= i <= usize::MAX
    }

    open spec fn of_bval(v: BValue, r: Self) -> bool {
        v matches BValue::Int(i) && r == i
    }

    fn from_btype(v: &BTypes) -> (r: Result<Self, BencodeErr>) {
        match v {
            BTypes::INT(i) => {
                let i = *i;
                if i < 0 || (i as u64) > (usize::MAX as u64) {
                    return Err(BencodeErr::Berr);
                }
                Ok(i as usize)
            },
            _ => {
                proof {
                    crate::bencode::lemma_bval_variant(*v);
                }
                Err(BencodeErr::Berr)
            },
        }
    }
}

impl FromBType for Vec<u8> {
    open spec fn accepts(v: BValue) -> bool {
        v is Str
    }

    open spec fn of_bval(v: BValue, r: Self) -> bool {
        v matches BValue::Str(s) && r@ == s
    }

    fn from_btype(v: &BTypes) -> (r: Result<Self, BencodeErr>) {
        match v {
            BTypes::BSTRING(s) => Ok(s.clone()),
            _ => {
                proof {
                    crate::bencode::lemma_bval_variant(*v);
                }
                Err(BencodeErr::Berr)
            },
        }
    }
}

/// Convert an optional dictionary field: an absent field is fine, a
/// present one must have the shape the target asks for.
pub fn decode_option<T: FromBType>(value: Option<&BTypes>) -> (r: Result<Option<T>, BencodeErr>)
    ensures
        match value {
            Some(v) => (r is Ok <==> T::accepts(v@)) && (r matches Ok(o) ==> (o matches Some(x)
                && T::of_bval(v@, x))),
            None => r matches Ok(o) && o is None,
        },
{
    if let Some(v) = value {
        match T::from_btype(v) {
            Ok(x) => Ok(Some(x)),
            Err(e) => Err(e),
        }
    } else {
        Ok(None)
    }
}

/// The text bound to `key` in a decoded dictionary, when the bound
/// value is a byte-string.
pub fn get_string_from_dict(bcode: &BTypes, key: &str) -> (r: Option<String>)
    ensures
        match r {
            Some(x) => bcode@ matches BValue::Dict(dv) && (assoc(dv, key.spec_bytes()) matches
                Some(BValue::Str(s)) && x@ == chars_of(s)),
            None => !(bcode@ matches BValue::Dict(dv) && assoc(dv, key.spec_bytes()) matches Some(
                v,
            ) && v is Str),
        },
{
    match bcode {
        BTypes::DICT(d) => match dict_get(d, key.as_bytes()) {
            Some(BTypes::BSTRING(s)) => Some(vec_to_string(s)),
            Some(bt) => {
                proof {
                    crate::bencode::lemma_bval_variant(*bt);
                }
                None
            },
            None => None,
        },
        _ => {
            proof {
                crate::bencode::lemma_bval_variant(*bcode);
            }
            None
        },
    }
}

/// The integer bound to `key` in a decoded dictionary, when it fits a
/// `usize`.
pub fn get_usize_from_dict(bcode: &BTypes, key: &str) -> (r: Option<usize>)
    ensures
        match r {
            Some(x) => bcode@ matches BValue::Dict(dv) && (assoc(dv, key.spec_bytes()) matches
                Some(BValue::Int(i)) && x == i),
            None => !(bcode@ matches BValue::Dict(dv) && assoc(dv, key.spec_bytes()) matches Some(
                v,
            ) && v matches BValue::Int(i) && 0 <= i <= usize::MAX),
        },
{
    match bcode {
        BTypes::DICT(d) => match dict_get(d, key.as_bytes()) {
            Some(BTypes::INT(i)) => {
                let i = *i;
                if i < 0 || (i as u64) > (usize::MAX as u64) {
                    return None;
                }
                Some(i as usize)
            },
            Some(bt) => {
                proof {
                    crate::bencode::lemma_bval_variant(*bt);
                }
                None
            },
            None => None,
        },
        _ => {
            proof {
                crate::bencode::lemma_bval_variant(*bcode);
            }
            None
        },
    }
}

/// A dictionary vector and its model have one entry per pair.
pub proof fn lemma_bval_pairs_len(d: Seq<(Vec<u8>, BTypes)>)
    ensures
        bval_pairs(d).len() == d.len(),
    decreases d.len(),
{
    if d.len() > 0 {
        lemma_bval_pairs_len(d.drop_last());
    }
}

/// A list vector and its model have one element per entry.
pub proof fn lemma_bval_seq_len(l: Seq<BTypes>)
    ensures
        crate::bencode::bval_seq(l).len() == l.len(),
    decreases l.len(),
{
    if l.len() > 0 {
        lemma_bval_seq_len(l.drop_last());
    }
}

/// The model of entry `i` of a dictionary vector.
pub proof fn lemma_bval_pairs_index(d: Seq<(Vec<u8>, BTypes)>, i: int)
    requires
        0 <= i < d.len(),
    ensures
        bval_pairs(d).len() == d.len(),
        bval_pairs(d)[i] == (d[i].0@, crate::bencode::bval(d[i].1)),
    decreases d.len(),
{
    lemma_bval_pairs_len(d);
    if d.len() > 0 {
        if i < d.len() - 1 {
            lemma_bval_pairs_index(d.drop_last(), i);
            assert(d.drop_last()[i] == d[i]);
        }
    }
}

/// The model of element `i` of a list vector.
pub proof fn lemma_bval_seq_index(l: Seq<BTypes>, i: int)
    requires
        0 <= i < l.len(),
    ensures
        crate::bencode::bval_seq(l).len() == l.len(),
        crate::bencode::bval_seq(l)[i] == crate::bencode::bval(l[i]),
    decreases l.len(),
{
    lemma_bval_seq_len(l);
    if l.len() > 0 {
        if i < l.len() - 1 {
            lemma_bval_seq_index(l.drop_last(), i);
            assert(l.drop_last()[i] == l[i]);
        }
    }
}

} // verus!
