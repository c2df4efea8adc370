//! Bencode: the self-describing binary serialization format that carries
//! metainfo files, tracker replies and DHT messages.
//!
//! A value is one of four kinds: byte-string, signed 64-bit integer, list,
//! or dictionary with byte-string keys held in ascending byte order.  The
//! encoder is canonical; the decoder accepts any input the grammar allows
//! and is proved to invert the encoder on every well-formed value.
use vstd::prelude::*;

verus! {

use vstd::string::StringSliceAdditionalSpecFns;
use vstd::string::StrSliceExecFns;

/// A decoded bencode value.
///
/// Dictionary entries are kept as a vector of (key, value) pairs; a decoded
/// dictionary always has its keys in strictly ascending byte order, which
/// makes re-encoding canonical.
#[derive(Debug, PartialEq, Eq)]
pub enum BTypes {
    BSTRING(Vec<u8>),
    INT(i64),
    LIST(Vec<BTypes>),
    DICT(Vec<(Vec<u8>, BTypes)>),
}

/// The mathematical model of a bencode value.
pub enum BValue {
    Str(Seq<u8>),
    Int(int),
    List(Seq<BValue>),
    Dict(Seq<(Seq<u8>, BValue)>),
}

/// Why a decode failed: the input ended (or broke the grammar), or a
/// numeric field did not parse as a 64-bit integer.
#[derive(Debug, PartialEq, Eq, Structural)]
pub enum DecodeError {
    EOF,
    IntParseError,
}

pub open spec fn bval(v: BTypes) -> BValue
    decreases v, 0int,
{
    match v {
        BTypes::BSTRING(s) => BValue::Str(s@),
        BTypes::INT(i) => BValue::Int(i as int),
        BTypes::LIST(l) => BValue::List(bval_seq(l@)),
        BTypes::DICT(d) => BValue::Dict(bval_pairs(d@)),
    }
}

pub open spec fn bval_seq(l: Seq<BTypes>) -> Seq<BValue>
    decreases l, 1int,
{
    if l.len() == 0 {
        Seq::empty()
    } else {
        bval_seq(l.drop_last()).push(bval(l.last()))
    }
}

pub open spec fn bval_pairs(d: Seq<(Vec<u8>, BTypes)>) -> Seq<(Seq<u8>, BValue)>
    decreases d, 1int,
{
    if d.len() == 0 {
        Seq::empty()
    } else {
        bval_pairs(d.drop_last()).push((d.last().0@, bval(d.last().1)))
    }
}

/// A value and its model are the same kind.
pub proof fn lemma_bval_variant(x: BTypes)
    ensures
        bval(x) is Dict <==> x is DICT,
        bval(x) is Str <==> x is BSTRING,
        bval(x) is Int <==> x is INT,
        bval(x) is List <==> x is LIST,
{
    match x {
        BTypes::BSTRING(_) => {},
        BTypes::INT(_) => {},
        BTypes::LIST(_) => {},
        BTypes::DICT(_) => {},
    }
}

impl View for BTypes {
    type V = BValue;

    open spec fn view(&self) -> BValue {
        bval(*self)
    }
}

/// The ASCII decimal digits of `n`, most significant first.
pub open spec fn dec_rec(n: nat) -> Seq<u8>
    decreases n,
{
    if n < 10 {
        seq![(48 + n) as u8]
    } else {
        dec_rec(n / 10).push((48 + n % 10) as u8)
    }
}

/// The ASCII rendering of a signed integer: a minus sign for negative
/// values, then the decimal digits.
pub open spec fn int_bytes(i: int) -> Seq<u8> {
    if i < 0 {
        seq![45u8] + dec_rec((-i) as nat)
    } else {
        dec_rec(i as nat)
    }
}

/// The encoding of a byte-string: `<decimal length>:<bytes>`.
pub open spec fn str_enc(s: Seq<u8>) -> Seq<u8> {
    dec_rec(s.len()) + seq![58u8] + s
}

/// The canonical encoding of a bencode value.
pub open spec fn benc(v: BValue) -> Seq<u8>
    decreases v, 0int,
{
    match v {
        BValue::Str(s) => str_enc(s),
        BValue::Int(i) => seq![105u8] + int_bytes(i) + seq![101u8],
        BValue::List(l) => seq![108u8] + benc_seq(l) + seq![101u8],
        BValue::Dict(d) => seq![100u8] + benc_pairs(d) + seq![101u8],
    }
}

pub open spec fn benc_seq(l: Seq<BValue>) -> Seq<u8>
    decreases l, 1int,
{
    if l.len() == 0 {
        Seq::empty()
    } else {
        benc(l.first()) + benc_seq(l.drop_first())
    }
}

pub open spec fn benc_pairs(d: Seq<(Seq<u8>, BValue)>) -> Seq<u8>
    decreases d, 1int,
{
    if d.len() == 0 {
        Seq::empty()
    } else {
        str_enc(d.first().0) + benc(d.first().1) + benc_pairs(d.drop_first())
    }
}

/// Strict lexicographic byte order, the order bencode demands of
/// dictionary keys.
pub open spec fn lex_lt(a: Seq<u8>, b: Seq<u8>) -> bool
    decreases a.len(),
{
    if b.len() == 0 {
        false
    } else if a.len() == 0 {
        true
    } else if a.first() < b.first() {
        true
    } else if a.first() > b.first() {
        false
    } else {
        lex_lt(a.drop_first(), b.drop_first())
    }
}

/// A well-formed value: every integer fits in 64 bits, every byte-string
/// is of representable length, and every dictionary has its keys in
/// strictly ascending byte order.  Every value built from `Vec`s and
/// `i64`s by decoding satisfies this.
pub open spec fn wf(v: BValue) -> bool
    decreases v, 0int,
{
    match v {
        BValue::Str(s) => s.len() <= 0x7FFF_FFFF_FFFF_FFFF,
        BValue::Int(i) => -0x8000_0000_0000_0000 <= i <= 0x7FFF_FFFF_FFFF_FFFF,
        BValue::List(l) => wf_seq(l),
        BValue::Dict(d) => wf_pairs(d) && sorted_keys(d),
    }
}

pub open spec fn wf_seq(l: Seq<BValue>) -> bool
    decreases l, 1int,
{
    l.len() == 0 || (wf(l.first()) && wf_seq(l.drop_first()))
}

pub open spec fn wf_pairs(d: Seq<(Seq<u8>, BValue)>) -> bool
    decreases d, 1int,
{
    d.len() == 0 || (d.first().0.len() <= 0x7FFF_FFFF_FFFF_FFFF && wf(d.first().1) && wf_pairs(
        d.drop_first(),
    ))
}

pub open spec fn sorted_keys(d: Seq<(Seq<u8>, BValue)>) -> bool {
    forall|i: int| 0 <= i < d.len() - 1 ==> lex_lt(#[trigger] d[i].0, d[i + 1].0)
}

/// The decimal digits of `n`.
pub fn dec_u64(n: u64) -> (r: Vec<u8>)
    ensures
        r@ == dec_rec(n as nat),
    decreases n,
{
    if n < 10 {
        let mut v: Vec<u8> = Vec::new();
        v.push(48 + n as u8);
        v
    } else {
        let mut v = dec_u64(n / 10);
        v.push(48 + (n % 10) as u8);
        v
    }
}

/// Encode an integer as `i<decimal>e`.
pub fn ser_int(i: i64) -> (r: Vec<u8>)
    ensures
        r@ == seq![105u8] + int_bytes(i as int) + seq![101u8],
{
    let mut acc: Vec<u8> = Vec::new();
    acc.push(105);
    if i < 0 {
        acc.push(45);
        let m: u64 = (-(i as i128)) as u64;
        let mut digits = dec_u64(m);
        acc.append(&mut digits);
    } else {
        let mut digits = dec_u64(i as u64);
        acc.append(&mut digits);
    }
    acc.push(101);
    assert(acc@ =~= seq![105u8] + int_bytes(i as int) + seq![101u8]);
    acc
}

/// Encode a byte-string as `<decimal length>:<bytes>`.
pub fn ser_bstring(bs: &Vec<u8>) -> (r: Vec<u8>)
    ensures
        r@ == str_enc(bs@),
{
    let mut acc = dec_u64(bs.len() as u64);
    acc.push(58);
    acc.extend_from_slice(bs.as_slice());
    assert(acc@ =~= str_enc(bs@));
    acc
}

/// Encode the UTF-8 bytes of a string as a bencode byte-string.
pub fn ser_string(s: &String) -> (r: Vec<u8>)
    ensures
        r@ == str_enc(vstd::utf8::encode_utf8(s@)),
{
    let bytes = s.as_str().as_bytes_vec();
    ser_bstring(&bytes)
}

/// Encode any value canonically.
pub fn ser(de: &BTypes) -> (r: Vec<u8>)
    ensures
        r@ == benc(de@),
    decreases de,
{
    match de {
        BTypes::INT(i) => ser_int(*i),
        BTypes::BSTRING(bs) => ser_bstring(bs),
        BTypes::LIST(l) => ser_list(l),
        BTypes::DICT(d) => ser_dict(d),
    }
}

/// Encode a list as `l<children>e`.
pub fn ser_list(l: &Vec<BTypes>) -> (r: Vec<u8>)
    ensures
        r@ == seq![108u8] + benc_seq(bval_seq(l@)) + seq![101u8],
    decreases l,
{
    let mut acc: Vec<u8> = Vec::new();
    acc.push(108);
    let mut k: usize = 0;
    while k < l.len()
        invariant
            k <= l.len(),
            acc@ == seq![108u8] + benc_seq(bval_seq(l@.take(k as int))),
        decreases l@.len() - k,
    {
        proof {
            assert(decreases_to!(*l => l@[k as int]));
        }
        let mut child = ser(&l[k]);
        acc.append(&mut child);
        proof {
            lemma_bval_seq_take(l@, k as int);
            lemma_benc_seq_push(bval_seq(l@.take(k as int)), bval(l@[k as int]));
        }
        k = k + 1;
    }
    acc.push(101);
    proof {
        assert(l@.take(l@.len() as int) =~= l@);
    }
    acc
}

/// Encode a dictionary as `d<key value ...>e`, keys in the stored order.
pub fn ser_dict(d: &Vec<(Vec<u8>, BTypes)>) -> (r: Vec<u8>)
    ensures
        r@ == seq![100u8] + benc_pairs(bval_pairs(d@)) + seq![101u8],
    decreases d,
{
    let mut acc: Vec<u8> = Vec::new();
    acc.push(100);
    let mut k: usize = 0;
    while k < d.len()
        invariant
            k <= d.len(),
            acc@ == seq![100u8] + benc_pairs(bval_pairs(d@.take(k as int))),
        decreases d@.len() - k,
    {
        let mut key = ser_bstring(&d[k].0);
        acc.append(&mut key);
        proof {
            assert(decreases_to!(*d => d@[k as int].1));
        }
        let mut child = ser(&d[k].1);
        acc.append(&mut child);
        proof {
            lemma_bval_pairs_take(d@, k as int);
            lemma_benc_pairs_push(
                bval_pairs(d@.take(k as int)),
                (d@[k as int].0@, bval(d@[k as int].1)),
            );
        }
        k = k + 1;
    }
    acc.push(101);
    proof {
        assert(d@.take(d@.len() as int) =~= d@);
    }
    acc
}

proof fn lemma_bval_seq_take(l: Seq<BTypes>, k: int)
    requires
        0 <= k < l.len(),
    ensures
        bval_seq(l.take(k + 1)) == bval_seq(l.take(k)).push(bval(l[k])),
{
    assert(l.take(k + 1).drop_last() =~= l.take(k));
    assert(l.take(k + 1).last() == l[k]);
}

proof fn lemma_bval_pairs_take(d: Seq<(Vec<u8>, BTypes)>, k: int)
    requires
        0 <= k < d.len(),
    ensures
        bval_pairs(d.take(k + 1)) == bval_pairs(d.take(k)).push((d[k].0@, bval(d[k].1))),
{
    assert(d.take(k + 1).drop_last() =~= d.take(k));
    assert(d.take(k + 1).last() == d[k]);
}

/// Appending one element to a list appends its encoding to the list body.
proof fn lemma_benc_seq_push(l: Seq<BValue>, v: BValue)
    ensures
        benc_seq(l.push(v)) == benc_seq(l) + benc(v),
    decreases l.len(),
{
    assert(l.push(v).first() == if l.len() == 0 { v } else { l.first() });
    if l.len() == 0 {
        assert(l.push(v).drop_first() =~= Seq::<BValue>::empty());
        assert(benc_seq(Seq::<BValue>::empty()) == Seq::<u8>::empty());
        assert(benc_seq(l) == Seq::<u8>::empty());
        assert(benc_seq(l.push(v)) == benc(v) + benc_seq(Seq::<BValue>::empty()));
        assert(benc_seq(l.push(v)) =~= benc_seq(l) + benc(v));
    } else {
        assert(l.push(v).drop_first() =~= l.drop_first().push(v));
        lemma_benc_seq_push(l.drop_first(), v);
        assert(benc_seq(l.push(v)) =~= benc_seq(l) + benc(v));
    }
}

proof fn lemma_benc_pairs_push(d: Seq<(Seq<u8>, BValue)>, p: (Seq<u8>, BValue))
    ensures
        benc_pairs(d.push(p)) == benc_pairs(d) + str_enc(p.0) + benc(p.1),
    decreases d.len(),
{
    assert(d.push(p).first() == if d.len() == 0 { p } else { d.first() });
    if d.len() == 0 {
        assert(d.push(p).drop_first() =~= Seq::<(Seq<u8>, BValue)>::empty());
        assert(benc_pairs(Seq::<(Seq<u8>, BValue)>::empty()) == Seq::<u8>::empty());
        assert(benc_pairs(d) == Seq::<u8>::empty());
        assert(benc_pairs(d.push(p)) == str_enc(p.0) + benc(p.1) + benc_pairs(
            Seq::<(Seq<u8>, BValue)>::empty(),
        ));
        assert(benc_pairs(d.push(p)) =~= benc_pairs(d) + str_enc(p.0) + benc(p.1));
    } else {
        assert(d.push(p).drop_first() =~= d.drop_first().push(p));
        lemma_benc_pairs_push(d.drop_first(), p);
        assert(benc_pairs(d.push(p)) =~= benc_pairs(d) + str_enc(p.0) + benc(p.1));
    }
}

pub open spec fn is_digit(b: u8) -> bool {
    48 <= b <= 57
}

pub open spec fn all_digits(s: Seq<u8>) -> bool {
    forall|i: int| 0 <= i < s.len() ==> is_digit(#[trigger] s[i])
}

/// The number the digit string denotes, most significant digit first.
pub open spec fn digits_val(s: Seq<u8>) -> int
    decreases s.len(),
{
    if s.len() == 0 {
        0
    } else {
        digits_val(s.drop_last()) * 10 + (s.last() - 48)
    }
}

/// What `str::parse::<i64>` accepts: an optional sign, then at least one
/// digit, denoting a value that fits in an `i64`.
pub open spec fn parse_i64(s: Seq<u8>) -> Option<i64> {
    let neg = s.len() > 0 && s[0] == 45;
    let mag = if s.len() > 0 && (s[0] == 45 || s[0] == 43) {
        s.drop_first()
    } else {
        s
    };
    if mag.len() == 0 || !all_digits(mag) {
        None
    } else if neg {
        if digits_val(mag) <= 0x8000_0000_0000_0000 {
            Some((-digits_val(mag)) as i64)
        } else {
            None
        }
    } else {
        if digits_val(mag) <= 0x7FFF_FFFF_FFFF_FFFF {
            Some(digits_val(mag) as i64)
        } else {
            None
        }
    }
}

/// The first position at or after `pos` holding byte `b`, or -1.
pub open spec fn find_byte(data: Seq<u8>, pos: int, b: u8) -> int
    decreases data.len() - pos,
{
    if pos < 0 || pos >= data.len() {
        -1
    } else if data[pos] == b {
        pos
    } else {
        find_byte(data, pos + 1, b)
    }
}

/// Parse `<decimal>e` starting at `pos` (the `i` is already consumed).
pub open spec fn bp_int(data: Seq<u8>, pos: int) -> Result<(BValue, int), DecodeError> {
    let j = find_byte(data, pos, 101);
    if j < 0 {
        Err(DecodeError::EOF)
    } else {
        match parse_i64(data.subrange(pos, j)) {
            Some(v) => Ok((BValue::Int(v as int), j + 1)),
            None => Err(DecodeError::IntParseError),
        }
    }
}

/// Parse `<decimal length>:<bytes>` whose first digit stands at `pos`.
pub open spec fn bp_str(data: Seq<u8>, pos: int) -> Result<(BValue, int), DecodeError> {
    let j = find_byte(data, pos, 58);
    if j < 0 {
        Err(DecodeError::EOF)
    } else {
        match parse_i64(data.subrange(pos, j)) {
            None => Err(DecodeError::IntParseError),
            Some(len) => if len < 0 {
                Err(DecodeError::IntParseError)
            } else if j + 1 + len <= data.len() {
                Ok((BValue::Str(data.subrange(j + 1, j + 1 + len)), j + 1 + len))
            } else {
                Err(DecodeError::EOF)
            },
        }
    }
}

/// Parse one value whose first byte stands at `pos`.
pub open spec fn bp_value(data: Seq<u8>, pos: int) -> Result<(BValue, int), DecodeError>
    decreases data.len() - pos, 0int,
{
    if pos < 0 || pos >= data.len() {
        Err(DecodeError::EOF)
    } else {
        let c = data[pos];
        if c == 105 {
            bp_int(data, pos + 1)
        } else if c == 108 {
            match bp_items(data, pos + 1) {
                Ok((l, end)) => Ok((BValue::List(l), end)),
                Err(e) => Err(e),
            }
        } else if c == 100 {
            match bp_pairs(data, pos + 1, Option::None) {
                Ok((d, end)) => Ok((BValue::Dict(d), end)),
                Err(e) => Err(e),
            }
        } else if is_digit(c) {
            bp_str(data, pos)
        } else {
            Err(DecodeError::EOF)
        }
    }
}

/// Parse list elements up to the closing `e`.
pub open spec fn bp_items(data: Seq<u8>, pos: int) -> Result<(Seq<BValue>, int), DecodeError>
    decreases data.len() - pos, 1int,
{
    if pos < 0 || pos >= data.len() {
        Err(DecodeError::EOF)
    } else if data[pos] == 101 {
        Ok((Seq::empty(), pos + 1))
    } else {
        match bp_value(data, pos) {
            Err(e) => Err(e),
            Ok((v, p2)) => if pos < p2 <= data.len() {
                match bp_items(data, p2) {
                    Err(e) => Err(e),
                    Ok((rest, end)) => Ok((seq![v] + rest, end)),
                }
            } else {
                Err(DecodeError::EOF)
            },
        }
    }
}

/// Parse dictionary entries up to the closing `e`.  Every key must be a
/// byte-string lexicographically above the previous one, so a decoded
/// dictionary is sorted and free of duplicate keys.
pub open spec fn bp_pairs(data: Seq<u8>, pos: int, prev: Option<Seq<u8>>) -> Result<
    (Seq<(Seq<u8>, BValue)>, int),
    DecodeError,
>
    decreases data.len() - pos, 1int,
{
    if pos < 0 || pos >= data.len() {
        Err(DecodeError::EOF)
    } else if data[pos] == 101 {
        Ok((Seq::empty(), pos + 1))
    } else {
        match bp_value(data, pos) {
            Err(e) => Err(e),
            Ok((kv, p2)) => match kv {
                BValue::Str(k) => if (match prev {
                    Option::None => true,
                    Option::Some(k0) => lex_lt(k0, k),
                }) {
                    if pos < p2 <= data.len() {
                        match bp_value(data, p2) {
                            Err(e) => Err(e),
                            Ok((v, p3)) => if p2 < p3 <= data.len() {
                                match bp_pairs(data, p3, Option::Some(k)) {
                                    Err(e) => Err(e),
                                    Ok((rest, end)) => Ok((seq![(k, v)] + rest, end)),
                                }
                            } else {
                                Err(DecodeError::EOF)
                            },
                        }
                    } else {
                        Err(DecodeError::EOF)
                    }
                } else {
                    Err(DecodeError::EOF)
                },
                _ => Err(DecodeError::EOF),
            },
        }
    }
}

proof fn lemma_digits_val_take_step(s: Seq<u8>, k: int)
    requires
        0 <= k < s.len(),
    ensures
        digits_val(s.take(k + 1)) == digits_val(s.take(k)) * 10 + (s[k] - 48),
{
    assert(s.take(k + 1).drop_last() =~= s.take(k));
    assert(s.take(k + 1).last() == s[k]);
}

proof fn lemma_digits_val_nonneg(s: Seq<u8>)
    requires
        all_digits(s),
    ensures
        digits_val(s) >= 0,
    decreases s.len(),
{
    if s.len() > 0 {
        assert(forall|i: int| 0 <= i < s.drop_last().len() ==> s.drop_last()[i] == s[i]);
        lemma_digits_val_nonneg(s.drop_last());
    }
}

/// Once a digit prefix already exceeds `x`, the whole string does too.
proof fn lemma_digits_val_prefix_exceeds(s: Seq<u8>, k: int, x: int)
    requires
        all_digits(s),
        0 <= k <= s.len(),
        digits_val(s.take(k)) > x,
        x >= 0,
    ensures
        digits_val(s) > x,
    decreases s.len() - k,
{
    if k == s.len() {
        assert(s.take(k) =~= s);
    } else {
        lemma_digits_val_take_step(s, k);
        lemma_digits_val_prefix_exceeds(s, k + 1, x);
    }
}

/// Parse an ASCII rendering of a signed 64-bit integer, as
/// `str::parse::<i64>` would.
pub fn string_to_int(init: &[u8]) -> (r: Result<i64, DecodeError>)
    ensures
        match parse_i64(init@) {
            Some(v) => r == Ok::<i64, DecodeError>(v),
            None => r == Err::<i64, DecodeError>(DecodeError::IntParseError),
        },
{
    let n = init.len();
    let neg = n > 0 && init[0] == 45;
    let start: usize = if n > 0 && (init[0] == 45 || init[0] == 43) {
        1
    } else {
        0
    };
    let ghost mag = init@.subrange(start as int, init@.len() as int);
    proof {
        if start == 1 {
            assert(mag =~= init@.drop_first());
        } else {
            assert(mag =~= init@);
        }
    }
    if n == start {
        return Err(DecodeError::IntParseError);
    }
    let limit: u64 = if neg {
        0x8000_0000_0000_0000
    } else {
        0x7FFF_FFFF_FFFF_FFFF
    };
    let mut acc: u64 = 0;
    let mut i = start;
    while i < n
        invariant
            n == init@.len(),
            start <= i <= n,
            start == 1 <==> (init@.len() > 0 && (init@[0] == 45 || init@[0] == 43)),
            start == 0 || start == 1,
            neg == (init@.len() > 0 && init@[0] == 45),
            mag == init@.subrange(start as int, init@.len() as int),
            mag == (if init@.len() > 0 && (init@[0] == 45 || init@[0] == 43) {
                init@.drop_first()
            } else {
                init@
            }),
            all_digits(mag.take(i - start)),
            acc == digits_val(mag.take(i - start)),
            acc <= limit,
            limit == (if neg {
                0x8000_0000_0000_0000u64
            } else {
                0x7FFF_FFFF_FFFF_FFFFu64
            }),
        decreases n - i,
    {
        let c = init[i];
        if !(48 <= c && c <= 57) {
            proof {
                assert(mag[i - start] == c);
                assert(!all_digits(mag));
            }
            return Err(DecodeError::IntParseError);
        }
        let d = (c - 48) as u64;
        if acc > (limit - d) / 10 {
            proof {
                assert(acc * 10 + d > limit) by (nonlinear_arith)
                    requires
                        acc > (limit - d) / 10,
                        d <= limit,
                        (limit - d) / 10 >= 0,
                        limit - d == ((limit - d) / 10) * 10 + ((limit - d) % 10),
                        0 <= (limit - d) % 10 <= 9,
                ;
                if all_digits(mag) {
                    lemma_digits_val_take_step(mag, i - start);
                    assert(mag[i - start] == c);
                    assert(digits_val(mag.take(i - start + 1)) == acc * 10 + d);
                    lemma_digits_val_prefix_exceeds(mag, i - start + 1, limit as int);
                }
            }
            return Err(DecodeError::IntParseError);
        }
        proof {
            lemma_digits_val_take_step(mag, i - start);
            assert(mag[i - start] == c);
            assert((limit - d) / 10 * 10 + (limit - d) % 10 == limit - d);
            assert(acc * 10 + d <= limit) by (nonlinear_arith)
                requires
                    acc <= (limit - d) / 10,
                    acc >= 0,
                    d >= 0,
                    (limit - d) / 10 * 10 + (limit - d) % 10 == limit - d,
                    (limit - d) % 10 >= 0,
            ;
        }
        acc = acc * 10 + d;
        i = i + 1;
    }
    proof {
        assert(mag.take(i - start) =~= mag);
    }
    if neg {
        if acc == 0x8000_0000_0000_0000 {
            Ok(i64::MIN)
        } else {
            Ok(-(acc as i64))
        }
    } else {
        Ok(acc as i64)
    }
}

/// Scan for the first occurrence of `b` at or after `pos`.
fn find_from(data: &[u8], pos: usize, b: u8) -> (r: Option<usize>)
    requires
        pos <= data@.len(),
    ensures
        match r {
            Some(j) => find_byte(data@, pos as int, b) == j as int && pos <= j < data@.len()
                && data@[j as int] == b,
            None => find_byte(data@, pos as int, b) == -1,
        },
{
    let mut p = pos;
    while p < data.len()
        invariant
            pos <= p <= data@.len(),
            find_byte(data@, pos as int, b) == find_byte(data@, p as int, b),
        decreases data@.len() - p,
    {
        if data[p] == b {
            return Some(p);
        }
        p = p + 1;
    }
    None
}

/// Parse the body of an integer: digits up to the closing `e`.
pub fn bcode_integer(data: &[u8], pos: usize) -> (r: Result<(i64, usize), DecodeError>)
    requires
        pos <= data@.len(),
    ensures
        match r {
            Ok((v, end)) => bp_int(data@, pos as int) == Ok::<(BValue, int), DecodeError>(
                (BValue::Int(v as int), end as int),
            ) && pos < end <= data@.len(),
            Err(e) => bp_int(data@, pos as int) == Err::<(BValue, int), DecodeError>(e),
        },
{
    let n = data.len();
    match find_from(data, pos, 101) {
        None => Err(DecodeError::EOF),
        Some(j) => {
            let body = vstd::slice::slice_subrange(data, pos, j);
            match string_to_int(body) {
                Ok(v) => Ok((v, j + 1)),
                Err(e) => Err(e),
            }
        },
    }
}

/// Parse a byte-string whose first length digit stands at `pos`.
pub fn bcode_string(data: &[u8], pos: usize) -> (r: Result<(Vec<u8>, usize), DecodeError>)
    requires
        pos <= data@.len(),
    ensures
        match r {
            Ok((s, end)) => bp_str(data@, pos as int) == Ok::<(BValue, int), DecodeError>(
                (BValue::Str(s@), end as int),
            ) && pos < end <= data@.len(),
            Err(e) => bp_str(data@, pos as int) == Err::<(BValue, int), DecodeError>(e),
        },
{
    match find_from(data, pos, 58) {
        None => Err(DecodeError::EOF),
        Some(j) => {
            let lenb = vstd::slice::slice_subrange(data, pos, j);
            match string_to_int(lenb) {
                Err(e) => Err(e),
                Ok(l) => {
                    if l < 0 {
                        return Err(DecodeError::IntParseError);
                    }
                    let rem = data.len() - (j + 1);
                    if (l as u64) <= (rem as u64) {
                        let ln = l as usize;
                        let s = vstd::slice::slice_to_vec(
                            vstd::slice::slice_subrange(data, j + 1, j + 1 + ln),
                        );
                        Ok((s, j + 1 + ln))
                    } else {
                        Err(DecodeError::EOF)
                    }
                },
            }
        },
    }
}

/// The key of the last entry decoded so far, if any.
pub open spec fn prev_key(items: Seq<(Vec<u8>, BTypes)>) -> Option<Seq<u8>> {
    if items.len() == 0 {
        Option::None
    } else {
        Option::Some(items.last().0@)
    }
}

/// Strict lexicographic byte-order test.
pub fn lex_less(a: &Vec<u8>, b: &Vec<u8>) -> (r: bool)
    ensures
        r == lex_lt(a@, b@),
{
    let mut i: usize = 0;
    proof {
        assert(a@.skip(0) =~= a@);
        assert(b@.skip(0) =~= b@);
    }
    loop
        invariant
            i <= a@.len(),
            i <= b@.len(),
            lex_lt(a@, b@) == lex_lt(a@.skip(i as int), b@.skip(i as int)),
        decreases a@.len() - i,
    {
        if i == b.len() {
            proof {
                assert(b@.skip(i as int) =~= Seq::<u8>::empty());
            }
            return false;
        }
        if i == a.len() {
            proof {
                assert(a@.skip(i as int) =~= Seq::<u8>::empty());
                assert(b@.skip(i as int).len() > 0);
            }
            return true;
        }
        let x = a[i];
        let y = b[i];
        proof {
            assert(a@.skip(i as int).first() == a@[i as int]);
            assert(b@.skip(i as int).first() == b@[i as int]);
        }
        if x < y {
            return true;
        }
        if x > y {
            return false;
        }
        proof {
            assert(a@.skip(i as int).drop_first() =~= a@.skip(i + 1));
            assert(b@.skip(i as int).drop_first() =~= b@.skip(i + 1));
        }
        i = i + 1;
    }
}

/// Decode one value whose first byte stands at `pos`.
pub fn decode_at(data: &[u8], pos: usize) -> (r: Result<(BTypes, usize), DecodeError>)
    requires
        pos <= data@.len(),
    ensures
        match r {
            Ok((v, end)) => bp_value(data@, pos as int) == Ok::<(BValue, int), DecodeError>(
                (v@, end as int),
            ) && pos < end <= data@.len(),
            Err(e) => bp_value(data@, pos as int) == Err::<(BValue, int), DecodeError>(e),
        },
    decreases data@.len() - pos, 0int,
{
    if pos >= data.len() {
        return Err(DecodeError::EOF);
    }
    let anchor = data[pos];
    handle_data_type(data, anchor, pos + 1)
}

/// Decode the value selected by the already-consumed kind byte `anchor`;
/// `pos` stands just after it.
pub fn handle_data_type(data: &[u8], anchor: u8, pos: usize) -> (r: Result<
    (BTypes, usize),
    DecodeError,
>)
    requires
        1 <= pos <= data@.len(),
        data@[pos - 1] == anchor,
    ensures
        match r {
            Ok((v, end)) => bp_value(data@, pos - 1) == Ok::<(BValue, int), DecodeError>(
                (v@, end as int),
            ) && pos - 1 < end <= data@.len(),
            Err(e) => bp_value(data@, pos - 1) == Err::<(BValue, int), DecodeError>(e),
        },
    decreases data@.len() - pos, 2int,
{
    if anchor == 105 {
        match bcode_integer(data, pos) {
            Ok((v, end)) => Ok((BTypes::INT(v), end)),
            Err(e) => Err(e),
        }
    } else if anchor == 108 {
        match bcode_list(data, pos) {
            Ok((l, end)) => Ok((BTypes::LIST(l), end)),
            Err(e) => Err(e),
        }
    } else if anchor == 100 {
        match bcode_dict(data, pos) {
            Ok((d, end)) => Ok((BTypes::DICT(d), end)),
            Err(e) => Err(e),
        }
    } else if 48 <= anchor && anchor <= 57 {
        match bcode_string(data, pos - 1) {
            Ok((s, end)) => Ok((BTypes::BSTRING(s), end)),
            Err(e) => Err(e),
        }
    } else {
        Err(DecodeError::EOF)
    }
}

/// Decode list elements up to the closing `e`.
pub fn bcode_list(data: &[u8], pos: usize) -> (r: Result<(Vec<BTypes>, usize), DecodeError>)
    requires
        pos <= data@.len(),
    ensures
        match r {
            Ok((l, end)) => bp_items(data@, pos as int) == Ok::<(Seq<BValue>, int), DecodeError>(
                (bval_seq(l@), end as int),
            ) && pos < end <= data@.len(),
            Err(e) => bp_items(data@, pos as int) == Err::<(Seq<BValue>, int), DecodeError>(e),
        },
    decreases data@.len() - pos, 1int,
{
    let mut items: Vec<BTypes> = Vec::new();
    let mut p = pos;
    loop
        invariant
            pos <= p <= data@.len(),
            match bp_items(data@, p as int) {
                Ok((rest, end)) => bp_items(data@, pos as int) == Ok::<
                    (Seq<BValue>, int),
                    DecodeError,
                >((bval_seq(items@) + rest, end)),
                Err(e) => bp_items(data@, pos as int) == Err::<(Seq<BValue>, int), DecodeError>(e),
            },
        decreases data@.len() - p,
    {
        if p >= data.len() {
            return Err(DecodeError::EOF);
        }
        if data[p] == 101 {
            proof {
                assert(bval_seq(items@) + Seq::<BValue>::empty() =~= bval_seq(items@));
            }
            return Ok((items, p + 1));
        }
        match decode_at(data, p) {
            Err(e) => {
                return Err(e);
            },
            Ok((v, p2)) => {
                proof {
                    let ghost old_items = items@;
                    match bp_items(data@, p2 as int) {
                        Ok((rest, end)) => {
                            assert(bp_items(data@, p as int) == Ok::<
                                (Seq<BValue>, int),
                                DecodeError,
                            >((seq![v@] + rest, end)));
                            assert(bval_seq(old_items) + (seq![v@] + rest) =~= bval_seq(
                                old_items,
                            ).push(v@) + rest);
                            assert(old_items.push(v).drop_last() =~= old_items);
                            assert(old_items.push(v).last() == v);
                            assert(bval_seq(old_items.push(v)) == bval_seq(old_items).push(v@));
                        },
                        Err(e) => {
                            assert(bp_items(data@, p as int) == Err::<
                                (Seq<BValue>, int),
                                DecodeError,
                            >(e));
                        },
                    }
                }
                items.push(v);
                p = p2;
            },
        }
    }
}

/// Decode dictionary entries up to the closing `e`, holding keys to
/// strictly ascending byte order.
pub fn bcode_dict(data: &[u8], pos: usize) -> (r: Result<
    (Vec<(Vec<u8>, BTypes)>, usize),
    DecodeError,
>)
    requires
        pos <= data@.len(),
    ensures
        match r {
            Ok((d, end)) => bp_pairs(data@, pos as int, Option::None) == Ok::<
                (Seq<(Seq<u8>, BValue)>, int),
                DecodeError,
            >((bval_pairs(d@), end as int)) && pos < end <= data@.len(),
            Err(e) => bp_pairs(data@, pos as int, Option::None) == Err::<
                (Seq<(Seq<u8>, BValue)>, int),
                DecodeError,
            >(e),
        },
    decreases data@.len() - pos, 1int,
{
    let mut items: Vec<(Vec<u8>, BTypes)> = Vec::new();
    let mut p = pos;
    loop
        invariant
            pos <= p <= data@.len(),
            match bp_pairs(data@, p as int, prev_key(items@)) {
                Ok((rest, end)) => bp_pairs(data@, pos as int, Option::None) == Ok::<
                    (Seq<(Seq<u8>, BValue)>, int),
                    DecodeError,
                >((bval_pairs(items@) + rest, end)),
                Err(e) => bp_pairs(data@, pos as int, Option::None) == Err::<
                    (Seq<(Seq<u8>, BValue)>, int),
                    DecodeError,
                >(e),
            },
        decreases data@.len() - p,
    {
        if p >= data.len() {
            return Err(DecodeError::EOF);
        }
        if data[p] == 101 {
            proof {
                assert(bval_pairs(items@) + Seq::<(Seq<u8>, BValue)>::empty() =~= bval_pairs(
                    items@,
                ));
            }
            return Ok((items, p + 1));
        }
        let (kv, p2) = match decode_at(data, p) {
            Err(e) => {
                return Err(e);
            },
            Ok(x) => x,
        };
        let k = match kv {
            BTypes::BSTRING(k) => k,
            _ => {
                return Err(DecodeError::EOF);
            },
        };
        if items.len() > 0 {
            let ordered = lex_less(&items[items.len() - 1].0, &k);
            if !ordered {
                return Err(DecodeError::EOF);
            }
        }
        match decode_at(data, p2) {
            Err(e) => {
                return Err(e);
            },
            Ok((v, p3)) => {
                proof {
                    let ghost old_items = items@;
                    match bp_pairs(data@, p3 as int, Option::Some(k@)) {
                        Ok((rest, end)) => {
                            assert(bp_pairs(data@, p as int, prev_key(old_items)) == Ok::<
                                (Seq<(Seq<u8>, BValue)>, int),
                                DecodeError,
                            >((seq![(k@, v@)] + rest, end)));
                            assert(bval_pairs(old_items) + (seq![(k@, v@)] + rest) =~= bval_pairs(
                                old_items,
                            ).push((k@, v@)) + rest);
                            assert(old_items.push((k, v)).drop_last() =~= old_items);
                            assert(old_items.push((k, v)).last() == (k, v));
                            assert(bval_pairs(old_items.push((k, v))) == bval_pairs(
                                old_items,
                            ).push((k@, v@)));
                        },
                        Err(e) => {},
                    }
                }
                items.push((k, v));
                p = p3;
                proof {
                    assert(prev_key(items@) == Option::Some(k@));
                }
            },
        }
    }
}

/// Decode the first value held in `data`.
pub fn decode(data: &[u8]) -> (r: Result<BTypes, DecodeError>)
    ensures
        bp_value(data@, 0) matches Ok(t) ==> r matches Ok(v) && v@ == t.0,
        bp_value(data@, 0) matches Err(e) ==> r == Err::<BTypes, DecodeError>(e),
{
    match decode_at(data, 0) {
        Ok((v, _end)) => Ok(v),
        Err(e) => Err(e),
    }
}

/// The UTF-8 bytes of a string, ready for the byte-level decoder.
pub fn bcode_to_u8(bcode: &str) -> (r: Vec<u8>)
    ensures
        r@ == bcode.spec_bytes(),
{
    bcode.as_bytes_vec()
}

/// A window of a known window of `data` is the matching window of the
/// known contents.
proof fn lemma_subrange_sub(data: Seq<u8>, a: int, b: int, x: Seq<u8>, c: int, d2: int)
    requires
        0 <= a <= b <= data.len(),
        data.subrange(a, b) == x,
        a <= c <= d2 <= b,
    ensures
        data.subrange(c, d2) == x.subrange(c - a, d2 - a),
{
    let y = x.subrange(c - a, d2 - a);
    assert forall|k: int| 0 <= k < d2 - c implies data.subrange(c, d2)[k] == y[k] by {
        assert(y[k] == x[c - a + k]);
        assert(data.subrange(a, b)[c - a + k] == data[c + k]);
        assert(data.subrange(c, d2)[k] == data[c + k]);
    }
    assert(data.subrange(c, d2) =~= y);
}

/// One byte of a known window of `data`.
proof fn lemma_subrange_at(data: Seq<u8>, a: int, b: int, x: Seq<u8>, t: int)
    requires
        0 <= a <= b <= data.len(),
        data.subrange(a, b) == x,
        a <= t < b,
    ensures
        data[t] == x[t - a],
{
    assert(data.subrange(a, b)[t - a] == data[t]);
}

proof fn lemma_dec_rec(n: nat)
    ensures
        all_digits(dec_rec(n)),
        dec_rec(n).len() >= 1,
        digits_val(dec_rec(n)) == n,
    decreases n,
{
    if n < 10 {
        let s = seq![(48 + n) as u8];
        assert(dec_rec(n) == s);
        assert(s.drop_last() =~= Seq::<u8>::empty());
        assert(digits_val(Seq::<u8>::empty()) == 0);
        assert(s.last() == (48 + n) as u8);
        assert(digits_val(s) == digits_val(s.drop_last()) * 10 + (s.last() - 48));
        assert(digits_val(dec_rec(n)) == (48 + n) - 48);
    } else {
        lemma_dec_rec(n / 10);
        let s = dec_rec(n / 10).push((48 + n % 10) as u8);
        assert(s.drop_last() =~= dec_rec(n / 10));
        assert(s.last() == (48 + n % 10) as u8);
        assert(digits_val(s) == digits_val(dec_rec(n / 10)) * 10 + (n % 10));
        assert(forall|i: int| 0 <= i < s.len() - 1 ==> s[i] == dec_rec(n / 10)[i]);
    }
}

proof fn lemma_find_byte_at(data: Seq<u8>, pos: int, j: int, b: u8)
    requires
        0 <= pos <= j < data.len(),
        data[j] == b,
        forall|k: int| pos <= k < j ==> data[k] != b,
    ensures
        find_byte(data, pos, b) == j,
    decreases j - pos,
{
    if pos < j {
        lemma_find_byte_at(data, pos + 1, j, b);
    }
}

/// A digit string within range parses to its value.
proof fn lemma_parse_i64_digits(s: Seq<u8>)
    requires
        all_digits(s),
        s.len() >= 1,
        digits_val(s) <= 0x7FFF_FFFF_FFFF_FFFF,
    ensures
        parse_i64(s) == Some((digits_val(s) as i64)),
{
    assert(is_digit(s[0]));
    lemma_digits_val_nonneg(s);
}

/// The rendering of a well-formed integer parses back to it.
proof fn lemma_parse_i64_int_bytes(i: int)
    requires
        -0x8000_0000_0000_0000 <= i <= 0x7FFF_FFFF_FFFF_FFFF,
    ensures
        parse_i64(int_bytes(i)) matches Some(v) && v as int == i,
        all_digits(int_bytes(i)) || (int_bytes(i)[0] == 45 && all_digits(int_bytes(i).drop_first())),
        int_bytes(i).len() >= 1,
{
    if i < 0 {
        lemma_dec_rec((-i) as nat);
        let s = seq![45u8] + dec_rec((-i) as nat);
        assert(s[0] == 45);
        assert(s.drop_first() =~= dec_rec((-i) as nat));
        lemma_digits_val_nonneg(dec_rec((-i) as nat));
        assert(digits_val(s.drop_first()) == -i);
        assert(digits_val(s.drop_first()) <= 0x8000_0000_0000_0000);
        assert(parse_i64(s) == Some(((-digits_val(s.drop_first())) as i64)));
    } else {
        lemma_dec_rec(i as nat);
        assert(is_digit(int_bytes(i)[0]));
        lemma_parse_i64_digits(dec_rec(i as nat));
    }
}

/// The first byte of an encoding is a kind byte or a length digit, never
/// the terminator `e` nor the separator `:`.
proof fn lemma_benc_first(v: BValue)
    ensures
        benc(v).len() >= 2,
        benc(v)[0] == 105 || benc(v)[0] == 108 || benc(v)[0] == 100 || is_digit(benc(v)[0]),
{
    match v {
        BValue::Str(s) => {
            lemma_dec_rec(s.len());
            assert(benc(v)[0] == dec_rec(s.len())[0]);
        },
        BValue::Int(_) => {},
        BValue::List(_) => {},
        BValue::Dict(_) => {},
    }
}

/// A byte-string encoding parses back to the byte-string.
proof fn lemma_parse_enc_str(k: Seq<u8>, data: Seq<u8>, pos: int)
    requires
        k.len() <= 0x7FFF_FFFF_FFFF_FFFF,
        0 <= pos,
        pos + str_enc(k).len() <= data.len(),
        data.subrange(pos, pos + str_enc(k).len()) == str_enc(k),
    ensures
        bp_value(data, pos) == Ok::<(BValue, int), DecodeError>((
            BValue::Str(k),
            pos + str_enc(k).len(),
        )),
{
    let dl = dec_rec(k.len()).len() as int;
    let total = str_enc(k).len() as int;
    lemma_dec_rec(k.len());
    lemma_subrange_at(data, pos, pos + total, str_enc(k), pos);
    assert(str_enc(k)[0] == dec_rec(k.len())[0]);
    assert(is_digit(data[pos]));
    // the colon stands right after the length digits
    assert forall|t: int| pos <= t < pos + dl implies is_digit(data[t]) && data[t] != 58 by {
        lemma_subrange_at(data, pos, pos + total, str_enc(k), t);
        assert(str_enc(k)[t - pos] == dec_rec(k.len())[t - pos]);
    }
    lemma_subrange_at(data, pos, pos + total, str_enc(k), pos + dl);
    assert(str_enc(k)[dl] == 58);
    lemma_find_byte_at(data, pos, pos + dl, 58);
    let j = pos + dl;
    lemma_subrange_sub(data, pos, pos + total, str_enc(k), pos, j);
    assert(str_enc(k).subrange(0, dl) =~= dec_rec(k.len()));
    lemma_parse_i64_digits(dec_rec(k.len()));
    let l = digits_val(dec_rec(k.len()));
    assert(l == k.len());
    assert(j + 1 + l == pos + total);
    lemma_subrange_sub(data, pos, pos + total, str_enc(k), j + 1, j + 1 + l);
    assert(str_enc(k).subrange(dl + 1, dl + 1 + l) =~= k);
}

/// Parsing the canonical encoding of a well-formed value, wherever it
/// stands in the input, gives back exactly that value.
#[verifier::rlimit(50)]
proof fn lemma_parse_enc(v: BValue, data: Seq<u8>, pos: int)
    requires
        wf(v),
        0 <= pos,
        pos + benc(v).len() <= data.len(),
        data.subrange(pos, pos + benc(v).len()) == benc(v),
    ensures
        bp_value(data, pos) == Ok::<(BValue, int), DecodeError>((v, pos + benc(v).len())),
    decreases v, 0int,
{
    let total = benc(v).len() as int;
    lemma_benc_first(v);
    lemma_subrange_at(data, pos, pos + total, benc(v), pos);
    assert(data[pos] == benc(v)[0]);
    match v {
        BValue::Str(s) => {
            lemma_parse_enc_str(s, data, pos);
        },
        BValue::Int(i) => {
            let ib = int_bytes(i);
            let il = ib.len() as int;
            lemma_parse_i64_int_bytes(i);
            assert(benc(v) =~= seq![105u8] + ib + seq![101u8]);
            assert(data[pos] == 105);
            // no byte of the rendered integer is the terminator `e`
            assert forall|u: int| 0 <= u < il implies (is_digit(ib[u]) || ib[u] == 45) by {
                if u >= 1 {
                    assert(ib[u] == ib.drop_first()[u - 1]);
                }
            }
            assert forall|t: int| pos + 1 <= t < pos + 1 + il implies data[t] != 101 by {
                lemma_subrange_at(data, pos, pos + total, benc(v), t);
                assert(benc(v)[t - pos] == ib[t - pos - 1]);
            }
            lemma_subrange_at(data, pos, pos + total, benc(v), pos + 1 + il);
            assert(benc(v)[1 + il] == 101);
            lemma_find_byte_at(data, pos + 1, pos + 1 + il, 101);
            lemma_subrange_sub(data, pos, pos + total, benc(v), pos + 1, pos + 1 + il);
            assert(benc(v).subrange(1, 1 + il) =~= ib);
            assert(data.subrange(pos + 1, pos + 1 + il) == ib);
        },
        BValue::List(l) => {
            assert(data[pos] == 108);
            assert(benc(v) =~= seq![108u8] + (benc_seq(l) + seq![101u8]));
            lemma_subrange_sub(data, pos, pos + total, benc(v), pos + 1, pos + total);
            assert(benc(v).subrange(1, total) =~= benc_seq(l) + seq![101u8]);
            assert(data.subrange(pos + 1, pos + total) == benc_seq(l) + seq![101u8]);
            lemma_parse_enc_items(l, data, pos + 1);
        },
        BValue::Dict(d) => {
            assert(data[pos] == 100);
            assert(benc(v) =~= seq![100u8] + (benc_pairs(d) + seq![101u8]));
            lemma_subrange_sub(data, pos, pos + total, benc(v), pos + 1, pos + total);
            assert(benc(v).subrange(1, total) =~= benc_pairs(d) + seq![101u8]);
            assert(data.subrange(pos + 1, pos + total) == benc_pairs(d) + seq![101u8]);
            lemma_parse_enc_pairs(d, data, pos + 1, Option::None);
        },
    }
}

#[verifier::rlimit(50)]
proof fn lemma_parse_enc_items(l: Seq<BValue>, data: Seq<u8>, pos: int)
    requires
        wf_seq(l),
        0 <= pos,
        pos + benc_seq(l).len() + 1 <= data.len(),
        data.subrange(pos, pos + benc_seq(l).len() + 1) == benc_seq(l) + seq![101u8],
    ensures
        bp_items(data, pos) == Ok::<(Seq<BValue>, int), DecodeError>((
            l,
            pos + benc_seq(l).len() + 1,
        )),
    decreases l, 1int,
{
    let x = benc_seq(l) + seq![101u8];
    let total: int = benc_seq(l).len() as int + 1;
    lemma_subrange_at(data, pos, pos + total, x, pos);
    assert(data[pos] == x[0]);
    if l.len() == 0 {
        assert(benc_seq(l) == Seq::<u8>::empty());
        assert(data[pos] == 101);
        assert(l =~= Seq::<BValue>::empty());
    } else {
        let first = l.first();
        let rest = l.drop_first();
        let fl = benc(first).len() as int;
        assert(benc_seq(l) == benc(first) + benc_seq(rest));
        lemma_benc_first(first);
        assert(x[0] == benc(first)[0]);
        assert(data[pos] != 101);
        lemma_subrange_sub(data, pos, pos + total, x, pos, pos + fl);
        assert(x.subrange(0, fl) =~= benc(first));
        lemma_parse_enc(first, data, pos);
        let p2 = pos + fl;
        lemma_subrange_sub(data, pos, pos + total, x, p2, pos + total);
        assert(x.subrange(fl, total) =~= benc_seq(rest) + seq![101u8]);
        lemma_parse_enc_items(rest, data, p2);
        assert(seq![first] + rest =~= l);
    }
}

#[verifier::rlimit(50)]
proof fn lemma_parse_enc_pairs(
    d: Seq<(Seq<u8>, BValue)>,
    data: Seq<u8>,
    pos: int,
    prev: Option<Seq<u8>>,
)
    requires
        wf_pairs(d),
        sorted_keys(d),
        match prev {
            Option::None => true,
            Option::Some(k0) => d.len() == 0 || lex_lt(k0, d.first().0),
        },
        0 <= pos,
        pos + benc_pairs(d).len() + 1 <= data.len(),
        data.subrange(pos, pos + benc_pairs(d).len() + 1) == benc_pairs(d) + seq![101u8],
    ensures
        bp_pairs(data, pos, prev) == Ok::<(Seq<(Seq<u8>, BValue)>, int), DecodeError>((
            d,
            pos + benc_pairs(d).len() + 1,
        )),
    decreases d, 1int,
{
    let x = benc_pairs(d) + seq![101u8];
    let total: int = benc_pairs(d).len() as int + 1;
    lemma_subrange_at(data, pos, pos + total, x, pos);
    assert(data[pos] == x[0]);
    if d.len() == 0 {
        assert(benc_pairs(d) == Seq::<u8>::empty());
        assert(data[pos] == 101);
        assert(d =~= Seq::<(Seq<u8>, BValue)>::empty());
    } else {
        let k = d.first().0;
        let val = d.first().1;
        let rest = d.drop_first();
        let kl = str_enc(k).len() as int;
        let vl = benc(val).len() as int;
        assert(benc_pairs(d) == str_enc(k) + benc(val) + benc_pairs(rest));
        lemma_dec_rec(k.len());
        assert(x[0] == str_enc(k)[0]);
        assert(str_enc(k)[0] == dec_rec(k.len())[0]);
        assert(data[pos] != 101);
        lemma_subrange_sub(data, pos, pos + total, x, pos, pos + kl);
        assert(x.subrange(0, kl) =~= str_enc(k));
        lemma_parse_enc_str(k, data, pos);
        let p2 = pos + kl;
        lemma_subrange_sub(data, pos, pos + total, x, p2, p2 + vl);
        assert(x.subrange(kl, kl + vl) =~= benc(val));
        lemma_parse_enc(val, data, p2);
        let p3 = p2 + vl;
        lemma_subrange_sub(data, pos, pos + total, x, p3, pos + total);
        assert(x.subrange(kl + vl, total) =~= benc_pairs(rest) + seq![101u8]);
        // the remaining keys stay sorted, and the first of them is above `k`
        assert(forall|i: int|
            0 <= i < rest.len() - 1 ==> lex_lt(#[trigger] rest[i].0, rest[i + 1].0)) by {
            assert(forall|i: int| 0 <= i < rest.len() - 1 ==> #[trigger] rest[i] == d[i + 1]
                && rest[i + 1] == d[i + 2]);
        }
        if rest.len() > 0 {
            assert(rest.first().0 == d[1].0);
            assert(lex_lt(d[0].0, d[1].0));
        }
        lemma_parse_enc_pairs(rest, data, p3, Option::Some(k));
        assert(seq![(k, val)] + rest =~= d);
    }
}

/// Bencode round-trip: decoding the canonical encoding of any
/// well-formed value yields that value and consumes every byte, so
/// re-encoding what was decoded reproduces a well-formed input exactly.
pub proof fn lemma_bencode_round_trip(v: BValue)
    requires
        wf(v),
    ensures
        bp_value(benc(v), 0) == Ok::<(BValue, int), DecodeError>((v, benc(v).len() as int)),
{
    assert(benc(v).subrange(0, benc(v).len() as int) =~= benc(v));
    lemma_parse_enc(v, benc(v), 0);
}

} // verus!
