//! The piece-exchange side of a peer session: the packed piece map, the
//! framed peer messages, and the single-owner sink state that tracks
//! every peer's choke, interest and piece map.
use vstd::prelude::*;

verus! {

use crate::sha1::be_word;

/// Raised when a peer frame cannot be used.
#[derive(Debug)]
pub enum DownloadError {
    Unrecognized,
}

/// A packed bit-set, one bit per piece: a byte vector for large maps,
/// one 64-bit word for small ones.
#[derive(Debug, Clone, PartialEq, Eq)]
pub struct Bitfield {
    bit: BitfieldInner,
}

#[derive(Debug, Clone, PartialEq, Eq)]
enum BitfieldInner {
    Large(Vec<u8>),
    Compact(u64),
}

/// Toggling one bit of a byte flips exactly that bit.
proof fn lemma_toggle_u8(x: u8, s: u8, t: u8)
    by (bit_vector)
    requires
        s < 8,
        t < 8,
    ensures
        s != t ==> ((x ^ (1u8 << s)) >> t) & 1 == (x >> t) & 1,
        ((x ^ (1u8 << s)) >> s) & 1 == 1 - ((x >> s) & 1),
        (x >> t) & 1 < 2,
{
}

/// Toggling one bit of a word flips exactly that bit.
proof fn lemma_toggle_u64(x: u64, s: u64, t: u64)
    by (bit_vector)
    requires
        s < 64,
        t < 64,
    ensures
        s != t ==> ((x ^ (1u64 << s)) >> t) & 1 == (x >> t) & 1,
        ((x ^ (1u64 << s)) >> s) & 1 == 1 - ((x >> s) & 1),
        (x >> t) & 1 < 2,
{
}

impl Bitfield {
    /// Whether this map is the one-word form.
    pub closed spec fn is_compact(&self) -> bool {
        self.bit is Compact
    }

    /// The word of a compact map.
    pub closed spec fn compact_word(&self) -> u64 {
        self.bit->Compact_0
    }

    /// The bytes of a large map.
    pub closed spec fn large_bytes(&self) -> Seq<u8> {
        self.bit->Large_0@
    }

    /// How many bit positions the map addresses.
    pub open spec fn spec_len(&self) -> int {
        if self.is_compact() {
            64
        } else {
            self.large_bytes().len() as int
        }
    }

    /// How many bits the map holds.
    pub open spec fn bit_count(&self) -> int {
        if self.is_compact() {
            64
        } else {
            8 * self.large_bytes().len() as int
        }
    }

    /// Whether bit `index` is set.
    pub open spec fn bit_set(&self, index: int) -> bool {
        if self.is_compact() {
            (self.compact_word() >> (index as u64)) & 1 == 1
        } else {
            (self.large_bytes()[index / 8] >> ((index % 8) as u8)) & 1 == 1
        }
    }

    /// A zeroed byte-vector map able to hold `cap` pieces.
    pub fn new(cap: usize) -> (r: Bitfield)
        requires
            cap / 8 + 1 <= usize::MAX,
        ensures
            !r.is_compact(),
            r.large_bytes() == Seq::new((cap / 8 + 1) as nat, |i: int| 0u8),
    {
        let v: Vec<u8> = vec![0; cap / 8 + 1];
        proof {
            assert(v@ =~= Seq::new((cap / 8 + 1) as nat, |i: int| 0u8));
        }
        Bitfield { bit: BitfieldInner::Large(v) }
    }

    /// A zeroed one-word map for up to 64 pieces.
    pub fn new_compact() -> (r: Bitfield)
        ensures
            r.is_compact(),
            r.compact_word() == 0,
    {
        Bitfield { bit: BitfieldInner::Compact(0) }
    }

    /// How many bytes (large form) or bit positions (compact form) the
    /// map holds.
    pub fn len(&self) -> (r: usize)
        ensures
            r == self.spec_len(),
    {
        match &self.bit {
            BitfieldInner::Large(x_compact) => x_compact.len(),
            BitfieldInner::Compact(_) => 64,
        }
    }

    /// A byte-vector map able to hold `cap` pieces, its prefix copied
    /// from a wire bitfield.
    pub fn from_bytes(bits: &[u8], cap: usize) -> (r: Bitfield)
        requires
            cap >= 1,
            8 * (cap - 1) <= usize::MAX,
            bits@.len() <= (8 * (cap - 1)) / 8 + 1,
        ensures
            !r.is_compact(),
            r.large_bytes().len() == (8 * (cap - 1)) / 8 + 1,
            forall|i: int| 0 <= i < bits@.len() ==> r.large_bytes()[i] == bits@[i],
            forall|i: int|
                bits@.len() <= i < r.large_bytes().len() ==> r.large_bytes()[i] == 0,
    {
        let mut bfield = Self::new(8 * (cap - 1));
        match &mut bfield.bit {
            BitfieldInner::Large(x_field) => {
                let mut i: usize = 0;
                while i < bits.len()
                    invariant
                        i <= bits@.len(),
                        bits@.len() <= x_field@.len(),
                        x_field@.len() == (8 * (cap - 1)) / 8 + 1,
                        forall|j: int| 0 <= j < i ==> x_field@[j] == bits@[j],
                        forall|j: int| i <= j < x_field@.len() ==> x_field@[j] == 0,
                    decreases bits@.len() - i,
                {
                    let x = bits[i];
                    x_field[i] = x;
                    i = i + 1;
                }
            },
            BitfieldInner::Compact(_) => {
                proof {
                    assert(false);
                }
            },
        }
        bfield
    }

    /// Flip bit `index`: set it when clear, clear it when set; every
    /// other bit keeps its value.
    pub fn set(&mut self, index: usize)
        requires
            old(self).is_compact() ==> index < 64,
            !old(self).is_compact() ==> index / 8 < old(self).large_bytes().len(),
        ensures
            final(self).is_compact() == old(self).is_compact(),
            final(self).spec_len() == old(self).spec_len(),
            final(self).bit_set(index as int) == !old(self).bit_set(index as int),
            forall|j: int|
                0 <= j < final(self).bit_count() && j != index ==> final(self).bit_set(j) == old(self).bit_set(j),
    {
        match &mut self.bit {
            BitfieldInner::Large(x_field) => {
                let max_point = index / 8;
                let min_point = index % 8;
                x_field[max_point] = x_field[max_point] ^ (1u8 << min_point);
                proof {
                    let s = (index % 8) as u8;
                    let ob = old(self).large_bytes();
                    lemma_toggle_u8(ob[index as int / 8], s, s);
                    assert forall|j: int|
                        0 <= j < final(self).bit_count() && j != index implies #[trigger] final(self).bit_set(j) == old(self).bit_set(j) by {
                        if j / 8 == index as int / 8 {
                            assert(j % 8 != index as int % 8);
                            lemma_toggle_u8(ob[j / 8], s, (j % 8) as u8);
                        }
                    }
                }
            },
            BitfieldInner::Compact(x_compac) => {
                let w = *x_compac;
                self.bit = BitfieldInner::Compact(w ^ (1u64 << (index as u64)));
                proof {
                    let s = index as u64;
                    lemma_toggle_u64(w, s, s);
                    assert forall|j: int|
                        0 <= j < final(self).bit_count() && j != index implies #[trigger] final(self).bit_set(j) == old(self).bit_set(j) by {
                        if 0 <= j < 64 {
                            lemma_toggle_u64(w, s, j as u64);
                        }
                    }
                }
            },
        }
    }

    /// The map's word shifted down to put bit `index` lowest; its low
    /// bit tells whether the piece is held.
    pub fn get(&mut self, index: u64) -> (r: u64)
        requires
            old(self).is_compact() ==> index < 64,
            !old(self).is_compact() ==> index / 8 < old(self).large_bytes().len(),
        ensures
            *final(self) == *old(self),
            old(self).is_compact() ==> r == old(self).compact_word() >> index,
            !old(self).is_compact() ==> r == (old(self).large_bytes()[index as int / 8] >> ((
            index % 8) as u8)) as u64,
            r & 1 == (if old(self).bit_set(index as int) {
                1u64
            } else {
                0u64
            }),
    {
        match &mut self.bit {
            BitfieldInner::Large(x_field) => {
                let n = x_field.len();
                proof {
                    assert(index / 8 < n as u64);
                }
                let max_point = (index / 8) as usize;
                let min_point = index % 8;
                let res = x_field[max_point] >> (min_point as u8);
                proof {
                    lemma_toggle_u8(old(self).large_bytes()[index as int / 8], 0, (index % 8) as u8);
                    assert((res as u64) & 1 == (res & 1) as u64) by (bit_vector);
                }
                res as u64
            },
            BitfieldInner::Compact(x_compac) => {
                let r = *x_compac >> index;
                proof {
                    lemma_toggle_u64(old(self).compact_word(), 0, index);
                }
                r
            },
        }
    }
}

/// One framed peer message, already parsed.
#[derive(Debug, Eq, PartialEq)]
pub enum Message {
    KeepAlive,
    Choke,
    Unchoke,
    Interested,
    NotInterested,
    Have(u32),
    Unrecognized,
    Request,
    BitField(Bitfield),
    Piece(Vec<u8>),
    Finish,
}

impl Message {
    /// Parse a frame's payload: the first byte selects the message, the
    /// rest is its body.  Unknown or undersized frames are
    /// unrecognized, never fatal.
    pub fn try_from(value: &[u8], len: usize) -> (r: Message)
        requires
            len == value@.len(),
            value@.len() >= 1,
            value@.len() <= usize::MAX / 8,
        ensures
            value@[0] == 0 ==> r == Message::Choke,
            value@[0] == 1 ==> r == Message::Unchoke,
            value@[0] == 2 ==> r == Message::Interested,
            value@[0] == 3 ==> r == Message::NotInterested,
            value@[0] == 4 && value@.len() >= 5 ==> r == Message::Have(
                be_word(value@[1], value@[2], value@[3], value@[4]),
            ),
            value@[0] == 5 ==> (r matches Message::BitField(b) && !b.is_compact() && {
                let body = value@.skip(1);
                forall|i: int| 0 <= i < body.len() ==> b.large_bytes()[i] == body[i]
            }),
            value@[0] == 6 ==> r == Message::Request,
            value@[0] == 7 && value@.len() >= 9 ==> (r matches Message::Piece(p) && p@ == value@
                .skip(9)),
            value@[0] == 4 && value@.len() < 5 ==> r == Message::Unrecognized,
            value@[0] == 7 && value@.len() < 9 ==> r == Message::Unrecognized,
            value@[0] > 7 ==> r == Message::Unrecognized,
    {
        match value[0] {
            0 => Message::Choke,
            1 => Message::Unchoke,
            2 => Message::Interested,
            3 => Message::NotInterested,
            4 => {
                if len >= 5 {
                    let w = ((value[1] as u32) << 24) | ((value[2] as u32) << 16) | ((value[3]
                        as u32) << 8) | (value[4] as u32);
                    Message::Have(w)
                } else {
                    Message::Unrecognized
                }
            },
            5 => {
                let body = vstd::slice::slice_subrange(value, 1, len);
                Message::BitField(Bitfield::from_bytes(body, len))
            },
            6 => Message::Request,
            7 => {
                if len >= 9 {
                    let block = vstd::slice::slice_to_vec(
                        vstd::slice::slice_subrange(value, 9, len),
                    );
                    Message::Piece(block)
                } else {
                    Message::Unrecognized
                }
            },
            _ => Message::Unrecognized,
        }
    }
}

/// The central sink's view of all peers: who chokes us, who is
/// interested, and each peer's advertised piece map.  One owner mutates
/// it; peer readers only hand events in.
pub struct SinkState {
    /// Bit `i`: the remote peer `i` is choking us
    pub peer_choking: Bitfield,
    /// Bit `i`: the remote peer `i` is interested in us
    pub peer_interested: Bitfield,
    /// Piece maps pushed by peers as they advertise them
    pub piece_map: Vec<Bitfield>,
}

impl SinkState {
    /// A sink with no peers heard from yet.
    pub fn new() -> (r: SinkState)
        ensures
            r.peer_choking.is_compact() && r.peer_choking.compact_word() == 0,
            r.peer_interested.is_compact() && r.peer_interested.compact_word() == 0,
            r.piece_map@.len() == 0,
    {
        SinkState {
            peer_choking: Bitfield::new_compact(),
            peer_interested: Bitfield::new_compact(),
            piece_map: Vec::new(),
        }
    }

    /// Fold one peer event into the table: choke and unchoke flip the
    /// peer's choke bit, interest reports flip its interest bit, an
    /// advertised bitfield is appended, and a block is handed back to
    /// the caller for delivery.  Anything else leaves the table as it
    /// was.
    pub fn on_message(&mut self, idx: usize, value: Message) -> (r: Option<Vec<u8>>)
        requires
            idx < 64,
            old(self).peer_choking.is_compact(),
            old(self).peer_interested.is_compact(),
        ensures
            final(self).peer_choking.is_compact(),
            final(self).peer_interested.is_compact(),
            match value {
                Message::BitField(b) => final(self).piece_map@ == old(self).piece_map@.push(b)
                    && final(self).peer_choking == old(self).peer_choking && final(self).peer_interested == old(self).peer_interested && r is None,
                Message::Choke | Message::Unchoke => final(self).peer_choking.bit_set(idx as int)
                    == !old(self).peer_choking.bit_set(idx as int) && (forall|j: int|
                    0 <= j < 64 && j != idx ==> final(self).peer_choking.bit_set(j) == old(self).peer_choking.bit_set(j)) && final(self).peer_interested == old(self).peer_interested && final(self).piece_map@ == old(self).piece_map@ && r is None,
                Message::Interested | Message::NotInterested => final(self).peer_interested.bit_set(idx as int) == !old(self).peer_interested.bit_set(
                    idx as int,
                ) && (forall|j: int|
                    0 <= j < 64 && j != idx ==> final(self).peer_interested.bit_set(j) == old(self).peer_interested.bit_set(j)) && final(self).peer_choking == old(self).peer_choking && final(self).piece_map@ == old(self).piece_map@ && r is None,
                Message::Piece(p) => r == Some(p) && *final(self) == *old(self),
                _ => *final(self) == *old(self) && r is None,
            },
    {
        match value {
            Message::BitField(x_field) => {
                self.piece_map.push(x_field);
                None
            },
            Message::Choke => {
                self.peer_choking.set(idx);
                None
            },
            Message::Unchoke => {
                self.peer_choking.set(idx);
                None
            },
            Message::Interested => {
                self.peer_interested.set(idx);
                None
            },
            Message::NotInterested => {
                self.peer_interested.set(idx);
                None
            },
            Message::Piece(p) => Some(p),
            _ => None,
        }
    }
}

} // verus!
