//! SHA-1 (FIPS 180): 160-bit state, 80-round message schedule, standard
//! padding with a big-endian bit count.
//!
//! The contracts pin the whole computation to a mathematical model of the
//! compression function, so the digest of a message is a function of its
//! bytes and nothing else.
use vstd::prelude::*;

verus! {

/// Raised when a digest cannot be rendered as text.
#[derive(Debug)]
pub enum Error {
    FailWrite,
}

/// Rotate a 32-bit word left by `n` bits.
pub open spec fn rotl(x: u32, n: u32) -> u32 {
    (x << n) | (x >> (32 - n) as u32)
}

pub open spec fn w32(a: u32, b: u32) -> u32 {
    vstd::wrapping::u32_specs::wrapping_add(a, b)
}

/// The round constant of round `t`.
pub open spec fn sha1_k(t: int) -> u32 {
    if t < 20 {
        0x5A827999
    } else if t < 40 {
        0x6ED9EBA1
    } else if t < 60 {
        0x8F1BBCDC
    } else {
        0xCA62C1D6
    }
}

/// The nonlinear function of round `t`.
pub open spec fn sha1_f(t: int, b: u32, c: u32, d: u32) -> u32 {
    if t < 20 {
        (b & c) | (!b & d)
    } else if 40 <= t && t <= 59 {
        (b & c) | (b & d) | (c & d)
    } else {
        b ^ c ^ d
    }
}

/// A big-endian 32-bit word from four bytes.
pub open spec fn be_word(b0: u8, b1: u8, b2: u8, b3: u8) -> u32 {
    ((b0 as u32) << 24) | ((b1 as u32) << 16) | ((b2 as u32) << 8) | (b3 as u32)
}

/// The sixteen words of one 64-byte block.
pub open spec fn block_words(block: Seq<u8>) -> Seq<u32> {
    Seq::new(16, |i: int| be_word(block[4 * i], block[4 * i + 1], block[4 * i + 2], block[4 * i + 3]))
}

/// Word `t` of the extended message schedule over the first 16 words.
pub open spec fn w_sched(ws: Seq<u32>, t: int) -> u32
    decreases t,
{
    if t < 16 {
        ws[t]
    } else {
        rotl(w_sched(ws, t - 3) ^ w_sched(ws, t - 8) ^ w_sched(ws, t - 14) ^ w_sched(ws, t - 16), 1)
    }
}

/// The five-word working state after `t` rounds.
pub open spec fn rounds(ws: Seq<u32>, st: Seq<u32>, t: int) -> Seq<u32>
    decreases t,
{
    if t <= 0 {
        st
    } else {
        let p = rounds(ws, st, t - 1);
        let temp = w32(
            w32(w32(w32(rotl(p[0], 5), sha1_f(t - 1, p[1], p[2], p[3])), p[4]), w_sched(ws, t - 1)),
            sha1_k(t - 1),
        );
        seq![temp, p[0], rotl(p[1], 30), p[2], p[3]]
    }
}

/// One application of the compression function, given the first 16
/// schedule words.
pub open spec fn compress_words(h: Seq<u32>, ws: Seq<u32>) -> Seq<u32> {
    Seq::new(5, |i: int| w32(h[i], rounds(ws, h, 80)[i]))
}

/// One application of the compression function to a 64-byte block.
pub open spec fn compress(h: Seq<u32>, block: Seq<u8>) -> Seq<u32> {
    compress_words(h, block_words(block))
}

/// Byte `i` (big-endian) of a 64-bit word.
pub open spec fn u64_byte(v: u64, i: int) -> u8 {
    ((v >> (8 * (7 - i)) as u64) & 0xFF) as u8
}

/// Byte `i` (big-endian) of a 32-bit word.
pub open spec fn u32_byte(v: u32, i: int) -> u8 {
    ((v >> (8 * (3 - i)) as u32) & 0xFF) as u8
}

/// How many zero bytes the padding inserts for a message of `len` bytes.
pub open spec fn pad_zeros(len: nat) -> nat {
    ((64 - ((len + 9) % 64)) % 64) as nat
}

/// The standard suffix: `0x80`, zeros to a 56-byte residue, then the
/// bit count as eight big-endian bytes.
pub open spec fn padding_of(len: nat) -> Seq<u8> {
    seq![0x80u8] + Seq::new(pad_zeros(len), |i: int| 0u8) + Seq::new(
        8,
        |i: int| u64_byte((len * 8) as u64, i),
    )
}

/// The state after compressing the first `nblocks` 64-byte blocks.
pub open spec fn sha1_fold(h: Seq<u32>, data: Seq<u8>, nblocks: int) -> Seq<u32>
    decreases nblocks,
{
    if nblocks <= 0 {
        h
    } else {
        compress(sha1_fold(h, data, nblocks - 1), data.subrange(64 * (nblocks - 1), 64 * nblocks))
    }
}

/// The state after absorbing a whole padded message, starting from `h`.
pub open spec fn sha1_update(h: Seq<u32>, msg: Seq<u8>) -> Seq<u32> {
    let padded = msg + padding_of(msg.len());
    sha1_fold(h, padded, padded.len() as int / 64)
}

/// The initial 160-bit state.
pub open spec fn sha1_iv() -> Seq<u32> {
    seq![0x67452301u32, 0xEFCDAB89u32, 0x98BADCFEu32, 0x10325476u32, 0xC3D2E1F0u32]
}

/// The digest bytes of a five-word state.
pub open spec fn state_bytes(h: Seq<u32>) -> Seq<u8> {
    Seq::new(20, |i: int| u32_byte(h[i / 4], i % 4))
}

/// The SHA-1 digest of a message.
pub open spec fn sha1_digest(msg: Seq<u8>) -> Seq<u8> {
    state_bytes(sha1_update(sha1_iv(), msg))
}

proof fn lemma_mask_byte_u64(x: u64)
    by (bit_vector)
    ensures
        (x & 0xFF) < 256,
{
}

proof fn lemma_mask_byte_u32(x: u32)
    by (bit_vector)
    ensures
        (x & 0xFF) < 256,
{
}

/// A streaming SHA-1 hasher: the current 160-bit state, the message
/// schedule of the block in flight, and the message length in bits.
pub struct Sha1 {
    num_blocks: u64,
    message_length: u64,
    f_buf: [u32; 5],
    h_buf: [u32; 5],
    word: [u32; 80],
}

impl Sha1 {
    /// The current 160-bit state as five words.
    pub closed spec fn spec_h(&self) -> Seq<u32> {
        self.h_buf@
    }

    /// The current message schedule.
    pub closed spec fn spec_words(&self) -> Seq<u32> {
        self.word@
    }

    /// The absorbed message length in bits.
    pub closed spec fn spec_bits(&self) -> u64 {
        self.message_length
    }

    /// A fresh hasher holding the standard initial state.
    pub fn new() -> (r: Sha1)
        ensures
            r.spec_h() == sha1_iv(),
            r.spec_bits() == 0,
    {
        let r = Sha1 {
            num_blocks: 0,
            message_length: 0,
            f_buf: [0; 5],
            h_buf: [0x67452301, 0xEFCDAB89, 0x98BADCFE, 0x10325476, 0xC3D2E1F0],
            word: [0; 80],
        };
        proof {
            assert(r.h_buf@ =~= sha1_iv());
        }
        r
    }

    /// Drop all state and start over.
    pub fn reset_hash(self) -> (r: Sha1)
        ensures
            r.spec_h() == sha1_iv(),
            r.spec_bits() == 0,
    {
        Sha1::new()
    }

    /// The current digest as 20 big-endian bytes.
    pub fn get_hash(&self) -> (r: [u8; 20])
        ensures
            r@ == state_bytes(self.spec_h()),
    {
        let mut hash = [0u8; 20];
        let mut i: usize = 0;
        while i < 20
            invariant
                i <= 20,
                hash@.len() == 20,
                forall|j: int| 0 <= j < i ==> hash@[j] == state_bytes(self.h_buf@)[j],
            decreases 20 - i,
        {
            let wi = self.h_buf[i / 4];
            let shift: u32 = (8 * (3 - (i % 4))) as u32;
            proof {
                lemma_mask_byte_u32(wi >> shift);
            }
            hash[i] = ((wi >> shift) & 0xFF) as u8;
            i = i + 1;
        }
        proof {
            assert(hash@ =~= state_bytes(self.h_buf@));
        }
        hash
    }

    /// Schedule word `n` of the block most recently processed.
    pub fn get_words(&self, n: usize) -> (r: u32)
        requires
            n < 80,
        ensures
            r == self.spec_words()[n as int],
    {
        self.word[n]
    }

    /// Absorb a whole message: pad it as the standard directs and
    /// compress each 64-byte block into the state.
    pub fn append_hash(&mut self, input: &[u8])
        requires
            input@.len() < 0x2000_0000_0000_0000,
        ensures
            final(self).spec_h() == sha1_update(old(self).spec_h(), input@),
            final(self).spec_bits() == input@.len() * 8,
    {
        let len = input.len();
        self.message_length = (len as u64) * 8;
        let padded = pad_message(input);
        let plen = padded.len();
        let nblocks = plen / 64;
        self.num_blocks = nblocks as u64;
        let ghost h0 = self.h_buf@;
        let mut b: usize = 0;
        while b < nblocks
            invariant
                b <= nblocks,
                plen == padded@.len(),
                nblocks == plen / 64,
                padded@.len() % 64 == 0,
                padded@ == input@ + padding_of(input@.len()),
                self.h_buf@ == sha1_fold(h0, padded@, b as int),
                self.h_buf@.len() == 5,
                self.message_length == input@.len() * 8,
            decreases nblocks - b,
        {
            proof {
                assert(64 * (b as int) + 64 <= 64 * (nblocks as int));
                assert(64 * (nblocks as int) <= plen);
            }
            let block = vstd::slice::slice_subrange(padded.as_slice(), 64 * b, 64 * b + 64);
            self.process_hash(block);
            proof {
                assert(block@ == padded@.subrange(64 * b as int, 64 * (b + 1) as int));
            }
            b = b + 1;
        }
        proof {
            assert(sha1_update(h0, input@) == sha1_fold(
                h0,
                input@ + padding_of(input@.len()),
                (input@ + padding_of(input@.len())).len() as int / 64,
            ));
        }
    }

    /// Compress one 64-byte block into the state.
    fn process_hash(&mut self, block: &[u8])
        requires
            block@.len() == 64,
        ensures
            final(self).h_buf@ == compress(old(self).h_buf@, block@),
            final(self).h_buf@.len() == 5,
            final(self).message_length == old(self).message_length,
            final(self).num_blocks == old(self).num_blocks,
    {
        let mut i: usize = 0;
        while i < 16
            invariant
                i <= 16,
                block@.len() == 64,
                self.word@.len() == 80,
                self.h_buf@ == old(self).h_buf@,
                self.f_buf@ == old(self).f_buf@,
                self.message_length == old(self).message_length,
                self.num_blocks == old(self).num_blocks,
                forall|j: int| 0 <= j < i ==> self.word@[j] == block_words(block@)[j],
            decreases 16 - i,
        {
            let w = ((block[4 * i] as u32) << 24) | ((block[4 * i + 1] as u32) << 16) | ((block[4
                * i + 2] as u32) << 8) | (block[4 * i + 3] as u32);
            self.word[i] = w;
            i = i + 1;
        }
        proof {
            assert(self.word@.subrange(0, 16) =~= block_words(block@));
        }
        self.compute_hash();
    }

    /// The round function on the current working buffer.
    fn f(&self, i: &usize) -> (r: u32)
        requires
            self.f_buf@.len() == 5,
        ensures
            r == sha1_f(*i as int, self.f_buf@[1], self.f_buf@[2], self.f_buf@[3]),
    {
        if *i < 20 {
            (self.f_buf[1] & self.f_buf[2]) | (!self.f_buf[1] & self.f_buf[3])
        } else if *i >= 40 && *i <= 59 {
            (self.f_buf[1] & self.f_buf[2]) | (self.f_buf[1] & self.f_buf[3]) | (self.f_buf[2]
                & self.f_buf[3])
        } else {
            self.f_buf[1] ^ self.f_buf[2] ^ self.f_buf[3]
        }
    }

    /// Extend the message schedule and run the 80 rounds over the
    /// first sixteen words of `word`, folding the result into the state.
    fn compute_hash(&mut self)
        ensures
            final(self).h_buf@ == compress_words(
                old(self).h_buf@,
                old(self).word@.subrange(0, 16),
            ),
            final(self).h_buf@.len() == 5,
            final(self).message_length == old(self).message_length,
            final(self).num_blocks == old(self).num_blocks,
    {
        let ghost ws = self.word@.subrange(0, 16);
        let ghost h0 = self.h_buf@;
        let mut t: usize = 16;
        while t < 80
            invariant
                16 <= t <= 80,
                self.word@.len() == 80,
                ws == self.word@.subrange(0, 16),
                self.h_buf@ == h0,
                self.f_buf@ == old(self).f_buf@,
                self.message_length == old(self).message_length,
                self.num_blocks == old(self).num_blocks,
                forall|j: int| 0 <= j < t ==> self.word@[j] == w_sched(ws, j),
            decreases 80 - t,
        {
            let w = rotl_exec(
                self.word[t - 3] ^ self.word[t - 8] ^ self.word[t - 14] ^ self.word[t - 16],
                1,
            );
            self.word[t] = w;
            proof {
                assert(self.word@.subrange(0, 16) =~= ws);
                assert(w_sched(ws, t as int) == rotl(
                    w_sched(ws, t - 3) ^ w_sched(ws, t - 8) ^ w_sched(ws, t - 14) ^ w_sched(
                        ws,
                        t - 16,
                    ),
                    1,
                ));
            }
            t = t + 1;
        }
        let mut c: usize = 0;
        while c < 5
            invariant
                c <= 5,
                self.word@.len() == 80,
                self.f_buf@.len() == 5,
                self.h_buf@ == h0,
                self.message_length == old(self).message_length,
                self.num_blocks == old(self).num_blocks,
                ws == self.word@.subrange(0, 16),
                forall|j: int| 0 <= j < 80 ==> self.word@[j] == w_sched(ws, j),
                forall|j: int| 0 <= j < c ==> self.f_buf@[j] == h0[j],
            decreases 5 - c,
        {
            self.f_buf[c] = self.h_buf[c];
            c = c + 1;
        }
        proof {
            assert(self.f_buf@ =~= rounds(ws, h0, 0));
        }
        let mut t: usize = 0;
        while t < 80
            invariant
                t <= 80,
                self.word@.len() == 80,
                self.f_buf@.len() == 5,
                self.h_buf@ == h0,
                h0.len() == 5,
                self.message_length == old(self).message_length,
                self.num_blocks == old(self).num_blocks,
                ws == self.word@.subrange(0, 16),
                forall|j: int| 0 <= j < 80 ==> self.word@[j] == w_sched(ws, j),
                self.f_buf@ == rounds(ws, h0, t as int),
            decreases 80 - t,
        {
            let ghost p = self.f_buf@;
            let fv = self.f(&t);
            let temp: u32 = rotl_exec(self.f_buf[0], 5).wrapping_add(fv).wrapping_add(
                self.f_buf[4],
            ).wrapping_add(self.word[t]).wrapping_add(k_of(t));
            self.f_buf[4] = self.f_buf[3];
            self.f_buf[3] = self.f_buf[2];
            self.f_buf[2] = rotl_exec(self.f_buf[1], 30);
            self.f_buf[1] = self.f_buf[0];
            self.f_buf[0] = temp;
            proof {
                assert(self.f_buf@ =~= seq![temp, p[0], rotl(p[1], 30), p[2], p[3]]);
                assert(self.f_buf@ == rounds(ws, h0, t + 1));
            }
            t = t + 1;
        }
        let mut c: usize = 0;
        while c < 5
            invariant
                c <= 5,
                self.h_buf@.len() == 5,
                self.f_buf@.len() == 5,
                self.message_length == old(self).message_length,
                self.num_blocks == old(self).num_blocks,
                self.f_buf@ == rounds(ws, h0, 80),
                forall|j: int| c <= j < 5 ==> self.h_buf@[j] == h0[j],
                forall|j: int| 0 <= j < c ==> self.h_buf@[j] == w32(h0[j], rounds(ws, h0, 80)[j]),
            decreases 5 - c,
        {
            self.h_buf[c] = self.h_buf[c].wrapping_add(self.f_buf[c]);
            c = c + 1;
        }
        proof {
            assert(self.h_buf@ =~= compress_words(h0, ws));
        }
    }

    /// The digest as 40 lowercase hexadecimal characters.
    pub fn get_ascii_hash(&self) -> (r: Result<String, Error>)
        ensures
            r matches Ok(s) && s@ == crate::utils::hex_chars(state_bytes(self.spec_h())),
    {
        let hash = self.get_hash();
        let hv = vstd::slice::slice_to_vec(hash.as_slice());
        Ok(crate::utils::hex_string(&hv))
    }
}

/// The round constant of round `t`.
fn k_of(t: usize) -> (r: u32)
    ensures
        r == sha1_k(t as int),
{
    if t < 20 {
        0x5A827999
    } else if t < 40 {
        0x6ED9EBA1
    } else if t < 60 {
        0x8F1BBCDC
    } else {
        0xCA62C1D6
    }
}

/// Rotate left by `n`.
fn rotl_exec(x: u32, n: u32) -> (r: u32)
    requires
        1 <= n < 32,
    ensures
        r == rotl(x, n),
{
    (x << n) | (x >> (32 - n))
}

/// The message followed by the standard padding.
fn pad_message(input: &[u8]) -> (r: Vec<u8>)
    requires
        input@.len() < 0x2000_0000_0000_0000,
    ensures
        r@ == input@ + padding_of(input@.len()),
        r@.len() % 64 == 0,
{
    let len = input.len();
    let mut padded = vstd::slice::slice_to_vec(input);
    padded.push(0x80);
    let rem = ((len % 64) + 9) % 64;
    let zeros: usize = (64 - rem) % 64;
    proof {
        assert(rem == (input@.len() + 9) % 64);
    }
    let mut z: usize = 0;
    while z < zeros
        invariant
            z <= zeros,
            padded@ == input@ + seq![0x80u8] + Seq::new(z as nat, |i: int| 0u8),
        decreases zeros - z,
    {
        padded.push(0);
        proof {
            assert(Seq::new((z + 1) as nat, |i: int| 0u8) =~= Seq::new(z as nat, |i: int| 0u8)
                + seq![0u8]);
        }
        z = z + 1;
    }
    let bits: u64 = (len as u64) * 8;
    let mut i: usize = 0;
    while i < 8
        invariant
            i <= 8,
            bits == input@.len() * 8,
            padded@ == input@ + seq![0x80u8] + Seq::new(pad_zeros(input@.len()), |j: int| 0u8)
                + Seq::new(i as nat, |j: int| u64_byte(bits, j)),
        decreases 8 - i,
    {
        let shift: u64 = (8 * (7 - i)) as u64;
        proof {
            lemma_mask_byte_u64(bits >> shift);
        }
        padded.push(((bits >> shift) & 0xFF) as u8);
        proof {
            assert(Seq::new((i + 1) as nat, |j: int| u64_byte(bits, j)) =~= Seq::new(
                i as nat,
                |j: int| u64_byte(bits, j),
            ) + seq![u64_byte(bits, i as int)]);
        }
        i = i + 1;
    }
    proof {
        assert(padded@ =~= input@ + padding_of(input@.len()));
    }
    padded
}

} // verus!
