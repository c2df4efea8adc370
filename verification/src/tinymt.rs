//! A TinyMT-style pseudo-random 32-bit generator.
//!
//! One call seeds a four-word state, runs a fixed warm-up, advances once
//! more and tempers the state into the output.  The generator is fully
//! deterministic: the contract pins the result to the mathematical
//! transition function, so fixed seeds give fixed outputs.
use vstd::prelude::*;

verus! {

pub const MAT1_PARAM: u32 = 0x8f7011ee;

pub const MAT2_PARAM: u32 = 0xfc78ff1f;

pub const TMAT_PARAM: u32 = 0x3793fdff;

pub const MASK: u32 = 0x7fffffff;

/// The four-word generator state with its three parameter words.
pub struct TinyMT {
    status: [u32; 4],
    mat1: u32,
    mat2: u32,
    tmat: u32,
}

/// One step of the seed scramble, touching word `i % 4`.
pub open spec fn tmt_scramble(st: Seq<u32>, i: int) -> Seq<u32> {
    let x = st[(i - 1) % 4];
    let xv = x ^ (x >> 30);
    let v = ((i + 1812433253 * xv) % 0x1_0000_0000) as u32;
    st.update(i % 4, st[i % 4] ^ v)
}

/// The state after scrambling words 1 through `i`.
pub open spec fn tmt_init_upto(seed: u32, i: int) -> Seq<u32>
    decreases i,
{
    if i <= 0 {
        seq![seed, MAT1_PARAM, MAT2_PARAM, TMAT_PARAM]
    } else {
        tmt_scramble(tmt_init_upto(seed, i - 1), i)
    }
}

/// One transition of the generator.
pub open spec fn tmt_next(st: Seq<u32>) -> Seq<u32> {
    let x0 = (st[0] & MASK) ^ st[1] ^ st[2];
    let x = x0 ^ (x0 << 1);
    let y = st[3] ^ ((st[3] >> 10) ^ x);
    let s1 = st[2];
    let s2 = x ^ (y << 10);
    if y & 1 > 0 {
        seq![st[1], s1 ^ MAT1_PARAM, s2 ^ MAT2_PARAM, y]
    } else {
        seq![st[1], s1, s2, y]
    }
}

/// `n` transitions of the generator.
pub open spec fn tmt_next_n(st: Seq<u32>, n: int) -> Seq<u32>
    decreases n,
{
    if n <= 0 {
        st
    } else {
        tmt_next(tmt_next_n(st, n - 1))
    }
}

/// The tempering step that turns a state into the output word.
pub open spec fn tmt_temper(st: Seq<u32>) -> u32 {
    let t1 = vstd::wrapping::u32_specs::wrapping_add(st[0], st[2] >> 8);
    let t0 = st[3] ^ t1;
    if t1 & 1 > 0 {
        t0 ^ TMAT_PARAM
    } else {
        t0
    }
}

/// The value this generator yields for a seed: scramble, eight warm-up
/// transitions, one more transition, then temper.
pub open spec fn tinymt_rand(seed: u32) -> u32 {
    tmt_temper(tmt_next_n(tmt_init_upto(seed, 7), 9))
}

impl TinyMT {
    /// Generate the pseudo-random number this generator derives from
    /// `seed`.
    pub fn rand(seed: u32) -> (r: u32)
        ensures
            r == tinymt_rand(seed),
    {
        let mut tinymt = TinyMT {
            status: [seed, MAT1_PARAM, MAT2_PARAM, TMAT_PARAM],
            mat1: MAT1_PARAM,
            mat2: MAT2_PARAM,
            tmat: TMAT_PARAM,
        };
        assert(tinymt.status@ =~= tmt_init_upto(seed, 0));
        let mut i: usize = 1;
        while i < 8
            invariant
                1 <= i <= 8,
                tinymt.status@ == tmt_init_upto(seed, i - 1),
                tinymt.status@.len() == 4,
                tinymt.mat1 == MAT1_PARAM,
                tinymt.mat2 == MAT2_PARAM,
                tinymt.tmat == TMAT_PARAM,
            decreases 8 - i,
        {
            let x = tinymt.status[(i - 1) % 4];
            let xv = x ^ (x >> 30);
            let t: u64 = (i as u64) + 1812433253u64 * (xv as u64);
            let v = (t % 0x1_0000_0000) as u32;
            let idx = i % 4;
            tinymt.status[idx] = tinymt.status[idx] ^ v;
            proof {
                assert(tinymt.status@ =~= tmt_scramble(tmt_init_upto(seed, i - 1), i as int));
            }
            i = i + 1;
        }
        let mut j: usize = 0;
        while j < 8
            invariant
                j <= 8,
                tinymt.status@ == tmt_next_n(tmt_init_upto(seed, 7), j as int),
                tinymt.status@.len() == 4,
                tinymt.mat1 == MAT1_PARAM,
                tinymt.mat2 == MAT2_PARAM,
                tinymt.tmat == TMAT_PARAM,
            decreases 8 - j,
        {
            tinymt.next_state();
            j = j + 1;
        }
        tinymt.next_state();
        tinymt.temper()
    }

    /// Advance the state one transition.
    fn next_state(&mut self)
        requires
            old(self).status@.len() == 4,
            old(self).mat1 == MAT1_PARAM,
            old(self).mat2 == MAT2_PARAM,
        ensures
            final(self).status@ == tmt_next(old(self).status@),
            final(self).status@.len() == 4,
            final(self).mat1 == old(self).mat1,
            final(self).mat2 == old(self).mat2,
            final(self).tmat == old(self).tmat,
    {
        let mut y = self.status[3];
        let mut x = (self.status[0] & MASK) ^ self.status[1] ^ self.status[2];

        x = x ^ (x << 1);
        y = y ^ ((y >> 10) ^ x);

        self.status[0] = self.status[1];
        self.status[1] = self.status[2];
        self.status[2] = x ^ (y << 10);
        self.status[3] = y;

        if y & 1 > 0 {
            self.status[1] = self.status[1] ^ self.mat1;
            self.status[2] = self.status[2] ^ self.mat2;
        }
        proof {
            assert(final(self).status@ =~= tmt_next(old(self).status@));
        }
    }

    /// Temper the state into the output word.
    fn temper(&mut self) -> (r: u32)
        requires
            old(self).status@.len() == 4,
            old(self).tmat == TMAT_PARAM,
        ensures
            r == tmt_temper(old(self).status@),
            *final(self) == *old(self),
    {
        let mut t0 = self.status[3];
        let t1 = self.status[0].wrapping_add(self.status[2] >> 8);

        t0 = t0 ^ t1;

        if t1 & 1 > 0 {
            t0 = t0 ^ self.tmat;
        }

        t0
    }
}

} // verus!
