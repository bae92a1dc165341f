//! A Mersenne Twister pseudo-random generator with a 624-word state,
//! used as the deterministic source of uniform values.

use vstd::prelude::*;

verus! {

/// Word count of the generator state.
pub const MT_N: u64 = 624;

/// The seeding recurrence: state word `i` from state word `i - 1`,
/// with wrapping arithmetic.
pub open spec fn mt_seed_step(prev: u32, i: u32) -> u32 {
    vstd::wrapping::u32_specs::wrapping_add(
        vstd::wrapping::u32_specs::wrapping_mul(1812433253u32, prev ^ (prev >> 30u32)),
        i,
    )
}

/// The first `n` state words produced from `seed`.
pub open spec fn mt_seed_state(seed: u32, n: int) -> Seq<u32>
    decreases n,
{
    if n <= 0 {
        Seq::empty()
    } else if n == 1 {
        seq![seed]
    } else {
        let p = mt_seed_state(seed, n - 1);
        p.push(mt_seed_step(p.last(), (n - 1) as u32))
    }
}

/// The twist: the new state word at position `i`, combining the top bit
/// of word `i`, the low bits of the following word, and the word 397
/// places ahead.
pub open spec fn mt_twist(s: Seq<u32>, i: int) -> u32 {
    let x = (s[i] & 0x8000_0000) | (s[(i + 1) % 624] & 0x7fff_ffff);
    let xa = if x & 1 == 1 {
        (x >> 1u32) ^ 0x9908_b0df
    } else {
        x >> 1u32
    };
    s[(i + 397) % 624] ^ xa
}

/// The tempering transform applied to an output word.
pub open spec fn mt_temper(x: u32) -> u32 {
    let y1 = x ^ ((x >> 11u32) & 0xffff_ffff);
    let y2 = y1 ^ ((y1 << 7u32) & 0x9d2c_5680);
    let y3 = y2 ^ ((y2 << 15u32) & 0xefc6_0000);
    y3 ^ (y3 >> 18u32)
}

/// The generator: 624 words of state and the cursor of the next word to
/// twist.
pub struct Mt19937 {
    pub state: Vec<u32>,
    pub i: usize,
}

impl Mt19937 {
    /// Full state, cursor in range.
    pub open spec fn wf(self) -> bool {
        &&& self.state@.len() == 624
        &&& self.i < 624
    }

    /// A generator seeded by the standard recurrence.
    pub fn new(seed: u32) -> (r: Mt19937)
        ensures
            r.wf(),
            r.state@ == mt_seed_state(seed, 624),
            r.i == 0,
    {
        let mut state: Vec<u32> = Vec::new();
        state.push(seed);
        let mut j: u32 = seed;
        let mut i: usize = 1;
        while i < 624
            invariant
                1 <= i <= 624,
                state@.len() == i,
                state@ == mt_seed_state(seed, i as int),
                j == state@.last(),
            decreases 624 - i,
        {
            j = 1812433253u32.wrapping_mul(j ^ (j >> 30u32)).wrapping_add(i as u32);
            proof {
                assert(j == mt_seed_step(state@.last(), i as u32));
            }
            state.push(j);
            proof {
                assert(state@ =~= mt_seed_state(seed, i as int + 1));
            }
            i = i + 1;
        }
        Mt19937 { state, i: 0 }
    }

    /// The next pseudo-random word: twists the word under the cursor,
    /// stores it, advances the cursor, and returns the tempered word.
    pub fn next(&mut self) -> (r: u32)
        requires
            old(self).wf(),
        ensures
            final(self).wf(),
            r == mt_temper(mt_twist(old(self).state@, old(self).i as int)),
            final(self).state@ == old(self).state@.update(
                old(self).i as int,
                mt_twist(old(self).state@, old(self).i as int),
            ),
            final(self).i == (old(self).i + 1) % 624,
    {
        let x0 = (self.state[self.i] & 0x8000_0000) | (self.state[(self.i + 1) % 624]
            & 0x7fff_ffff);
        let xa = if x0 & 1 == 1 {
            (x0 >> 1u32) ^ 0x9908_b0df
        } else {
            x0 >> 1u32
        };
        let x = self.state[(self.i + 397) % 624] ^ xa;
        self.state[self.i] = x;
        self.i = (self.i + 1) % 624;
        let y1 = x ^ ((x >> 11u32) & 0xffff_ffff);
        let y2 = y1 ^ ((y1 << 7u32) & 0x9d2c_5680);
        let y3 = y2 ^ ((y2 << 15u32) & 0xefc6_0000);
        y3 ^ (y3 >> 18u32)
    }
}

} // verus!
