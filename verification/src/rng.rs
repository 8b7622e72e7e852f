//! The deterministic random stream of the radiosity bake: a 64-bit linear
//! congruential generator whose state is scrambled by a xor-shift-multiply
//! finaliser on the way out.
use vstd::prelude::*;
use vstd::arithmetic::div_mod::{lemma_add_mod_noop, lemma_mod_bound, lemma_small_mod};

verus! {

/// `2^64`.
pub open spec fn two_pow_64() -> int {
    0x1_0000_0000_0000_0000
}

/// The state after one step: `state * 6364136223846793005 + 1442695040888963407`
/// modulo `2^64`.
pub open spec fn advance(state: u64) -> u64 {
    ((state as int * 6364136223846793005int + 1442695040888963407int) % two_pow_64()) as u64
}

/// One finaliser round: `(x ^ (x >> 33)) * k` modulo `2^64`.
pub open spec fn scramble(x: u64, k: u64) -> u64 {
    (((x ^ (x >> 33u64)) as int * k as int) % two_pow_64()) as u64
}

/// The number handed out for a state.
pub open spec fn output(state: u64) -> u64 {
    let r = scramble(scramble(state, 0xff51_afd7_ed55_8ccd), 0xc4ce_b9fe_1a85_ec53);
    r ^ (r >> 33u64)
}

/// The starting state for a seed: `seed + 0x9E3779B97F4A7C15` modulo `2^64`.
pub open spec fn initial_state(seed: u64) -> u64 {
    ((seed as int + 0x9E37_79B9_7F4A_7C15int) % two_pow_64()) as u64
}

/// The seed of patch `patch`'s stream: `seed + patch * 0x9E3779B9`
/// modulo `2^64`.
pub open spec fn patch_seed_spec(seed: u64, patch: u64) -> u64 {
    ((seed as int + patch as int * 0x9E37_79B9int) % two_pow_64()) as u64
}

/// A generator of 64-bit numbers.
pub struct Rng(u64);

impl View for Rng {
    type V = u64;

    closed spec fn view(&self) -> u64 {
        self.0
    }
}

proof fn lemma_wrapping_add_is_mod(x: u64, y: u64)
    ensures
        x.wrapping_add(y) == ((x as int + y as int) % two_pow_64()) as u64,
{
    if x as int + y as int >= two_pow_64() {
        lemma_small_mod((x as int + y as int - two_pow_64()) as nat, two_pow_64() as nat);
        assert((x as int + y as int) % two_pow_64() == (x as int + y as int - two_pow_64())
            % two_pow_64()) by {
            vstd::arithmetic::div_mod::lemma_mod_sub_multiples_vanish(
                x as int + y as int,
                two_pow_64(),
            );
        }
    } else {
        lemma_small_mod((x as int + y as int) as nat, two_pow_64() as nat);
    }
}

impl Rng {
    /// A generator whose stream is fixed by `seed`.
    pub fn new(seed: u64) -> (rng: Self)
        ensures
            rng@ == initial_state(seed),
    {
        proof {
            lemma_wrapping_add_is_mod(seed, 0x9E37_79B9_7F4A_7C15);
        }
        Rng(seed.wrapping_add(0x9E37_79B9_7F4A_7C15))
    }

    /// Steps the state and hands out the scrambled new state.
    pub fn next_u64(&mut self) -> (r: u64)
        ensures
            final(self)@ == advance(old(self)@),
            r == output(final(self)@),
    {
        let s = self.0;
        let m = s.wrapping_mul(6_364_136_223_846_793_005);
        proof {
            lemma_wrapping_add_is_mod(m, 1_442_695_040_888_963_407);
            lemma_add_mod_noop(
                s as int * 6364136223846793005int,
                1442695040888963407int,
                two_pow_64(),
            );
            lemma_small_mod(1442695040888963407nat, two_pow_64() as nat);
            lemma_mod_bound(s as int * 6364136223846793005int, two_pow_64());
        }
        self.0 = m.wrapping_add(1_442_695_040_888_963_407);
        let r = self.0;
        let r = (r ^ (r >> 33)).wrapping_mul(0xff51_afd7_ed55_8ccd);
        let r = (r ^ (r >> 33)).wrapping_mul(0xc4ce_b9fe_1a85_ec53);
        r ^ (r >> 33)
    }

    /// The top 24 bits of the next number: the integer that a uniform float
    /// in `[0, 1)` is made from, in steps of `2^-24`.
    pub fn next_unit_bits(&mut self) -> (bits: u32)
        ensures
            final(self)@ == advance(old(self)@),
            bits == output(final(self)@) >> 40u64,
            bits < 0x100_0000,
    {
        let r = self.next_u64();
        proof {
            assert(r >> 40u64 < 0x100_0000) by (bit_vector);
        }
        (r >> 40) as u32
    }
}

/// The seed of the stream that samples patch `patch`.
pub fn patch_seed(seed: u64, patch: u64) -> (s: u64)
    requires
        patch * 0x9E37_79B9 <= u64::MAX,
    ensures
        s == patch_seed_spec(seed, patch),
{
    proof {
        lemma_wrapping_add_is_mod(seed, (patch * 0x9E37_79B9) as u64);
    }
    seed.wrapping_add(patch * 0x9E37_79B9)
}

} // verus!
