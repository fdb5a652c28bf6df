use vstd::prelude::*;

verus! {

/// Odd multiplier used to diffuse bits in the mixing step.
pub const MIX_MUL: u64 = 0x5DEECE66D;

/// The inverse of `MIX_MUL` modulo 2^64.
pub const MIX_MUL_INV: u64 = 0x7b13dfe05bcb1365;

/// Little-endian value of the eight bytes of `b` starting at `at`.
pub open spec fn le_word(b: Seq<u8>, at: int) -> int {
    b[at] + 256 * b[at + 1] + 0x1_0000 * b[at + 2] + 0x100_0000 * b[at + 3] + 0x1_0000_0000 * b[
        at + 4] + 0x100_0000_0000 * b[at + 5] + 0x1_0000_0000_0000 * b[at + 6]
        + 0x100_0000_0000_0000 * b[at + 7]
}

/// The counter value reached from `c` after `j` increments, wrapping at 2^64.
pub open spec fn after(c: u64, j: int) -> u64 {
    ((c as int + j) % 0x1_0000_0000_0000_0000) as u64
}

/// The word the generator keyed by `(k0, k1)` outputs for counter value `c`.
/// Every step is invertible: adding and xoring the key, a left xorshift, a
/// multiplication by an odd constant and a right xorshift.
pub open spec fn mix(k0: u64, k1: u64, c: u64) -> u64 {
    let a = vstd::wrapping::u64_specs::wrapping_add(k0, c) ^ k1;
    let b = a ^ (a << 13u64);
    let m = vstd::wrapping::u64_specs::wrapping_mul(b, MIX_MUL);
    m ^ (m >> 17u64)
}

/// Words at or above this bound are rejected when sampling from `[0, n)`:
/// below it every residue modulo `n` occurs equally often.
pub open spec fn accept_bound(n: u64) -> u64
    recommends
        n > 0,
{
    (u64::MAX - u64::MAX % n) as u64
}

/// One call of `gen_range(n)` on a generator keyed by `(k0, k1)` moves its counter
/// from `from` to `to` and returns `r`: the draws are the words for the counter
/// values after `from`, the first one below the bound is accepted and reduced
/// modulo `n`. With `n == 0` nothing is drawn and the result is 0.
pub open spec fn range_draw(k0: u64, k1: u64, from: u64, to: u64, n: nat, r: nat) -> bool {
    if n == 0 {
        to == from && r == 0
    } else {
        exists|d: int|
            #![trigger after(from, d)]
            1 <= d && to == after(from, d) && mix(k0, k1, to) < accept_bound(n as u64) && (
            forall|j: int|
                #![trigger after(from, j)]
                1 <= j < d ==> mix(k0, k1, after(from, j)) >= accept_bound(n as u64))
                && r == mix(k0, k1, to) as nat % n
    }
}

/// Keyed counter-mode generator: every draw advances the counter by one and
/// outputs the mixed value of key and counter.
pub struct SecureRng {
    key: [u64; 2],
    counter: u64,
}

impl SecureRng {
    /// First key word.
    pub closed spec fn k0(&self) -> u64 {
        self.key@[0]
    }

    /// Second key word.
    pub closed spec fn k1(&self) -> u64 {
        self.key@[1]
    }

    /// Number of draws made so far, modulo 2^64.
    pub closed spec fn counter(&self) -> u64 {
        self.counter
    }

    /// A generator keyed by a 16-byte seed, read as two little-endian words,
    /// with its counter at 0.
    pub fn new(seed: [u8; 16]) -> (r: SecureRng)
        ensures
            r.k0() as int == le_word(seed@, 0),
            r.k1() as int == le_word(seed@, 8),
            r.counter() == 0,
    {
        let k0 = read_le_word(&seed, 0);
        let k1 = read_le_word(&seed, 8);
        SecureRng { key: [k0, k1], counter: 0 }
    }

    /// Advances the counter and returns the mixed word for its new value.
    pub fn next_u64(&mut self) -> (r: u64)
        ensures
            final(self).k0() == old(self).k0(),
            final(self).k1() == old(self).k1(),
            final(self).counter() == after(old(self).counter(), 1),
            r == mix(final(self).k0(), final(self).k1(), final(self).counter()),
    {
        self.counter = self.counter.wrapping_add(1);
        let mut x = self.key[0].wrapping_add(self.counter) ^ self.key[1];
        x = x ^ (x << 13u64);
        x = x.wrapping_mul(MIX_MUL);
        x = x ^ (x >> 17u64);
        x
    }

    /// A value in `[0, max)` by rejection sampling, free of modulo bias;
    /// 0 when `max` is 0.
    pub fn gen_range(&mut self, max: usize) -> (r: usize)
        ensures
            final(self).k0() == old(self).k0(),
            final(self).k1() == old(self).k1(),
            range_draw(
                old(self).k0(),
                old(self).k1(),
                old(self).counter(),
                final(self).counter(),
                max as nat,
                r as nat,
            ),
            max > 0 ==> r < max,
            max == 0 ==> r == 0,
    {
        if max == 0 {
            return 0;
        }
        let n = max as u64;
        let bound = u64::MAX - (u64::MAX % n);
        let ghost k0 = self.k0();
        let ghost k1 = self.k1();
        let ghost from = self.counter;
        let ghost target = vstd::wrapping::u64_specs::wrapping_sub(k1, k0);
        let ghost mut steps: int = 0;
        proof {
            lemma_mix_zero_at_target(k0, k1);
            lemma_after_zero(from);
        }
        loop
            invariant
                self.k0() == k0,
                self.k1() == k1,
                k0 == old(self).k0(),
                k1 == old(self).k1(),
                from == old(self).counter(),
                bound == accept_bound(n),
                bound > 0,
                n > 0,
                n == max,
                mix(k0, k1, target) == 0,
                0 <= steps,
                self.counter == after(from, steps),
                forall|j: int|
                    #![trigger after(from, j)]
                    1 <= j <= steps ==> mix(k0, k1, after(from, j)) >= bound,
            decreases distance(self.counter, target),
        {
            let ghost prev = self.counter;
            let val = self.next_u64();
            proof {
                lemma_after_step(from, steps);
                steps = steps + 1;
            }
            if val < bound {
                let r = (val % n) as usize;
                assert(range_draw(k0, k1, from, self.counter, max as nat, r as nat));
                return r;
            }
            proof {
                lemma_distance_step(prev, target);
            }
        }
    }
}

/// Steps left, counting from the counter value after `c`, until the counter
/// reaches `target`.
pub open spec fn distance(c: u64, target: u64) -> int {
    (target as int - c as int - 1) % 0x1_0000_0000_0000_0000
}

proof fn lemma_after_zero(c: u64)
    ensures
        after(c, 0) == c,
{
}

proof fn lemma_after_step(c: u64, j: int)
    requires
        0 <= j,
    ensures
        after(after(c, j), 1) == after(c, j + 1),
{
    let m: int = 0x1_0000_0000_0000_0000;
    vstd::arithmetic::div_mod::lemma_add_mod_noop(c as int + j, 1, m);
    vstd::arithmetic::div_mod::lemma_small_mod(1, m as nat);
    vstd::arithmetic::div_mod::lemma_mod_bound(c as int + j, m);
}

proof fn lemma_distance_step(c: u64, target: u64)
    requires
        after(c, 1) != target,
    ensures
        0 <= distance(after(c, 1), target) < distance(c, target),
{
}

/// The word drawn at counter value `k1 - k0` is 0, so every sampling loop
/// accepts within one period of the counter.
proof fn lemma_mix_zero_at_target(k0: u64, k1: u64)
    ensures
        mix(k0, k1, vstd::wrapping::u64_specs::wrapping_sub(k1, k0)) == 0,
{
    let t = vstd::wrapping::u64_specs::wrapping_sub(k1, k0);
    assert(vstd::wrapping::u64_specs::wrapping_add(k0, t) == k1);
    assert(k1 ^ k1 == 0) by (bit_vector);
    let b: u64 = 0;
    assert(b ^ (b << 13u64) == 0u64) by (bit_vector)
        requires
            b == 0u64,
    ;
    assert(vstd::wrapping::u64_specs::wrapping_mul(0, MIX_MUL) == 0);
    assert(b ^ (b >> 17u64) == 0u64) by (bit_vector)
        requires
            b == 0u64,
    ;
}

proof fn lemma_xorshift_left_injective(a: u64, b: u64)
    requires
        a ^ (a << 13u64) == b ^ (b << 13u64),
    ensures
        a == b,
{
    assert(a ^ (a << 13u64) == b ^ (b << 13u64) ==> a == b) by (bit_vector);
}

proof fn lemma_xorshift_right_injective(a: u64, b: u64)
    requires
        a ^ (a >> 17u64) == b ^ (b >> 17u64),
    ensures
        a == b,
{
    assert(a ^ (a >> 17u64) == b ^ (b >> 17u64) ==> a == b) by (bit_vector);
}

proof fn lemma_mul_undo(a: u64)
    ensures
        vstd::wrapping::u64_specs::wrapping_mul(
            vstd::wrapping::u64_specs::wrapping_mul(a, MIX_MUL),
            MIX_MUL_INV,
        ) == a,
{
    let m: int = 0x1_0000_0000_0000_0000;
    let x = (a as int * MIX_MUL as int) % m;
    vstd::arithmetic::div_mod::lemma_mul_mod_noop_left(a as int * MIX_MUL as int, MIX_MUL_INV as int, m);
    assert(MIX_MUL as int * MIX_MUL_INV as int == 1 + 12122620065 * m);
    vstd::arithmetic::mul::lemma_mul_is_associative(a as int, MIX_MUL as int, MIX_MUL_INV as int);
    vstd::arithmetic::mul::lemma_mul_is_distributive_add(a as int, 1, 12122620065 * m);
    vstd::arithmetic::mul::lemma_mul_is_associative(a as int, 12122620065, m);
    vstd::arithmetic::div_mod::lemma_mod_multiples_vanish(a as int * 12122620065, a as int, m);
    vstd::arithmetic::div_mod::lemma_small_mod(a as nat, m as nat);
    vstd::arithmetic::div_mod::lemma_mod_bound(a as int * MIX_MUL as int, m);
}

/// For a fixed key, distinct counter values give distinct words: a
/// generator repeats no word until its counter wraps around.
pub proof fn lemma_mix_injective(k0: u64, k1: u64, c1: u64, c2: u64)
    requires
        c1 != c2,
    ensures
        mix(k0, k1, c1) != mix(k0, k1, c2),
{
    let a1 = vstd::wrapping::u64_specs::wrapping_add(k0, c1) ^ k1;
    let a2 = vstd::wrapping::u64_specs::wrapping_add(k0, c2) ^ k1;
    let b1 = a1 ^ (a1 << 13u64);
    let b2 = a2 ^ (a2 << 13u64);
    let m1 = vstd::wrapping::u64_specs::wrapping_mul(b1, MIX_MUL);
    let m2 = vstd::wrapping::u64_specs::wrapping_mul(b2, MIX_MUL);
    if mix(k0, k1, c1) == mix(k0, k1, c2) {
        lemma_xorshift_right_injective(m1, m2);
        lemma_mul_undo(b1);
        lemma_mul_undo(b2);
        lemma_xorshift_left_injective(a1, a2);
        let w1 = vstd::wrapping::u64_specs::wrapping_add(k0, c1);
        let w2 = vstd::wrapping::u64_specs::wrapping_add(k0, c2);
        assert(w1 ^ k1 == w2 ^ k1 ==> w1 == w2) by (bit_vector);
    }
}

/// Reads the little-endian word of `b` at offset `at`.
fn read_le_word(b: &[u8; 16], at: usize) -> (r: u64)
    requires
        at == 0 || at == 8,
    ensures
        r as int == le_word(b@, at as int),
{
    let mut r: u64 = b[at + 7] as u64;
    r = r * 256 + b[at + 6] as u64;
    r = r * 256 + b[at + 5] as u64;
    r = r * 256 + b[at + 4] as u64;
    r = r * 256 + b[at + 3] as u64;
    r = r * 256 + b[at + 2] as u64;
    r = r * 256 + b[at + 1] as u64;
    r = r * 256 + b[at] as u64;
    r
}

/// An index in `[0, max)` from a generator freshly keyed by `seed`.
pub fn random_idx(seed: [u8; 16], max: usize) -> (r: usize)
    ensures
        exists|to: u64|
            #[trigger] range_draw(
                le_word(seed@, 0) as u64,
                le_word(seed@, 8) as u64,
                0,
                to,
                max as nat,
                r as nat,
            ),
        max > 0 ==> r < max,
        max == 0 ==> r == 0,
{
    let mut rng = SecureRng::new(seed);
    let r = rng.gen_range(max);
    assert(range_draw(
        le_word(seed@, 0) as u64,
        le_word(seed@, 8) as u64,
        0,
        rng.counter(),
        max as nat,
        r as nat,
    ));
    r
}

} // verus!
