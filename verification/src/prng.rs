//! A small linear-congruential pseudo-random generator.  Given a fixed seed
//! the whole stream is deterministic, which the contracts pin down exactly;
//! only `randomize` draws on the clock and promises nothing about the seed
//! it picks.

use vstd::prelude::*;

verus! {

/// The modulus of the generator: draws lie in `[0, 2^31)`.
pub const PRNG_MODULUS: u64 = 0x8000_0000;

pub struct Prng {
    pub seed: u32,
}

/// The successor of a seed: one linear-congruential step, reduced into
/// `[0, 2^31)`.
pub open spec fn next_seed(s: u32) -> u32 {
    ((s * 1103515245 + 12345) % 0x8000_0000) as u32
}

/// Relies on std::time::SystemTime::now, read as milliseconds since the
/// Unix epoch; used only to scatter the seed, so nothing is promised of
/// the result.  A clock before the epoch is read as zero rather than
/// letting `duration_since` fail.
#[verifier::external_body]
fn millis_now() -> u64 {
    match std::time::SystemTime::now().duration_since(std::time::UNIX_EPOCH) {
        Ok(d) => d.as_millis() as u64,
        Err(_) => 0,
    }
}

impl Prng {
    /// A generator seeded from the clock.
    pub fn new() -> (prng: Prng) {
        let mut prng = Prng { seed: 0 };
        prng.randomize();
        prng
    }

    /// Scatter the seed from the clock; nothing is promised of the value.
    pub fn randomize(&mut self) {
        let millis = millis_now();
        self.seed = (millis % 0x1_0000_0000) as u32;
    }

    /// One step of the generator: a pseudo-random value in `[0, 2^31)`.
    pub fn next_u32(&mut self) -> (r: u32)
        ensures
            r == next_seed(old(self).seed),
            final(self).seed == r,
            r < PRNG_MODULUS,
    {
        let stepped: u64 = self.seed as u64 * 1103515245 + 12345;
        let reduced: u64 = stepped % 0x8000_0000;
        self.seed = reduced as u32;
        self.seed
    }

    /// A pseudo-random value in `[min, max)`: the next draw scaled into the
    /// requested range.
    pub fn next_i32(&mut self, min: i32, max: i32) -> (r: i32)
        requires
            min < max,
        ensures
            min <= r < max,
            final(self).seed == next_seed(old(self).seed),
            r == min + (next_seed(old(self).seed) * (max - min)) / (PRNG_MODULUS as int),
    {
        let draw = self.next_u32();
        let range: i64 = max as i64 - min as i64;
        proof {
            lemma_scaled_product_fits(draw as int, range as int);
        }
        let offset: i64 = (draw as i64 * range) / 0x8000_0000;
        proof {
            lemma_scaled_draw_in_range(draw as int, range as int);
        }
        (min as i64 + offset) as i32
    }

    /// A pseudo-random value in `[min, max)`, for ranges of at most `2^32`.
    pub fn next_i64(&mut self, min: i64, max: i64) -> (r: i64)
        requires
            min < max,
            max - min <= 0x1_0000_0000,
        ensures
            min <= r < max,
            final(self).seed == next_seed(old(self).seed),
            r == min + (next_seed(old(self).seed) * (max - min)) / (PRNG_MODULUS as int),
    {
        let draw = self.next_u32();
        let range: i64 = max - min;
        proof {
            lemma_scaled_product_fits(draw as int, range as int);
        }
        let offset: i64 = (draw as i64 * range) / 0x8000_0000;
        proof {
            lemma_scaled_draw_in_range(draw as int, range as int);
        }
        min + offset
    }
}

/// The product of a draw below `2^31` and a range of at most `2^32` fits in
/// an `i64`.
proof fn lemma_scaled_product_fits(draw: int, range: int)
    requires
        0 <= draw < 0x8000_0000,
        1 <= range <= 0x1_0000_0000,
    ensures
        0 <= draw * range <= 0x7fff_ffff * 0x1_0000_0000,
{
    assert(draw * range >= 0) by (nonlinear_arith)
        requires
            draw >= 0,
            range >= 1,
    ;
    assert(draw * range <= 0x7fff_ffff * 0x1_0000_0000) by (nonlinear_arith)
        requires
            0 <= draw <= 0x7fff_ffff,
            1 <= range <= 0x1_0000_0000,
    ;
}

/// Scaling a draw from `[0, 2^31)` by `range / 2^31` lands in `[0, range)`.
proof fn lemma_scaled_draw_in_range(draw: int, range: int)
    requires
        0 <= draw < 0x8000_0000,
        1 <= range,
    ensures
        0 <= (draw * range) / 0x8000_0000 < range,
{
    assert(draw * range >= 0) by (nonlinear_arith)
        requires
            draw >= 0,
            range >= 1,
    ;
    assert(draw * range < 0x8000_0000 * range) by (nonlinear_arith)
        requires
            0 <= draw < 0x8000_0000,
            range >= 1,
    ;
    vstd::arithmetic::div_mod::lemma_div_pos_is_pos(draw * range, 0x8000_0000);
    vstd::arithmetic::div_mod::lemma_multiply_divide_lt(draw * range, 0x8000_0000, range);
}

/// A vector of `num_items` pseudo-random values in `[0, max)`, drawn from a
/// clock-seeded generator.
pub fn make_random_vec(num_items: usize, max: i32) -> (v: Vec<i32>)
    requires
        0 < max,
    ensures
        v@.len() == num_items,
        forall|i: int| 0 <= i < v@.len() ==> 0 <= #[trigger] v@[i] < max,
{
    let mut prng = Prng::new();
    let mut v: Vec<i32> = Vec::with_capacity(num_items);
    let mut k: usize = 0;
    while k < num_items
        invariant
            k <= num_items,
            v@.len() == k,
            forall|i: int| 0 <= i < v@.len() ==> 0 <= #[trigger] v@[i] < max,
            0 < max,
        decreases num_items - k,
    {
        v.push(prng.next_i32(0, max));
        k = k + 1;
    }
    v
}

} // verus!
