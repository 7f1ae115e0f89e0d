//! A linear congruential generator and the distributions drawn from it, in
//! fixed-point numbers.

use vstd::prelude::*;

verus! {

/// The multiplier of the generator.
pub const MULTIPLIER: u64 = 1_000_003;

/// The increment of the generator.
pub const INCREMENT: u64 = 314_159;

/// The modulus of the generator.
pub const MODULUS: u64 = 507_961;

/// The number that stands for 1 in the fixed-point values of this module:
/// a value `v` stands for `v / 16384`.
pub const ONE: i32 = 16384;

/// The number of bins of a histogram.
pub const BIN_COUNT: usize = 20;

/// The state that follows `state`.
pub open spec fn next_state(state: nat) -> nat {
    ((MULTIPLIER * state + INCREMENT) % (MODULUS as int)) as nat
}

/// The state after `draws` numbers were drawn from a generator in the state
/// `state`.
pub open spec fn state_after(state: nat, draws: nat) -> nat
    decreases draws,
{
    if draws == 0 {
        state
    } else {
        next_state(state_after(state, (draws - 1) as nat))
    }
}

/// Among the first `upto` values at most `upto` fall into one bin.
pub proof fn lemma_count_in_bin_bound(values: Seq<i32>, bin: int, upto: int)
    ensures
        count_in_bin(values, bin, upto) <= if upto < 0 {
            0
        } else {
            upto
        },
    decreases upto,
{
    if upto > 0 {
        lemma_count_in_bin_bound(values, bin, upto - 1);
    }
}

/// The uniform value that a draw `state` gives: its low ten bits, as a
/// number of 1024ths, stretched from `0..1` to `-1..1`.
pub open spec fn uniform_of(state: nat) -> int {
    ((state % 1024) * 2 - 1024) * 16
}

/// The triangular value that two draws give: the low fourteen bits of the
/// second less those of the first, as a number of 16384ths.
pub open spec fn triangle_of(first: nat, second: nat) -> int {
    (second % 16384) - (first % 16384)
}

/// The bin of a histogram of `BIN_COUNT` bins over `-1..1` that the value
/// `value` falls into; values outside count for the outermost bins.
pub open spec fn bin_of(value: int) -> int {
    let bin = ((value + ONE) * 20) / 32768;
    if bin < 0 {
        0
    } else if bin > 19 {
        19
    } else {
        bin
    }
}

/// The number of values among the first `upto` of `values` that fall into
/// the bin `bin`.
pub open spec fn count_in_bin(values: Seq<i32>, bin: int, upto: int) -> nat
    decreases upto,
{
    if upto <= 0 {
        0
    } else {
        count_in_bin(values, bin, upto - 1) + if bin_of(values[upto - 1] as int) == bin {
            1nat
        } else {
            0nat
        }
    }
}

/// A linear congruential generator of pseudo-random numbers.
pub struct PseudoRandom {
    sequence: u64,
}

impl PseudoRandom {
    /// The state of the generator: the seed, or the last number drawn.
    pub closed spec fn state(&self) -> nat {
        self.sequence as nat
    }

    pub fn new(seed: u64) -> (generator: Self)
        ensures
            generator.state() == seed,
    {
        Self { sequence: seed }
    }

    /// Draws a value of the uniform distribution on `-1..1`, in 16384ths.
    pub fn uniform(&mut self) -> (value: i32)
        ensures
            final(self).state() == next_state(old(self).state()),
            value == uniform_of(final(self).state()),
            -ONE <= value < ONE,
    {
        let draw = self.rand();
        assert(draw & 1023 == draw % 1024) by (bit_vector);
        (((draw & 1023) as i32) * 2 - 1024) * 16
    }

    /// Draws a value of the triangular distribution on `-1..1`, in 16384ths:
    /// the sum of a uniform value on `-1..0` and one on `0..1`.
    pub fn triangle(&mut self) -> (value: i32)
        ensures
            final(self).state() == next_state(next_state(old(self).state())),
            value == triangle_of(next_state(old(self).state()), final(self).state()),
            -ONE < value < ONE,
    {
        let first = self.rand();
        let second = self.rand();
        assert(first & 16383 == first % 16384) by (bit_vector);
        assert(second & 16383 == second % 16384) by (bit_vector);
        let a = (first & 16383) as i32;
        let b = (second & 16383) as i32;
        b - a
    }

    /// Draws the next number: the state times `MULTIPLIER` plus `INCREMENT`,
    /// modulo `MODULUS`.
    pub fn rand(&mut self) -> (draw: u64)
        ensures
            final(self).state() == next_state(old(self).state()),
            draw == final(self).state(),
            draw < MODULUS,
    {
        let state = self.sequence as u128;
        assert(1_000_003 * state <= 1_000_003 * 0xffff_ffff_ffff_ffff) by (nonlinear_arith)
            requires
                state <= 0xffff_ffff_ffff_ffff,
        ;
        let wide = (MULTIPLIER as u128) * state + (INCREMENT as u128);
        self.sequence = (wide % (MODULUS as u128)) as u64;
        self.sequence
    }
}

/// `N` values drawn from a distribution on `-1..1`, in 16384ths.
pub struct NoiseDistribution<const N: usize> {
    values: [i32; N],
}

impl<const N: usize> NoiseDistribution<N> {
    /// The values drawn, in the order they were drawn.
    pub closed spec fn spec_values(&self) -> Seq<i32> {
        self.values@
    }

    /// `N` uniform values from a generator seeded with 123.
    pub fn uniform() -> (noise: Self)
        ensures
            noise.spec_values().len() == N,
            forall|i: int|
                0 <= i < N ==> #[trigger] noise.spec_values()[i] == uniform_of(
                    state_after(123, (i + 1) as nat),
                ),
    {
        let mut values = [0i32; N];
        let mut generator = PseudoRandom::new(123);
        let mut i: usize = 0;
        while i < N
            invariant
                i <= N,
                values@.len() == N,
                generator.state() == state_after(123, i as nat),
                forall|j: int|
                    0 <= j < i ==> #[trigger] values@[j] == uniform_of(
                        state_after(123, (j + 1) as nat),
                    ),
            decreases N - i,
        {
            values[i] = generator.uniform();
            i += 1;
        }
        Self { values }
    }

    /// `N` triangular values from a generator seeded with 123.
    pub fn triangle() -> (noise: Self)
        ensures
            noise.spec_values().len() == N,
            forall|i: int|
                0 <= i < N ==> #[trigger] noise.spec_values()[i] == triangle_of(
                    state_after(123, (2 * i + 1) as nat),
                    state_after(123, (2 * i + 2) as nat),
                ),
    {
        let mut values = [0i32; N];
        let mut generator = PseudoRandom::new(123);
        let mut i: usize = 0;
        while i < N
            invariant
                i <= N,
                values@.len() == N,
                generator.state() == state_after(123, (2 * i) as nat),
                forall|j: int|
                    0 <= j < i ==> #[trigger] values@[j] == triangle_of(
                        state_after(123, (2 * j + 1) as nat),
                        state_after(123, (2 * j + 2) as nat),
                    ),
            decreases N - i,
        {
            proof {
                assert(state_after(123, (2 * i + 2) as nat) == next_state(
                    state_after(123, (2 * i + 1) as nat),
                ));
            }
            values[i] = generator.triangle();
            i += 1;
        }
        Self { values }
    }

    /// The values drawn, in the order they were drawn.
    pub fn values(&self) -> (values: &[i32; N])
        ensures
            values@ == self.spec_values(),
    {
        &self.values
    }

    /// The histogram of the values over `BIN_COUNT` bins of equal width on
    /// `-1..1`: for each bin the number of values that fall into it.
    pub fn histogram(&self) -> (frequencies: Vec<usize>)
        ensures
            frequencies@.len() == BIN_COUNT,
            forall|bin: int|
                0 <= bin < BIN_COUNT ==> #[trigger] frequencies@[bin] == count_in_bin(
                    self.spec_values(),
                    bin,
                    N as int,
                ),
    {
        let mut frequencies: Vec<usize> = Vec::new();
        while frequencies.len() < BIN_COUNT
            invariant
                frequencies@.len() <= BIN_COUNT,
                forall|bin: int| 0 <= bin < frequencies@.len() ==> #[trigger] frequencies@[bin] == 0,
            decreases BIN_COUNT - frequencies@.len(),
        {
            frequencies.push(0);
        }
        let mut i: usize = 0;
        while i < N
            invariant
                i <= N,
                self.values@.len() == N,
                frequencies@.len() == BIN_COUNT,
                forall|bin: int|
                    0 <= bin < BIN_COUNT ==> #[trigger] frequencies@[bin] == count_in_bin(
                        self.values@,
                        bin,
                        i as int,
                    ),
            decreases N - i,
        {
            proof {
                assert forall|bin: int| 0 <= bin < BIN_COUNT implies #[trigger] count_in_bin(
                    self.values@,
                    bin,
                    i as int,
                ) <= i by {
                    lemma_count_in_bin_bound(self.values@, bin, i as int);
                }
            }
            let value = self.values[i] as i64;
            let scaled = (value + ONE as i64) * 20;
            let idx: usize = if scaled < 0 {
                0
            } else if scaled / 32768 > 19 {
                19
            } else {
                (scaled / 32768) as usize
            };
            frequencies[idx] = frequencies[idx] + 1;
            i += 1;
        }
        frequencies
    }
}

} // verus!
