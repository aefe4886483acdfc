//! Random numbers for synthetic datasets and samples, and the rules of the
//! synthetic building dataset: buildings clustered around city centers, a few
//! metropolises among towns, mostly houses.
//!
//! Fully deterministic for a given seed (xorshift, no external RNG).

use vstd::prelude::*;

verus! {

/// xorshift64* — deterministic, dependency-free.
#[derive(Debug, Clone, Copy, PartialEq, Eq, Structural)]
pub struct Rng {
    state: u64,
}

/// The state that follows a state.
pub open spec fn next_state(x: u64) -> u64 {
    let a = x ^ (x >> 12);
    let b = a ^ (a << 25);
    b ^ (b >> 27)
}

/// The number that a state gives.
pub open spec fn output_of(x: u64) -> u64 {
    ((x * 0x2545F4914F6CDD1D) % 0x1_0000_0000_0000_0000) as u64
}

impl View for Rng {
    type V = u64;

    closed spec fn view(&self) -> u64 {
        self.state
    }
}

impl Rng {
    pub fn new(seed: u64) -> (r: Rng)
        ensures
            r@ == if seed == 0 {
                1
            } else {
                seed
            },
    {
        if seed == 0 {
            Rng { state: 1 }
        } else {
            Rng { state: seed }
        }
    }

    pub fn next_u64(&mut self) -> (n: u64)
        ensures
            final(self)@ == next_state(old(self)@),
            n == output_of(next_state(old(self)@)),
    {
        let mut x: u64 = self.state;
        x = x ^ (x >> 12);
        x = x ^ (x << 25);
        x = x ^ (x >> 27);
        self.state = x;
        x.wrapping_mul(0x2545F4914F6CDD1D)
    }

    /// A number below two to the power of 53: as that many parts of one it is
    /// uniform in [0, 1).
    pub fn next_fraction(&mut self) -> (n: u64)
        ensures
            final(self)@ == next_state(old(self)@),
            n == output_of(next_state(old(self)@)) / 0x800,
            n < 0x20_0000_0000_0000,
    {
        let x: u64 = self.next_u64();
        x / 0x800
    }
}

/// The state never becomes zero, where the generator would be stuck.
pub proof fn law_state_stays_nonzero(x: u64)
    requires
        x != 0,
    ensures
        next_state(x) != 0,
{
    let a = x ^ (x >> 12);
    let b = a ^ (a << 25);
    assert(x != 0 ==> (x ^ (x >> 12)) != 0) by (bit_vector);
    assert(a != 0 ==> (a ^ (a << 25)) != 0) by (bit_vector);
    assert(b != 0 ==> (b ^ (b >> 27)) != 0) by (bit_vector);
}

/// The factor of the output has an inverse, so that only the state zero gives
/// the number zero.
proof fn lemma_output_nonzero(x: u64)
    requires
        x != 0,
    ensures
        output_of(x) != 0,
{
    let word: int = 0x1_0000_0000_0000_0000;
    let factor: int = 0x2545F4914F6CDD1D;
    let inverse: int = 0x59071D96D81ECD35;
    let over: int = 0xCF65B3F17BF4A6B;
    assert(factor * inverse == 1 + over * word);
    if (x * factor) % word == 0 {
        let times = (x * factor) / word;
        assert(x * factor == times * word);
        assert(x == (times * inverse - x * over) * word) by (nonlinear_arith)
            requires
                x * factor == times * word,
                factor * inverse == 1 + over * word,
        ;
        let rest = times * inverse - x * over;
        assert(x == rest * word);
        assert(rest == 0) by (nonlinear_arith)
            requires
                x == rest * word,
                0 <= x < word,
                word > 0,
        ;
    }
}

/// The state of a generator with this seed after `n` numbers.
pub open spec fn state_after(seed: u64, n: nat) -> u64
    decreases n,
{
    if n == 0 {
        if seed == 0 {
            1
        } else {
            seed
        }
    } else {
        next_state(state_after(seed, (n - 1) as nat))
    }
}

/// No number of a generator is zero, whatever its seed.
pub proof fn law_no_output_is_zero(seed: u64, n: nat)
    ensures
        state_after(seed, n) != 0,
        output_of(state_after(seed, n)) != 0,
    decreases n,
{
    if n > 0 {
        law_no_output_is_zero(seed, (n - 1) as nat);
        law_state_stays_nonzero(state_after(seed, (n - 1) as nat));
    }
    lemma_output_nonzero(state_after(seed, n));
}

/// Whether city `i` of so many is a metropolis: one more than an eighth of
/// them are.
pub fn is_metro(i: u32, cities: u32) -> (r: bool)
    ensures
        r == (i <= cities / 8),
{
    i < cities / 8 + 1
}

/// What a synthetic building is.
#[derive(Debug, Clone, Copy, PartialEq, Eq, Structural)]
pub enum BuildingKind {
    House,
    Mid,
    Large,
}

/// The first fraction, in parts of two to the power of 53, that is not below
/// 0.90.
pub const MID_FROM: u64 = 8106479329266893;

/// The first fraction that is not below 0.99.
pub const LARGE_FROM: u64 = 8917127262193582;

/// The first fraction that is not below 0.3.
pub const PLAIN_FROM: u64 = 2702159776422298;

/// The kind for a random fraction.
pub open spec fn kind_for(fraction: u64) -> BuildingKind {
    if fraction < MID_FROM {
        BuildingKind::House
    } else if fraction < LARGE_FROM {
        BuildingKind::Mid
    } else {
        BuildingKind::Large
    }
}

/// Whether a footprint with this random fraction has a notch.
pub open spec fn is_notched(fraction: u64) -> bool {
    fraction < PLAIN_FROM
}

impl BuildingKind {
    /// The kind for a random fraction: mostly houses, some mid, few big-box.
    pub fn pick(fraction: u64) -> (k: BuildingKind)
        ensures
            k == kind_for(fraction),
    {
        if fraction < MID_FROM {
            BuildingKind::House
        } else if fraction < LARGE_FROM {
            BuildingKind::Mid
        } else {
            BuildingKind::Large
        }
    }

    /// The name of the kind in the dataset.
    pub fn name(&self) -> (n: String)
        ensures
            n@ == match *self {
                BuildingKind::House => "house"@,
                BuildingKind::Mid => "mid"@,
                BuildingKind::Large => "large"@,
            },
    {
        match self {
            BuildingKind::House => "house".to_owned(),
            BuildingKind::Mid => "mid".to_owned(),
            BuildingKind::Large => "large".to_owned(),
        }
    }
}

/// Whether a footprint with this random fraction gets an L-notch.
pub fn has_notch(fraction: u64) -> (r: bool)
    ensures
        r == is_notched(fraction),
{
    fraction < PLAIN_FROM
}

/// `n` is the number of parts of two to the power of 53 that is nearest to
/// `times` parts of `whole`.
pub open spec fn is_nearest_part(n: int, times: int, whole: int) -> bool {
    let want = times * 0x20_0000_0000_0000;
    2 * (whole * n - want) <= whole && 2 * (want - whole * n) <= whole
}

/// Nine buildings of ten are houses, and one of a hundred is large: the kind
/// changes at the fractions nearest to 0.90 and 0.99. Three of ten have a
/// notch.
pub proof fn law_shares_of_buildings(fraction: u64, mid: int, large: int, plain: int)
    requires
        is_nearest_part(mid, 9, 10),
        is_nearest_part(large, 99, 100),
        is_nearest_part(plain, 3, 10),
    ensures
        kind_for(fraction) == BuildingKind::House <==> fraction < mid,
        kind_for(fraction) == BuildingKind::Mid <==> mid <= fraction < large,
        kind_for(fraction) == BuildingKind::Large <==> large <= fraction,
        is_notched(fraction) <==> fraction < plain,
{
}

/// Different states are followed by different states, so that a generator
/// comes back to its first state before it repeats any other.
pub proof fn law_states_stay_apart(x: u64, y: u64)
    requires
        x != y,
    ensures
        next_state(x) != next_state(y),
{
    let a = x ^ (x >> 12);
    let c = y ^ (y >> 12);
    assert(x != y ==> (x ^ (x >> 12)) != (y ^ (y >> 12))) by (bit_vector);
    let b = a ^ (a << 25);
    let d = c ^ (c << 25);
    assert(a != c ==> (a ^ (a << 25)) != (c ^ (c << 25))) by (bit_vector);
    assert(b != d ==> (b ^ (b >> 27)) != (d ^ (d >> 27))) by (bit_vector);
}

} // verus!
