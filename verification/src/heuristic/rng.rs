//! The generator of pseudo-random numbers: xoshiro256** seeded by SplitMix64.

use crate::solution::BitSolution;
use vstd::prelude::*;

verus! {

/// The state of the generator.
#[derive(Debug, Clone, Copy)]
pub struct Rng {
    pub s0: u64,
    pub s1: u64,
    pub s2: u64,
    pub s3: u64,
}

/// The bits of `x` rotated left by 7.
pub open spec fn rotated_7(x: u64) -> u64 {
    (x << 7u64) | (x >> 57u64)
}

/// The bits of `x` rotated left by 45.
pub open spec fn rotated_45(x: u64) -> u64 {
    (x << 45u64) | (x >> 19u64)
}

/// One round of SplitMix64: the running value after `z`.
pub open spec fn mixed(z: u64) -> u64 {
    let a = z.wrapping_add(0x9e3779b97f4a7c15);
    let b = (a ^ (a >> 30u64)).wrapping_mul(0xbf58476d1ce4e5b9);
    (b ^ (b >> 27u64)).wrapping_mul(0x94d049bb133111eb)
}

/// The word that a running value gives.
pub open spec fn word(z: u64) -> u64 {
    z ^ (z >> 31u64)
}

/// The state that a seed gives.
pub open spec fn seeded(seed: u64) -> Rng {
    Rng {
        s0: word(mixed(seed)),
        s1: word(mixed(mixed(seed))),
        s2: word(mixed(mixed(mixed(seed)))),
        s3: word(mixed(mixed(mixed(mixed(seed))))),
    }
}

/// The number that a state gives.
pub open spec fn output(r: Rng) -> u64 {
    rotated_7(r.s1.wrapping_mul(5)).wrapping_mul(9)
}

/// The state after `r`.
pub open spec fn advanced(r: Rng) -> Rng {
    let s2 = r.s2 ^ r.s0;
    let s3 = r.s3 ^ r.s1;
    Rng {
        s0: r.s0 ^ s3,
        s1: r.s1 ^ s2,
        s2: s2 ^ (r.s1 << 17u64),
        s3: rotated_45(s3),
    }
}

/// The index below `n` that a state gives; zero for no choice.
pub open spec fn drawn(r: Rng, n: int) -> int {
    if n == 0 {
        0
    } else {
        output(r) as int % n
    }
}

/// The state after an index below `n` was drawn.
pub open spec fn after_draw(r: Rng, n: int) -> Rng {
    if n == 0 {
        r
    } else {
        advanced(r)
    }
}

/// The state after `k` numbers.
pub open spec fn advanced_by(r: Rng, k: nat) -> Rng
    decreases k,
{
    if k == 0 {
        r
    } else {
        advanced(advanced_by(r, (k - 1) as nat))
    }
}

fn mix(z: u64) -> (r: u64)
    ensures
        r == mixed(z),
{
    let a: u64 = z.wrapping_add(0x9e3779b97f4a7c15);
    let b: u64 = (a ^ (a >> 30u64)).wrapping_mul(0xbf58476d1ce4e5b9);
    (b ^ (b >> 27u64)).wrapping_mul(0x94d049bb133111eb)
}

impl Rng {
    /// A generator from a seed.
    pub fn new(seed: u64) -> (r: Self)
        ensures
            r == seeded(seed),
    {
        let z0: u64 = mix(seed);
        let z1: u64 = mix(z0);
        let z2: u64 = mix(z1);
        let z3: u64 = mix(z2);
        Rng {
            s0: z0 ^ (z0 >> 31u64),
            s1: z1 ^ (z1 >> 31u64),
            s2: z2 ^ (z2 >> 31u64),
            s3: z3 ^ (z3 >> 31u64),
        }
    }

    /// The next number.
    pub fn next_u64(&mut self) -> (r: u64)
        ensures
            r == output(*old(self)),
            *final(self) == advanced(*old(self)),
    {
        let m: u64 = self.s1.wrapping_mul(5);
        let result: u64 = ((m << 7u64) | (m >> 57u64)).wrapping_mul(9);
        let t: u64 = self.s1 << 17u64;
        self.s2 = self.s2 ^ self.s0;
        self.s3 = self.s3 ^ self.s1;
        self.s1 = self.s1 ^ self.s2;
        self.s0 = self.s0 ^ self.s3;
        self.s2 = self.s2 ^ t;
        self.s3 = (self.s3 << 45u64) | (self.s3 >> 19u64);
        result
    }

    /// An index below `n`; zero for no choice.
    pub fn index(&mut self, n: usize) -> (r: usize)
        ensures
            r == drawn(*old(self), n as int),
            n > 0 ==> r < n,
            *final(self) == after_draw(*old(self), n as int),
    {
        if n == 0 {
            return 0;
        }
        (self.next_u64() % (n as u64)) as usize
    }

    /// The upper 53 bits of the next number: a fraction in units of `2^-53`.
    pub fn uniform_bits(&mut self) -> (r: u64)
        ensures
            r == output(*old(self)) >> 11u64,
            r < 0x20_0000_0000_0000,
            *final(self) == advanced(*old(self)),
    {
        let x: u64 = self.next_u64();
        assert(x >> 11u64 < 0x20_0000_0000_0000) by (bit_vector);
        x >> 11u64
    }
}

/// The assignment that the next `n` numbers give: high where odd.
pub open spec fn random_bits(r: Rng, n: nat) -> Seq<bool> {
    Seq::new(n, |i: int| output(advanced_by(r, i as nat)) & 1 == 1)
}

/// A random assignment.
pub fn random_solution(n: usize, rng: &mut Rng) -> (r: BitSolution)
    ensures
        r@ == random_bits(*old(rng), n as nat),
        *final(rng) == advanced_by(*old(rng), n as nat),
{
    let ghost r0 = *rng;
    let mut bits: Vec<bool> = Vec::new();
    let mut i: usize = 0;
    while i < n
        invariant
            i <= n,
            *rng == advanced_by(r0, i as nat),
            bits@ == random_bits(r0, i as nat),
        decreases n - i,
    {
        let x: u64 = rng.next_u64();
        bits.push(x & 1 == 1);
        i += 1;
        assert(bits@ =~= random_bits(r0, i as nat));
    }
    BitSolution::from_bool_vec(bits)
}

/// The seed of a run: the given one, else the clock's.
pub fn base_seed(seed: Option<u64>, clock_nanos: u64) -> (r: u64)
    ensures
        r == (match seed {
            Some(s) => s,
            None => clock_nanos,
        }),
{
    match seed {
        Some(s) => s,
        None => clock_nanos,
    }
}

} // verus!
