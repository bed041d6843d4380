//! The scene drawn as fireworks: how many particles a level sets off, in which
//! order and tint, and the seeds of their scatter.

use crate::number::{Single, ONE};
use crate::render::{
    DrawMode, Rgba, BAR_VISIBLE, MAX_FIREWORK_PARTICLES_PER_BAND, MAX_INSTANCES,
};
use crate::spectrum::{all_levels, bar_total, Spectrum, SpectrumView};
use vstd::prelude::*;

verus! {

// ---------------------------------------------------------------- counts

/// The least levels at which `4 + 20 * level`, rounded to the nearest whole
/// number, reaches 5, 6, and so on up to 24.
pub open spec fn particle_steps() -> Seq<u32> {
    seq![
        0x3ccc_ccc6u32,
        0x3d99_9998,
        0x3dff_fffe,
        0x3e33_3333,
        0x3e66_6665,
        0x3e8c_cccc,
        0x3ea6_6666,
        0x3ebf_ffff,
        0x3ed9_9999,
        0x3ef3_3333,
        0x3f06_6666,
        0x3f13_3333,
        0x3f1f_ffff,
        0x3f2c_cccc,
        0x3f39_9999,
        0x3f46_6666,
        0x3f53_3333,
        0x3f60_0000,
        0x3f6c_cccc,
        0x3f79_9999,
    ]
}

/// The least levels at which `2 + 5 * level`, rounded to the nearest whole
/// number, reaches 3, 4, and so on up to 7.
pub open spec fn trail_steps() -> Seq<u32> {
    seq![0x3dcc_cccau32, 0x3e99_9999, 0x3eff_fffe, 0x3f33_3333, 0x3f66_6666]
}

/// How many steps a level has reached.
pub open spec fn reached(steps: Seq<u32>, level: Single) -> nat
    decreases steps.len(),
{
    if steps.len() == 0 {
        0
    } else if steps.last() <= level.bits {
        reached(steps.drop_last(), level) + 1
    } else {
        reached(steps.drop_last(), level)
    }
}

/// The particles of a burst: none below the visible level, else 4 to 24. A
/// pattern that stands for a negative number or for none at all (above that of
/// infinity) sets off nothing.
pub open spec fn particles_at(intensity: Single) -> nat {
    if intensity.bits <= BAR_VISIBLE || intensity.bits > 0x7f80_0000 {
        0
    } else {
        4 + reached(particle_steps(), intensity)
    }
}

/// The particles of the trail below a burst: 2 to 7.
pub open spec fn trail_at(intensity: Single) -> nat {
    2 + reached(trail_steps(), intensity)
}

proof fn lemma_reached_bound(steps: Seq<u32>, level: Single)
    ensures
        reached(steps, level) <= steps.len(),
    decreases steps.len(),
{
    if steps.len() > 0 {
        lemma_reached_bound(steps.drop_last(), level);
    }
}

proof fn lemma_reached_monotone(steps: Seq<u32>, a: Single, b: Single)
    requires
        a.bits <= b.bits,
    ensures
        reached(steps, a) <= reached(steps, b),
    decreases steps.len(),
{
    if steps.len() > 0 {
        lemma_reached_monotone(steps.drop_last(), a, b);
    }
}

fn count_reached(steps: &Vec<u32>, level: Single) -> (r: usize)
    ensures
        r == reached(steps@, level),
{
    let mut r: usize = 0;
    let mut i: usize = 0;
    while i < steps.len()
        invariant
            i <= steps@.len(),
            r == reached(steps@.take(i as int), level),
            r <= i,
        decreases steps@.len() - i,
    {
        assert(steps@.take(i + 1).drop_last() =~= steps@.take(i as int));
        if steps[i] <= level.bits {
            r += 1;
        }
        i += 1;
    }
    assert(steps@.take(i as int) =~= steps@);
    r
}

/// The number of particles that an intensity sets off.
pub fn firework_particle_count(intensity: Single) -> (r: usize)
    ensures
        r == particles_at(intensity),
        r <= MAX_FIREWORK_PARTICLES_PER_BAND,
{
    if intensity.bits <= BAR_VISIBLE || intensity.bits > 0x7f80_0000 {
        return 0;
    }
    let steps: Vec<u32> = vec![
        0x3ccc_ccc6,
        0x3d99_9998,
        0x3dff_fffe,
        0x3e33_3333,
        0x3e66_6665,
        0x3e8c_cccc,
        0x3ea6_6666,
        0x3ebf_ffff,
        0x3ed9_9999,
        0x3ef3_3333,
        0x3f06_6666,
        0x3f13_3333,
        0x3f1f_ffff,
        0x3f2c_cccc,
        0x3f39_9999,
        0x3f46_6666,
        0x3f53_3333,
        0x3f60_0000,
        0x3f6c_cccc,
        0x3f79_9999,
    ];
    assert(steps@ =~= particle_steps());
    proof {
        lemma_reached_bound(steps@, intensity);
    }
    4 + count_reached(&steps, intensity)
}

/// The number of trail particles of an intensity, which is at most one.
pub fn firework_trail_count(intensity: Single) -> (r: usize)
    requires
        intensity.bits <= ONE,
    ensures
        r == trail_at(intensity),
        r <= 7,
{
    let steps: Vec<u32> = vec![0x3dcc_ccca, 0x3e99_9999, 0x3eff_fffe, 0x3f33_3333, 0x3f66_6666];
    assert(steps@ =~= trail_steps());
    proof {
        lemma_reached_bound(steps@, intensity);
    }
    2 + count_reached(&steps, intensity)
}

// ---------------------------------------------------------------- seeds

/// A seed scattered over the whole range.
pub open spec fn scattered(seed: u32) -> u32 {
    let a = seed.wrapping_mul(0x7feb_352d);
    let b = (a ^ (a >> 15u32)).wrapping_mul(0x846c_a68b);
    b ^ (b >> 16u32)
}

/// Scattering loses nothing: the seed can be computed back, step by step, so no two
/// seeds are scattered to one place.
pub proof fn lemma_scatter_undone(seed: u32)
    ensures
        ({
            let y = scattered(seed);
            let b = y ^ (y >> 16u32);
            let x = b.wrapping_mul(0x4302_1123);
            let a = x ^ (x >> 15u32) ^ (x >> 30u32);
            a.wrapping_mul(0x1d69_e2a5) == seed
        }),
{
    let a = seed.wrapping_mul(0x7feb_352d);
    let x = a ^ (a >> 15u32);
    let b = x.wrapping_mul(0x846c_a68b);
    lemma_shift_undone(a, b);
    lemma_first_factor_undone(seed, a, a.wrapping_mul(0x1d69_e2a5));
    lemma_second_factor_undone(x, b, b.wrapping_mul(0x4302_1123));
}

proof fn lemma_shift_undone(a: u32, b: u32)
    ensures
        ({
            let x = a ^ (a >> 15u32);
            x ^ (x >> 15u32) ^ (x >> 30u32) == a
        }),
        ({
            let y = b ^ (b >> 16u32);
            y ^ (y >> 16u32) == b
        }),
{
    assert((a ^ (a >> 15u32)) ^ ((a ^ (a >> 15u32)) >> 15u32) ^ ((a ^ (a >> 15u32)) >> 30u32) == a)
        by (bit_vector);
    assert((b ^ (b >> 16u32)) ^ ((b ^ (b >> 16u32)) >> 16u32) == b) by (bit_vector);
}

proof fn lemma_first_factor_undone(x: u32, b: u32, back: u32)
    requires
        b == x * 0x7feb_352d % 0x1_0000_0000,
        back == b * 0x1d69_e2a5 % 0x1_0000_0000,
    ensures
        back == x,
{
    let whole = 0x7feb_352d * 0x1d69_e2a5int;
    assert(whole == whole / 0x1_0000_0000 * 0x1_0000_0000 + 1);
    lemma_factors_undone(x as int, 0x7feb_352d, 0x1d69_e2a5, b as int);
}

proof fn lemma_second_factor_undone(x: u32, b: u32, back: u32)
    requires
        b == x * 0x846c_a68b % 0x1_0000_0000,
        back == b * 0x4302_1123 % 0x1_0000_0000,
    ensures
        back == x,
{
    let whole = 0x846c_a68b * 0x4302_1123int;
    assert(whole == whole / 0x1_0000_0000 * 0x1_0000_0000 + 1);
    lemma_factors_undone(x as int, 0x846c_a68b, 0x4302_1123, b as int);
}

/// Two factors whose product leaves one undo each other.
proof fn lemma_factors_undone(x: int, p: int, q: int, b: int)
    requires
        0 <= x < 0x1_0000_0000,
        (p * q) % 0x1_0000_0000 == 1,
        b == (x * p) % 0x1_0000_0000,
    ensures
        (b * q) % 0x1_0000_0000 == x,
{
    let m = 0x1_0000_0000int;
    vstd::arithmetic::div_mod::lemma_mul_mod_noop(x * p, q, m);
    vstd::arithmetic::div_mod::lemma_mul_mod_noop(b, q, m);
    assert(b % m == b);
    vstd::arithmetic::mul::lemma_mul_is_associative(x, p, q);
    vstd::arithmetic::div_mod::lemma_mul_mod_noop(x, p * q, m);
    assert((x * p) * q == x * (p * q));
    assert(x % m == x);
}

/// Scatter a seed over the whole range.
pub fn hash_seed(seed: u32) -> (r: u32)
    ensures
        r == scattered(seed),
{
    let mut x: u32 = seed.wrapping_mul(0x7feb_352d);
    x = x ^ (x >> 15u32);
    x = x.wrapping_mul(0x846c_a68b);
    x ^ (x >> 16u32)
}

/// The seed that the particles of a bar start from.
pub open spec fn seed_base(bar: int) -> u32 {
    ((bar + 1) as u32).wrapping_mul(7919)
}

// ---------------------------------------------------------------- particles

/// The tint of a burst.
#[derive(Copy, Clone, Debug, PartialEq, Eq, Structural)]
pub enum Tint {
    Green,
    Gold,
    Red,
    Blue,
    Inbound,
    Outbound,
}

/// The parts of a tint: red, green, blue.
#[derive(Copy, Clone, Debug, PartialEq, Eq, Structural)]
pub struct Rgb {
    pub r: Single,
    pub g: Single,
    pub b: Single,
}

pub open spec fn rgb(r: u32, g: u32, b: u32) -> Rgb {
    Rgb { r: Single { bits: r }, g: Single { bits: g }, b: Single { bits: b } }
}

impl Tint {
    /// The parts: green (0.25, 1, 0.62), gold (1, 0.82, 0.24), red (1, 0.36,
    /// 0.28), blue (0.48, 0.78, 1), inbound (0.42, 0.92, 1), outbound (1, 0.62,
    /// 0.32).
    pub open spec fn parts(self) -> Rgb {
        match self {
            Tint::Green => rgb(0x3e80_0000, ONE, 0x3f1e_b852),
            Tint::Gold => rgb(ONE, 0x3f51_eb85, 0x3e75_c28f),
            Tint::Red => rgb(ONE, 0x3eb8_51ec, 0x3e8f_5c29),
            Tint::Blue => rgb(0x3ef5_c28f, 0x3f47_ae14, ONE),
            Tint::Inbound => rgb(0x3ed7_0a3d, 0x3f6b_851f, ONE),
            Tint::Outbound => rgb(ONE, 0x3f1e_b852, 0x3ea3_d70a),
        }
    }

    pub fn color(self) -> (c: Rgb)
        ensures
            c == self.parts(),
    {
        let (r, g, b): (u32, u32, u32) = match self {
            Tint::Green => (0x3e80_0000, ONE, 0x3f1e_b852),
            Tint::Gold => (ONE, 0x3f51_eb85, 0x3e75_c28f),
            Tint::Red => (ONE, 0x3eb8_51ec, 0x3e8f_5c29),
            Tint::Blue => (0x3ef5_c28f, 0x3f47_ae14, ONE),
            Tint::Inbound => (0x3ed7_0a3d, 0x3f6b_851f, ONE),
            Tint::Outbound => (ONE, 0x3f1e_b852, 0x3ea3_d70a),
        };
        Rgb { r: Single { bits: r }, g: Single { bits: g }, b: Single { bits: b } }
    }
}

/// The lesser of a number and one.
pub open spec fn up_to_one(x: Single) -> Single {
    x.clamp_spec(Single { bits: 0 }, Single { bits: ONE })
}

fn at_most_one(x: Single) -> (r: Single)
    requires
        x.is_number(),
    ensures
        r == up_to_one(x),
        r.bits <= ONE,
{
    x.clamp(Single { bits: 0 }, Single { bits: ONE })
}

/// The colour of a particle, from its mixed parts and its opacity: nothing is
/// above one.
pub fn firework_color(mix: Rgb, alpha: Single) -> (c: Rgba)
    requires
        mix.r.is_number(),
        mix.g.is_number(),
        mix.b.is_number(),
        alpha.is_number(),
    ensures
        c == (Rgba {
            r: up_to_one(mix.r),
            g: up_to_one(mix.g),
            b: up_to_one(mix.b),
            a: up_to_one(alpha),
        }),
        c.r.bits <= ONE,
        c.g.bits <= ONE,
        c.b.bits <= ONE,
        c.a.bits <= ONE,
{
    Rgba {
        r: at_most_one(mix.r),
        g: at_most_one(mix.g),
        b: at_most_one(mix.b),
        a: at_most_one(alpha),
    }
}

/// Which particle of a firework it is.
#[derive(Copy, Clone, Debug, PartialEq, Eq, Structural)]
pub enum Part {
    /// The particle at a place of the trail, out of so many.
    Trail(usize, usize),
    /// The core of the burst.
    Core,
    /// The particle at a place around the core, out of so many.
    Burst(usize, usize),
}

/// A particle to draw.
#[derive(Copy, Clone, Debug, PartialEq, Eq, Structural)]
pub struct Spark {
    pub bar: usize,
    pub intensity: Single,
    pub tint: Tint,
    pub part: Part,
    pub seed: u32,
    pub draw: DrawMode,
}

pub open spec fn spark(bar: int, intensity: Single, tint: Tint, part: Part, seed: u32) -> Spark {
    Spark { bar: bar as usize, intensity, tint, part, seed, draw: DrawMode::Particle }
}

pub open spec fn trail_spark(bar: int, intensity: Single, tint: Tint, i: int) -> Spark {
    spark(
        bar,
        intensity,
        tint,
        Part::Trail(i as usize, trail_at(intensity) as usize),
        seed_base(bar) ^ (i as u32),
    )
}

pub open spec fn core_spark(bar: int, intensity: Single, tint: Tint) -> Spark {
    spark(bar, intensity, tint, Part::Core, seed_base(bar) ^ 0xa5a5)
}

pub open spec fn burst_spark(bar: int, intensity: Single, tint: Tint, i: int) -> Spark {
    spark(
        bar,
        intensity,
        tint,
        Part::Burst(i as usize, particles_at(intensity) as usize),
        seed_base(bar) ^ ((i + 3) as u32).wrapping_mul(104_729),
    )
}

/// The firework of one bar: its trail, its core, then the particles around it;
/// nothing at all for a level that is not visible.
pub open spec fn burst(bar: int, intensity: Single, tint: Tint) -> Seq<Spark> {
    if particles_at(intensity) == 0 {
        Seq::empty()
    } else {
        Seq::new(trail_at(intensity), |i: int| trail_spark(bar, intensity, tint, i)).push(
            core_spark(bar, intensity, tint),
        ) + Seq::new(particles_at(intensity), |i: int| burst_spark(bar, intensity, tint, i))
    }
}

/// The intensity of a bar: its display value, at most one.
pub open spec fn intensity_of(v: SpectrumView, bar: int) -> Single {
    up_to_one(v.disp[bar])
}

/// The tint of a bar: the directions have their own in a mirrored spectrum, else
/// four tints take turns.
pub open spec fn tint_of(mirrored: bool, bar: int) -> Tint {
    if mirrored {
        if bar % 2 == 0 {
            Tint::Inbound
        } else {
            Tint::Outbound
        }
    } else if bar % 4 == 0 {
        Tint::Green
    } else if bar % 4 == 1 {
        Tint::Gold
    } else if bar % 4 == 2 {
        Tint::Red
    } else {
        Tint::Blue
    }
}

/// The fireworks of the first `bars` bars, in order.
pub open spec fn firework_scene(v: SpectrumView, bars: nat) -> Seq<Spark>
    decreases bars,
{
    if bars == 0 {
        Seq::empty()
    } else {
        let bar = bars - 1;
        firework_scene(v, bar as nat) + burst(bar, intensity_of(v, bar), tint_of(v.mirrored, bar))
    }
}

/// A frame of fireworks never fills up: 32 particles at most for each bar.
pub proof fn lemma_fireworks_size(v: SpectrumView, bars: nat)
    ensures
        firework_scene(v, bars).len() <= 32 * bars,
    decreases bars,
{
    if bars > 0 {
        lemma_fireworks_size(v, (bars - 1) as nat);
        let level = intensity_of(v, bars - 1);
        lemma_reached_bound(particle_steps(), level);
        lemma_reached_bound(trail_steps(), level);
    }
}

/// Every shape of the fireworks is a particle.
pub proof fn lemma_fireworks_particles(v: SpectrumView, bars: nat)
    ensures
        forall|i: int|
            0 <= i < firework_scene(v, bars).len() ==> (#[trigger] firework_scene(v, bars)[i]).draw
                == DrawMode::Particle,
    decreases bars,
{
    if bars > 0 {
        lemma_fireworks_particles(v, (bars - 1) as nat);
        let rest = firework_scene(v, (bars - 1) as nat);
        let last = burst(bars - 1, intensity_of(v, bars - 1), tint_of(v.mirrored, bars - 1));
        let all = firework_scene(v, bars);
        assert forall|i: int| 0 <= i < all.len() implies (#[trigger] all[i]).draw == DrawMode::Particle by {
            if i < rest.len() {
                assert(all[i] == rest[i]);
            } else {
                assert(all[i] == last[i - rest.len()]);
            }
        }
    }
}

/// How much a level sets off: nothing up to 0.002, else 4 to 24 particles around
/// the core, all 24 at full scale; and 2 to 7 in the trail, all 7 at full scale.
pub proof fn lemma_particle_range(level: Single)
    requires
        level.is_number(),
    ensures
        particles_at(level) == 0 <==> level.bits <= 0x3b03_126f,
        particles_at(level) > 0 ==> 4 <= particles_at(level) <= 24,
        2 <= trail_at(level) <= 7,
        level.bits >= 0x3f80_0000 ==> particles_at(level) == 24 && trail_at(level) == 7,
{
    lemma_reached_bound(particle_steps(), level);
    lemma_reached_bound(trail_steps(), level);
    if level.bits >= 0x3f80_0000 {
        reveal_with_fuel(reached, 21);
    }
}

/// A level from the visible one up to full scale, in parts of which `1 << 32` make
/// full scale.
pub open spec fn level_parts(level: Single) -> nat {
    let exponent = level.bits as nat / 0x80_0000;
    let fraction = level.bits as nat % 0x80_0000;
    ((0x80_0000 + fraction) * vstd::arithmetic::power2::pow2((exponent - 118) as nat)) as nat
}

/// The counts follow the level: a burst has `4 + 20 * level` particles and a trail
/// `2 + 5 * level`, to the nearest whole number. The bound leaves room for the
/// rounding of that sum in single precision, a part in `1 << 19`.
pub proof fn lemma_counts_follow_level(level: Single)
    requires
        0x3b03_126f < level.bits <= 0x3f80_0000,
    ensures
        ({
            let full = 0x1_0000_0000int;
            let parts = level_parts(level) as int;
            let burst = particles_at(level) as int;
            let trail = trail_at(level) as int;
            &&& -0x4000 <= 40 * parts - (2 * (burst - 4) - 1) * full
            &&& 40 * parts - (2 * (burst - 4) + 1) * full <= 0x4000
            &&& -0x4000 <= 10 * parts - (2 * (trail - 2) - 1) * full
            &&& 10 * parts - (2 * (trail - 2) + 1) * full <= 0x4000
        }),
{
    lemma_parts_of_level(level);
    lemma_burst_steps(level);
    lemma_trail_steps(level);
}

/// The parts of a level, exponent by exponent.
proof fn lemma_parts_of_level(level: Single)
    requires
        0x3b03_126f < level.bits <= 0x3f80_0000,
    ensures
        level.bits < 0x3b80_0000 ==> level_parts(level) == level.bits - 0x3a80_0000,
        0x3b80_0000 <= level.bits < 0x3c00_0000 ==> level_parts(level) == 2 * (level.bits
            - 0x3b00_0000),
        0x3c00_0000 <= level.bits < 0x3c80_0000 ==> level_parts(level) == 4 * (level.bits
            - 0x3b80_0000),
        0x3c80_0000 <= level.bits < 0x3d00_0000 ==> level_parts(level) == 8 * (level.bits
            - 0x3c00_0000),
        0x3d00_0000 <= level.bits < 0x3d80_0000 ==> level_parts(level) == 16 * (level.bits
            - 0x3c80_0000),
        0x3d80_0000 <= level.bits < 0x3e00_0000 ==> level_parts(level) == 32 * (level.bits
            - 0x3d00_0000),
        0x3e00_0000 <= level.bits < 0x3e80_0000 ==> level_parts(level) == 64 * (level.bits
            - 0x3d80_0000),
        0x3e80_0000 <= level.bits < 0x3f00_0000 ==> level_parts(level) == 128 * (level.bits
            - 0x3e00_0000),
        0x3f00_0000 <= level.bits < 0x3f80_0000 ==> level_parts(level) == 256 * (level.bits
            - 0x3e80_0000),
        level.bits == 0x3f80_0000 ==> level_parts(level) == 0x1_0000_0000,
{
    vstd::arithmetic::power2::lemma2_to64();
    let exponent = level.bits as nat / 0x80_0000;
    let mantissa = 0x80_0000 + level.bits as nat % 0x80_0000;
    let unit = vstd::arithmetic::power2::pow2((exponent - 118) as nat);
    assert(118 <= exponent <= 127);
    if exponent == 118 {
        assert(mantissa * unit == 1 * mantissa) by (nonlinear_arith)
            requires
                unit == 1,
        ;
    } else if exponent == 119 {
        assert(mantissa * unit == 2 * mantissa) by (nonlinear_arith)
            requires
                unit == 2,
        ;
    } else if exponent == 120 {
        assert(mantissa * unit == 4 * mantissa) by (nonlinear_arith)
            requires
                unit == 4,
        ;
    } else if exponent == 121 {
        assert(mantissa * unit == 8 * mantissa) by (nonlinear_arith)
            requires
                unit == 8,
        ;
    } else if exponent == 122 {
        assert(mantissa * unit == 16 * mantissa) by (nonlinear_arith)
            requires
                unit == 16,
        ;
    } else if exponent == 123 {
        assert(mantissa * unit == 32 * mantissa) by (nonlinear_arith)
            requires
                unit == 32,
        ;
    } else if exponent == 124 {
        assert(mantissa * unit == 64 * mantissa) by (nonlinear_arith)
            requires
                unit == 64,
        ;
    } else if exponent == 125 {
        assert(mantissa * unit == 128 * mantissa) by (nonlinear_arith)
            requires
                unit == 128,
        ;
    } else if exponent == 126 {
        assert(mantissa * unit == 256 * mantissa) by (nonlinear_arith)
            requires
                unit == 256,
        ;
    } else if exponent == 127 {
        assert(mantissa * unit == 512 * mantissa) by (nonlinear_arith)
            requires
                unit == 512,
        ;
    }
}

/// The steps that a level has reached, one by one.
proof fn lemma_burst_steps(level: Single)
    requires
        0x3b03_126f < level.bits <= 0x3f80_0000,
    ensures
        level.bits < 0x3ccc_ccc6 ==> particles_at(level) == 4,
        0x3ccc_ccc6 <= level.bits < 0x3d99_9998 ==> particles_at(level) == 5,
        0x3d99_9998 <= level.bits < 0x3dff_fffe ==> particles_at(level) == 6,
        0x3dff_fffe <= level.bits < 0x3e33_3333 ==> particles_at(level) == 7,
        0x3e33_3333 <= level.bits < 0x3e66_6665 ==> particles_at(level) == 8,
        0x3e66_6665 <= level.bits < 0x3e8c_cccc ==> particles_at(level) == 9,
        0x3e8c_cccc <= level.bits < 0x3ea6_6666 ==> particles_at(level) == 10,
        0x3ea6_6666 <= level.bits < 0x3ebf_ffff ==> particles_at(level) == 11,
        0x3ebf_ffff <= level.bits < 0x3ed9_9999 ==> particles_at(level) == 12,
        0x3ed9_9999 <= level.bits < 0x3ef3_3333 ==> particles_at(level) == 13,
        0x3ef3_3333 <= level.bits < 0x3f06_6666 ==> particles_at(level) == 14,
        0x3f06_6666 <= level.bits < 0x3f13_3333 ==> particles_at(level) == 15,
        0x3f13_3333 <= level.bits < 0x3f1f_ffff ==> particles_at(level) == 16,
        0x3f1f_ffff <= level.bits < 0x3f2c_cccc ==> particles_at(level) == 17,
        0x3f2c_cccc <= level.bits < 0x3f39_9999 ==> particles_at(level) == 18,
        0x3f39_9999 <= level.bits < 0x3f46_6666 ==> particles_at(level) == 19,
        0x3f46_6666 <= level.bits < 0x3f53_3333 ==> particles_at(level) == 20,
        0x3f53_3333 <= level.bits < 0x3f60_0000 ==> particles_at(level) == 21,
        0x3f60_0000 <= level.bits < 0x3f6c_cccc ==> particles_at(level) == 22,
        0x3f6c_cccc <= level.bits < 0x3f79_9999 ==> particles_at(level) == 23,
        0x3f79_9999 <= level.bits ==> particles_at(level) == 24,
{
    reveal_with_fuel(reached, 21);
}

proof fn lemma_trail_steps(level: Single)
    requires
        0x3b03_126f < level.bits <= 0x3f80_0000,
    ensures
        level.bits < 0x3dcc_ccca ==> trail_at(level) == 2,
        0x3dcc_ccca <= level.bits < 0x3e99_9999 ==> trail_at(level) == 3,
        0x3e99_9999 <= level.bits < 0x3eff_fffe ==> trail_at(level) == 4,
        0x3eff_fffe <= level.bits < 0x3f33_3333 ==> trail_at(level) == 5,
        0x3f33_3333 <= level.bits < 0x3f66_6666 ==> trail_at(level) == 6,
        0x3f66_6666 <= level.bits ==> trail_at(level) == 7,
{
    reveal_with_fuel(reached, 6);
}

/// One more bar adds its own firework behind the others: a core, its trail and the
/// particles around it, or nothing if it is not visible.
pub proof fn lemma_fireworks_grow(v: SpectrumView, bar: nat)
    requires
        v.wf(),
        bar < v.disp.len(),
    ensures
        ({
            let level = v.disp[bar as int];
            let before = firework_scene(v, bar);
            let after = firework_scene(v, bar + 1);
            &&& after.take(before.len() as int) == before
            &&& level.bits <= 0x3b03_126f ==> after == before
            &&& 0x3b03_126f < level.bits <= 0x3f80_0000 ==> after.len() == before.len() + trail_at(level)
                + 1 + particles_at(level)
            &&& level.bits > 0x3f80_0000 ==> after.len() == before.len() + 7 + 1 + 24
        }),
{
    let before = firework_scene(v, bar);
    let after = firework_scene(v, bar + 1);
    assert(v.disp[bar as int].is_number());
    lemma_particle_range(intensity_of(v, bar as int));
    assert(after.take(before.len() as int) =~= before);
    if v.disp[bar as int].bits <= 0x3b03_126f {
        assert(after =~= before);
    }
}

/// Every visible bar is shown by the whole of its firework: the trail from the
/// first to the last place, the core, and the particles around it, each with its
/// own seed, at the level of the bar up to full scale, and in its tint. The
/// directions have theirs in a mirrored spectrum; else green, gold, red and blue
/// take turns.
pub proof fn lemma_fireworks_show(v: SpectrumView, bars: nat, bar: int, i: int)
    requires
        v.wf(),
        bars <= v.disp.len(),
        0 <= bar < bars,
        v.disp[bar].bits > 0x3b03_126f,
        0 <= i,
    ensures
        ({
            let scene = firework_scene(v, bars);
            let level = if v.disp[bar].bits > 0x3f80_0000 {
                Single { bits: 0x3f80_0000 }
            } else {
                v.disp[bar]
            };
            let tint = if v.mirrored && bar % 2 == 0 {
                Tint::Inbound
            } else if v.mirrored {
                Tint::Outbound
            } else if bar % 4 == 0 {
                Tint::Green
            } else if bar % 4 == 1 {
                Tint::Gold
            } else if bar % 4 == 2 {
                Tint::Red
            } else {
                Tint::Blue
            };
            let base = ((bar + 1) * 7919) as u32;
            let shown = |part: Part, seed: u32|
                Spark { bar: bar as usize, intensity: level, tint, part, seed, draw: DrawMode::Particle };
            &&& scene.contains(shown(Part::Core, base ^ 0xa5a5))
            &&& i < trail_at(level) ==> scene.contains(
                shown(Part::Trail(i as usize, trail_at(level) as usize), base ^ (i as u32)),
            )
            &&& i < particles_at(level) ==> scene.contains(
                shown(
                    Part::Burst(i as usize, particles_at(level) as usize),
                    base ^ (((i + 3) * 104_729) as u32),
                ),
            )
        }),
    decreases bars,
{
    let last_bar = bars - 1;
    let rest = firework_scene(v, last_bar as nat);
    let last = burst(last_bar, intensity_of(v, last_bar), tint_of(v.mirrored, last_bar));
    let scene = firework_scene(v, bars);
    assert forall|spark: Spark| #[trigger] rest.contains(spark) implies scene.contains(spark) by {
        let k = choose|k: int| 0 <= k < rest.len() && rest[k] == spark;
        assert(scene[k] == spark);
    }
    assert forall|spark: Spark| #[trigger] last.contains(spark) implies scene.contains(spark) by {
        let k = choose|k: int| 0 <= k < last.len() && last[k] == spark;
        assert(scene[rest.len() + k] == spark);
    }
    if bar == last_bar {
        let level = intensity_of(v, bar);
        let tint = tint_of(v.mirrored, bar);
        assert(v.disp[bar].is_number());
        lemma_particle_range(level);
        let n = trail_at(level) as int;
        assert(last[n] == core_spark(bar, level, tint));
        assert(last.contains(core_spark(bar, level, tint)));
        assert(((bar + 1) as u32).wrapping_mul(7919) == ((bar + 1) * 7919) as u32);
        if i < trail_at(level) {
            assert(last[i] == trail_spark(bar, level, tint, i));
            assert(last.contains(trail_spark(bar, level, tint, i)));
        }
        if i < particles_at(level) {
            assert(last[n + 1 + i] == burst_spark(bar, level, tint, i));
            assert(last.contains(burst_spark(bar, level, tint, i)));
            assert(((i + 3) as u32).wrapping_mul(104_729) == ((i + 3) * 104_729) as u32);
        }
    } else {
        lemma_fireworks_show(v, last_bar as nat, bar, i);
    }
}

/// A louder bar sets off at least as many particles, in its trail and around
/// its core.
pub proof fn lemma_louder_is_busier(bar: int, tint: Tint, a: Single, b: Single)
    requires
        a.bits <= b.bits,
        b.is_number(),
    ensures
        particles_at(a) <= particles_at(b),
        trail_at(a) <= trail_at(b),
        burst(bar, a, tint).len() <= burst(bar, b, tint).len(),
{
    lemma_reached_monotone(particle_steps(), a, b);
    lemma_reached_monotone(trail_steps(), a, b);
}

/// If no bar gets quieter, the scene does not get smaller.
pub proof fn lemma_louder_scene(v: SpectrumView, w: SpectrumView, bars: nat)
    requires
        v.mirrored == w.mirrored,
        bars <= v.disp.len(),
        v.disp.len() == w.disp.len(),
        forall|i: int| 0 <= i < bars ==> (#[trigger] v.disp[i]).bits <= w.disp[i].bits,
        all_levels(w.disp),
    ensures
        firework_scene(v, bars).len() <= firework_scene(w, bars).len(),
    decreases bars,
{
    if bars > 0 {
        let bar = bars - 1;
        lemma_louder_scene(v, w, bar as nat);
        assert(v.disp[bar].bits <= w.disp[bar].bits);
        lemma_louder_is_busier(
            bar,
            tint_of(v.mirrored, bar),
            intensity_of(v, bar),
            intensity_of(w, bar),
        );
    }
}

/// The scene depends on the levels and on whether they are mirrored, and on
/// nothing else.
pub proof fn lemma_same_levels_same_scene(v: SpectrumView, w: SpectrumView, bars: nat)
    requires
        v.mirrored == w.mirrored,
        bars <= v.disp.len(),
        v.disp == w.disp,
    ensures
        firework_scene(v, bars) == firework_scene(w, bars),
    decreases bars,
{
    if bars > 0 {
        lemma_same_levels_same_scene(v, w, (bars - 1) as nat);
    }
}

/// Levels that are not visible set off nothing.
pub proof fn lemma_quiet_sky(v: SpectrumView, bars: nat)
    requires
        bars <= v.disp.len(),
        forall|i: int| 0 <= i < bars ==> (#[trigger] v.disp[i]).bits <= BAR_VISIBLE,
    ensures
        firework_scene(v, bars) == Seq::<Spark>::empty(),
    decreases bars,
{
    if bars > 0 {
        lemma_quiet_sky(v, (bars - 1) as nat);
        assert(v.disp[bars - 1].bits <= BAR_VISIBLE);
        assert(firework_scene(v, bars) =~= Seq::<Spark>::empty());
    }
}

/// Add a particle unless the frame is full.
fn push_spark(out: &mut Vec<Spark>, spark: Spark)
    ensures
        old(out)@.len() < MAX_INSTANCES ==> final(out)@ == old(out)@.push(spark),
        old(out)@.len() >= MAX_INSTANCES ==> final(out)@ == old(out)@,
{
    if out.len() < MAX_INSTANCES {
        out.push(spark);
    }
}

/// Add the firework of one bar.
fn emit_firework(out: &mut Vec<Spark>, bar: usize, intensity: Single, tint: Tint)
    requires
        bar < 100,
        intensity.bits <= ONE,
        old(out)@.len() <= MAX_INSTANCES - 32,
    ensures
        final(out)@ == old(out)@ + burst(bar as int, intensity, tint),
{
    let ghost start = out@;
    let count = firework_particle_count(intensity);
    if count == 0 {
        assert(out@ =~= start + burst(bar as int, intensity, tint));
        return;
    }
    let base: u32 = (bar as u32 + 1).wrapping_mul(7919);
    let trails = firework_trail_count(intensity);
    let ghost trail = Seq::new(
        trails as nat,
        |i: int| trail_spark(bar as int, intensity, tint, i),
    );
    let mut i: usize = 0;
    while i < trails
        invariant
            i <= trails <= 7,
            bar < 100,
            trails == trail_at(intensity),
            base == seed_base(bar as int),
            start.len() <= MAX_INSTANCES - 32,
            trail == Seq::new(
                trails as nat,
                |i: int| trail_spark(bar as int, intensity, tint, i),
            ),
            out@ == start + trail.take(i as int),
        decreases trails - i,
    {
        push_spark(
            out,
            Spark {
                bar,
                intensity,
                tint,
                part: Part::Trail(i, trails),
                seed: base ^ (i as u32),
                draw: DrawMode::Particle,
            },
        );
        assert(out@ =~= start + trail.take(i + 1));
        i += 1;
    }
    assert(trail.take(i as int) =~= trail);
    push_spark(
        out,
        Spark {
            bar,
            intensity,
            tint,
            part: Part::Core,
            seed: base ^ 0xa5a5,
            draw: DrawMode::Particle,
        },
    );
    let ghost head = start + trail.push(core_spark(bar as int, intensity, tint));
    assert(out@ =~= head);
    let ghost ring = Seq::new(
        count as nat,
        |i: int| burst_spark(bar as int, intensity, tint, i),
    );
    let mut k: usize = 0;
    while k < count
        invariant
            k <= count <= 24,
            bar < 100,
            count == particles_at(intensity),
            base == seed_base(bar as int),
            head.len() <= MAX_INSTANCES - 24,
            ring == Seq::new(
                count as nat,
                |i: int| burst_spark(bar as int, intensity, tint, i),
            ),
            out@ == head + ring.take(k as int),
        decreases count - k,
    {
        let turn: u32 = (k as u32 + 3).wrapping_mul(104_729);
        push_spark(
            out,
            Spark {
                bar,
                intensity,
                tint,
                part: Part::Burst(k, count),
                seed: base ^ turn,
                draw: DrawMode::Particle,
            },
        );
        assert(out@ =~= head + ring.take(k + 1));
        k += 1;
    }
    assert(ring.take(k as int) =~= ring);
    assert(out@ =~= start + burst(bar as int, intensity, tint));
}

/// Build the particles of a spectrum drawn as fireworks.
pub fn build_firework_instances(out: &mut Vec<Spark>, spectrum: &Spectrum)
    requires
        spectrum@.wf(),
    ensures
        final(out)@ == firework_scene(
            spectrum@,
            bar_total(spectrum@.mode, spectrum@.n_hosts),
        ),
        final(out)@.len() <= MAX_INSTANCES,
{
    out.clear();
    let ghost v = spectrum@;
    let n = spectrum.bar_count();
    let mut bar: usize = 0;
    while bar < n
        invariant
            bar <= n <= 24,
            v == spectrum@,
            v.wf(),
            n == v.disp.len(),
            out@ == firework_scene(v, bar as nat),
        decreases n - bar,
    {
        proof {
            lemma_fireworks_size(v, bar as nat);
        }
        let intensity = at_most_one(spectrum.disp[bar]);
        let tint = if spectrum.mirrored {
            if bar % 2 == 0 {
                Tint::Inbound
            } else {
                Tint::Outbound
            }
        } else if bar % 4 == 0 {
            Tint::Green
        } else if bar % 4 == 1 {
            Tint::Gold
        } else if bar % 4 == 2 {
            Tint::Red
        } else {
            Tint::Blue
        };
        emit_firework(out, bar, intensity, tint);
        bar += 1;
    }
    proof {
        lemma_fireworks_size(v, n as nat);
    }
}

} // verus!
