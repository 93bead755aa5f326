use vstd::prelude::*;

verus! {

/// A real number `v` held by its integer part and whether anything lies beyond
/// it: `floor <= v < floor + 1`, and `v == floor` exactly when `fraction` is false.
/// This is all that comparisons against whole numbers and truncation read.
#[derive(Clone, Copy, Debug, PartialEq, Eq, Structural)]
pub struct Truncated {
    pub floor: i64,
    pub fraction: bool,
}

/// A magnitude in decibels, as the transform's arithmetic produced it.
#[derive(Clone, Copy, Debug, PartialEq, Eq, Structural)]
pub enum Level {
    Finite(Truncated),
    /// Positive infinity.
    Infinite,
    /// Negative infinity: the level of a bin with no power at all.
    NegInfinite,
    /// Not a number, from degenerate input.
    Undefined,
}

/// One transform bin: its centre frequency in hertz and its magnitude.
#[derive(Clone, Copy, Debug, PartialEq, Eq, Structural)]
pub struct SpectrumBin {
    pub hz: Truncated,
    pub db: Level,
}

/// `v > c`.
pub open spec fn exceeds(v: Truncated, c: int) -> bool {
    v.floor > c || (v.floor == c && v.fraction)
}

/// `v < c`.
pub open spec fn falls_below(v: Truncated, c: int) -> bool {
    v.floor < c
}

/// `level > c`: infinity exceeds every bound, negative infinity and an
/// undefined level none.
pub open spec fn level_exceeds(l: Level, c: int) -> bool {
    match l {
        Level::Finite(v) => exceeds(v, c),
        Level::Infinite => true,
        _ => false,
    }
}

/// The level truncated toward zero to an unsigned whole number, saturating:
/// negative, negative infinite and undefined levels give 0, infinity the largest value.
pub open spec fn level_whole(l: Level) -> u64 {
    match l {
        Level::Finite(v) => if v.floor < 0 {
            0
        } else {
            v.floor as u64
        },
        Level::Infinite => u64::MAX,
        _ => 0,
    }
}

/// The centre frequency of bin `index` of a transform of `frame_size` samples
/// taken at `sample_rate` samples per second: exactly `index * sample_rate / frame_size`.
pub open spec fn bin_frequency(index: int, sample_rate: int, frame_size: int) -> Truncated {
    Truncated {
        floor: ((index * sample_rate) / frame_size) as i64,
        fraction: (index * sample_rate) % frame_size != 0,
    }
}

/// Whether `v > c`.
pub fn is_above(v: Truncated, c: i64) -> (r: bool)
    ensures
        r == exceeds(v, c as int),
{
    v.floor > c || (v.floor == c && v.fraction)
}

/// Whether `level > c`.
pub fn level_is_above(l: Level, c: i64) -> (r: bool)
    ensures
        r == level_exceeds(l, c as int),
{
    match l {
        Level::Finite(v) => is_above(v, c),
        Level::Infinite => true,
        _ => false,
    }
}

/// The level truncated to an unsigned whole number, saturating.
pub fn whole_level(l: Level) -> (r: u64)
    ensures
        r == level_whole(l),
{
    match l {
        Level::Finite(v) => if v.floor < 0 {
            0
        } else {
            v.floor as u64
        },
        Level::Infinite => u64::MAX,
        _ => 0,
    }
}

/// The centre frequency of one bin, exact up to its integer part.
pub fn frequency_of_bin(index: usize, sample_rate: u32, frame_size: usize) -> (r: Truncated)
    requires
        frame_size > 0,
        index < frame_size,
    ensures
        r == bin_frequency(index as int, sample_rate as int, frame_size as int),
        0 <= r.floor < sample_rate as int || (r.floor == 0 && sample_rate == 0),
{
    proof {
        assert((index as int) * (sample_rate as int) <= 0x1_0000_0000_0000_0000 * 0x1_0000_0000)
            by (nonlinear_arith)
            requires
                index < 0x1_0000_0000_0000_0000,
                sample_rate < 0x1_0000_0000,
        ;
    }
    let cycles: u128 = index as u128 * sample_rate as u128;
    let q: u128 = cycles / frame_size as u128;
    proof {
        assert(q * (frame_size as int) <= cycles) by (nonlinear_arith)
            requires
                q as int == (cycles as int) / (frame_size as int),
                frame_size > 0,
                cycles >= 0,
        ;
        assert(cycles < (frame_size as int) * (sample_rate as int) || sample_rate == 0)
            by (nonlinear_arith)
            requires
                cycles == (index as int) * (sample_rate as int),
                index < frame_size,
        ;
        assert(q < sample_rate as int || sample_rate == 0) by (nonlinear_arith)
            requires
                q * (frame_size as int) <= cycles,
                cycles < (frame_size as int) * (sample_rate as int) || sample_rate == 0,
                frame_size > 0,
                q >= 0,
        ;
        if sample_rate == 0 {
            assert(cycles == 0) by (nonlinear_arith)
                requires
                    cycles == (index as int) * (sample_rate as int),
                    sample_rate == 0,
            ;
        }
        assert(q < 0x1_0000_0000);
    }
    Truncated { floor: q as i64, fraction: cycles % frame_size as u128 != 0 }
}

/// Pairs the levels of the first bins of a transform with their centre
/// frequencies: bin `i` lies at `i * sample_rate / frame_size` hertz.
pub fn map_spectrum(levels: &Vec<Level>, sample_rate: u32, frame_size: usize) -> (r: Vec<SpectrumBin>)
    requires
        levels@.len() <= frame_size,
    ensures
        r@.len() == levels@.len(),
        forall|i: int|
            0 <= i < r@.len() ==> #[trigger] r@[i] == (SpectrumBin {
                hz: bin_frequency(i, sample_rate as int, frame_size as int),
                db: levels@[i],
            }),
{
    let mut bins: Vec<SpectrumBin> = Vec::new();
    let mut i: usize = 0;
    while i < levels.len()
        invariant
            i <= levels@.len(),
            levels@.len() <= frame_size,
            bins@.len() == i,
            forall|j: int|
                0 <= j < i ==> #[trigger] bins@[j] == (SpectrumBin {
                    hz: bin_frequency(j, sample_rate as int, frame_size as int),
                    db: levels@[j],
                }),
        decreases levels@.len() - i,
    {
        let hz = frequency_of_bin(i, sample_rate, frame_size);
        bins.push(SpectrumBin { hz, db: levels[i] });
        i = i + 1;
    }
    bins
}

} // verus!
