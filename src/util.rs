//! Fixed-point helpers: normalisation into levels, and equal-temperament pitch.
use vstd::arithmetic::div_mod::{
    lemma_div_denominator, lemma_div_is_ordered, lemma_div_is_ordered_by_denominator,
    lemma_div_multiples_vanish, lemma_div_plus_one, lemma_fundamental_div_mod, lemma_mod_pos_bound,
};
use vstd::arithmetic::power2::{lemma_pow2_pos, lemma_pow2_strictly_increases, lemma_pow2_unfold, lemma2_to64, pow2};
use vstd::prelude::*;

verus! {

/// The level that stands for 1.0: envelope levels, gains and volumes are
/// fractions of it.
pub const LEVEL_ONE: u32 = 65536;

/// `val` mapped linearly from `[min_value, max_value]` onto `[0, LEVEL_ONE]`,
/// rounded down. Values outside the range are clamped to it, and a degenerate
/// range (`max_value <= min_value`) maps everything to 0.
pub open spec fn normalized(val: int, max_value: int, min_value: int) -> int {
    if max_value <= min_value {
        0
    } else {
        let clamped = if val < min_value {
            min_value
        } else if val > max_value {
            max_value
        } else {
            val
        };
        (clamped - min_value) * LEVEL_ONE / (max_value - min_value)
    }
}

/// A normalised value is a level.
pub proof fn lemma_normalized_bounded(val: int, max_value: int, min_value: int)
    ensures
        0 <= normalized(val, max_value, min_value) <= LEVEL_ONE,
{
    if max_value > min_value {
        let clamped = if val < min_value {
            min_value
        } else if val > max_value {
            max_value
        } else {
            val
        };
        let den = max_value - min_value;
        assert(0 <= (clamped - min_value) * LEVEL_ONE <= den * LEVEL_ONE) by (nonlinear_arith)
            requires
                0 <= clamped - min_value <= den,
        ;
        lemma_div_is_ordered(0, (clamped - min_value) * LEVEL_ONE, den);
        lemma_div_is_ordered((clamped - min_value) * LEVEL_ONE, den * LEVEL_ONE, den);
        lemma_div_multiples_vanish(LEVEL_ONE as int, den);
    }
}

/// Normalises `val` into a level; see [`normalized`].
pub fn normalize(val: u16, max_value: u16, min_value: u16) -> (r: u32)
    ensures
        r == normalized(val as int, max_value as int, min_value as int),
        r <= LEVEL_ONE,
{
    if max_value <= min_value {
        return 0;
    }
    let clamped: u16 = if val < min_value {
        min_value
    } else if val > max_value {
        max_value
    } else {
        val
    };
    let span: u64 = (clamped - min_value) as u64;
    assert(span * LEVEL_ONE <= 65535 * 65536) by (nonlinear_arith)
        requires
            span <= 65535,
    ;
    let num: u64 = span * LEVEL_ONE as u64;
    let den: u64 = (max_value - min_value) as u64;
    proof {
        lemma_div_is_ordered(num as int, den * LEVEL_ONE, den as int);
        lemma_div_multiples_vanish(LEVEL_ONE as int, den as int);
    }
    (num / den) as u32
}

/// Frequency in nanohertz of note `252 + s` (the top octave that a `u8` note
/// reaches), for a semitone `s` in `0..12`: `440 Hz * 2^((183 + s) / 12)`
/// rounded to the nearest nanohertz.
pub open spec fn top_octave_nanohz(s: int) -> int {
    if s == 0 {
        17145893047540032
    } else if s == 1 {
        18165440903700290
    } else if s == 2 {
        19245614230235222
    } else if s == 3 {
        20390018005210295
    } else if s == 4 {
        21602471569841844
    } else if s == 5 {
        22887021375193343
    } else if s == 6 {
        24247954486829672
    } else if s == 7 {
        25689812892499922
    } else if s == 8 {
        27217408660599285
    } else if s == 9 {
        28835840000000000
    } else if s == 10 {
        30550508274849541
    } else {
        32367136031121350
    }
}

/// The divisor that takes a note from the top octave down to its own octave.
pub open spec fn octave_divisor(note: u8) -> int {
    pow2((21 - note / 12) as nat) as int
}

/// Equal-temperament frequency of a MIDI note in nanohertz:
/// `440 Hz * 2^((note - 69) / 12)`, taken from the top octave by dividing
/// by a power of two and rounding to the nearest nanohertz (halves round up).
/// Note 69 is exactly 440 Hz. Over all `u8` notes the relative error is
/// below 1e-10.
pub open spec fn freq_of(note: u8) -> int {
    (top_octave_nanohz((note % 12) as int) + octave_divisor(note) / 2) / octave_divisor(note)
}

fn top_octave_frequency(s: u8) -> (r: u64)
    requires
        s < 12,
    ensures
        r == top_octave_nanohz(s as int),
{
    match s {
        0 => 17145893047540032,
        1 => 18165440903700290,
        2 => 19245614230235222,
        3 => 20390018005210295,
        4 => 21602471569841844,
        5 => 22887021375193343,
        6 => 24247954486829672,
        7 => 25689812892499922,
        8 => 27217408660599285,
        9 => 28835840000000000,
        10 => 30550508274849541,
        _ => 32367136031121350,
    }
}

/// Frequency of a MIDI note in nanohertz; see [`freq_of`].
pub fn get_freqy(i: u8) -> (r: u64)
    ensures
        r == freq_of(i),
        r <= 32367136031121350,
{
    let top = top_octave_frequency(i % 12);
    let shift: u8 = 21 - i / 12;
    let mut divisor: u64 = 1;
    let mut k: u8 = 0;
    proof {
        lemma2_to64();
    }
    while k < shift
        invariant
            k <= shift <= 21,
            divisor == pow2(k as nat),
        decreases shift - k,
    {
        proof {
            lemma_pow2_unfold((k + 1) as nat);
            if k + 1 < 21 {
                lemma_pow2_strictly_increases((k + 1) as nat, 21);
            }
            lemma2_to64();
        }
        divisor = divisor * 2;
        k = k + 1;
    }
    proof {
        lemma_octave_divisor_bound(shift as nat);
        lemma_div_is_ordered(0, top + divisor / 2, divisor as int);
        lemma_div_is_ordered(top + divisor / 2, 2 * top, divisor as int);
        lemma_div_multiples_vanish(top as int, 2);
        if divisor == 1 {
            assert(divisor / 2 == 0);
        } else {
            lemma_div_is_ordered_by_denominator(2 * top, 2, divisor as int);
        }
    }
    (top + divisor / 2) / divisor
}

/// `freq_of` is the top-octave frequency divided by the octave divisor,
/// rounded to the nearest integer.
pub proof fn lemma_freq_rounds_to_nearest(note: u8)
    ensures
        ({
            let top = top_octave_nanohz((note % 12) as int);
            let d = octave_divisor(note);
            &&& 2 * freq_of(note) * d <= 2 * top + d
            &&& 2 * top + d < 2 * (freq_of(note) + 1) * d
        }),
{
    let top = top_octave_nanohz((note % 12) as int);
    let d = octave_divisor(note);
    lemma_octave_divisor_bound((21 - note / 12) as nat);
    let x = top + d / 2;
    lemma_fundamental_div_mod(x, d);
    lemma_mod_pos_bound(x, d);
    lemma_fundamental_div_mod(d, 2);
    let q = x / d;
    assert(2 * q * d <= 2 * top + d && 2 * top + d < 2 * (q + 1) * d) by (nonlinear_arith)
        requires
            x == d * q + x % d,
            0 <= x % d < d,
            x == top + d / 2,
            d == 2 * (d / 2) + d % 2,
            0 <= d % 2 < 2,
            d >= 1,
    ;
}

/// Dividing by `d` keeps two values apart when they lie at least `d` apart.
proof fn lemma_div_separates(x: int, y: int, d: int)
    requires
        0 <= x,
        0 < d,
        x + d <= y,
    ensures
        x / d < y / d,
{
    lemma_div_plus_one(x, d);
    lemma_div_is_ordered(d + x, y, d);
}

/// `pow2(k)` is positive and at most `2^21` for `k <= 21`.
proof fn lemma_octave_divisor_bound(k: nat)
    requires
        k <= 21,
    ensures
        1 <= pow2(k) <= 0x200000,
{
    lemma2_to64();
    lemma_pow2_pos(k);
    if k < 21 {
        lemma_pow2_strictly_increases(k, 21);
    }
}

/// One semitone up always gives a strictly higher frequency.
proof fn lemma_freq_semitone_step(n: u8)
    requires
        n < 255,
    ensures
        freq_of(n) < freq_of((n + 1) as u8),
{
    let m = (n + 1) as u8;
    let s = (n % 12) as int;
    let k = (21 - n / 12) as nat;
    let d = pow2(k) as int;
    lemma_octave_divisor_bound(k);
    if s < 11 {
        assert(m % 12 == s + 1 && m / 12 == n / 12);
        lemma_div_separates(top_octave_nanohz(s) + d / 2, top_octave_nanohz(s + 1) + d / 2, d);
    } else {
        assert(m % 12 == 0 && m / 12 == n / 12 + 1);
        let k1 = (k - 1) as nat;
        let d1 = pow2(k1) as int;
        lemma_pow2_unfold(k);
        lemma_octave_divisor_bound(k1);
        let y = top_octave_nanohz(0) + d1 / 2;
        lemma_div_multiples_vanish(y, 2);
        lemma_div_denominator(2 * y, 2, d1);
        assert((2 * y) / (2 * d1) == y / d1);
        lemma_div_separates(top_octave_nanohz(11) + d / 2, 2 * y, d);
    }
}

/// Frequency is strictly increasing in the note number.
pub proof fn lemma_freq_strictly_increasing(a: u8, b: u8)
    requires
        a < b,
    ensures
        freq_of(a) < freq_of(b),
    decreases b - a,
{
    lemma_freq_semitone_step((b - 1) as u8);
    if a < b - 1 {
        lemma_freq_strictly_increasing(a, (b - 1) as u8);
    }
}

/// Concert pitch: note 69 is exactly 440 Hz and note 81, an octave above,
/// exactly 880 Hz.
pub proof fn lemma_freq_concert_pitch()
    ensures
        freq_of(69) == 440_000_000_000,
        freq_of(81) == 880_000_000_000,
{
    lemma2_to64();
    assert(top_octave_nanohz(9) == 440_000_000_000 * 65536);
    vstd::arithmetic::div_mod::lemma_fundamental_div_mod_converse(
        440_000_000_000int * 65536 + 32768,
        65536int,
        440_000_000_000int,
        32768int,
    );
    assert(top_octave_nanohz(9) == 880_000_000_000 * 32768);
    vstd::arithmetic::div_mod::lemma_fundamental_div_mod_converse(
        880_000_000_000int * 32768 + 16384,
        32768int,
        880_000_000_000int,
        16384int,
    );
}

} // verus!
