//! The color mapper: a deterministic map from an escape iteration count to an
//! RGB color.  The sentinel count `0` ("never escaped") maps to black; every
//! other count is remapped into a repeating hue band and converted to RGB
//! through three phase-shifted triangle waves, an integer stand-in for the
//! usual sine/cosine channels.  The exact constants are cosmetic policy; the
//! contract pins the whole mapping exactly, so the map is deterministic.

use vstd::prelude::*;

verus! {

/// One RGB pixel, 8 bits per channel.
#[derive(Clone, Copy, Debug, PartialEq, Eq, Structural)]
pub struct Rgb {
    pub r: u8,
    pub g: u8,
    pub b: u8,
}

/// Length of the repeating hue band.
pub const NUM_COLORS: u32 = 161;

/// A triangle wave with period 256, ranging over 0..=254: the integer
/// stand-in for `sin(phase) * 0.5 + 0.5` scaled to a byte.
pub open spec fn wave(p: int) -> int {
    let q = p % 256;
    if q < 128 {
        2 * q
    } else {
        510 - 2 * q
    }
}

/// The hue phase of a nonzero escape count, in wave units (0..256 per turn).
pub open spec fn phase(n: int) -> int {
    (((3 * n) % (NUM_COLORS as int) + 30) * 256) / (NUM_COLORS as int)
}

/// The color of an escape count: black for the sentinel 0, otherwise three
/// phase-shifted samples of the triangle wave.
pub open spec fn spec_color(n: int) -> Rgb {
    if n == 0 {
        Rgb { r: 0, g: 0, b: 0 }
    } else {
        Rgb {
            r: wave(phase(n)) as u8,
            g: wave(phase(n) + 64) as u8,
            b: wave(phase(n) + 128) as u8,
        }
    }
}

proof fn lemma_wave_in_byte(p: int)
    ensures
        0 <= wave(p) <= 254,
{
    assert(0 <= p % 256 < 256);
}

/// Maps an escape iteration count to its RGB color.  Pure and deterministic:
/// the result is exactly `spec_color(iterations)`.
pub fn calculate_color(iterations: u32) -> (result: Rgb)
    ensures
        result == spec_color(iterations as int),
        iterations == 0 ==> result == (Rgb { r: 0, g: 0, b: 0 }),
{
    if iterations == 0 {
        return Rgb { r: 0, g: 0, b: 0 };
    }
    let n: u64 = iterations as u64;
    let limited: u64 = (3 * n) % (NUM_COLORS as u64) + 30;
    let p: u64 = limited * 256 / (NUM_COLORS as u64);
    proof {
        assert(3 * n == 3 * (iterations as int));
        assert(p == phase(iterations as int));
        lemma_wave_in_byte(p as int);
        lemma_wave_in_byte(p as int + 64);
        lemma_wave_in_byte(p as int + 128);
    }
    Rgb { r: wave_exec(p), g: wave_exec(p + 64), b: wave_exec(p + 128) }
}

/// Evaluates the triangle wave on a nonnegative phase.
fn wave_exec(p: u64) -> (result: u8)
    ensures
        result as int == wave(p as int),
{
    let q: u64 = p % 256;
    if q < 128 {
        (2 * q) as u8
    } else {
        (510 - 2 * q) as u8
    }
}

} // verus!
