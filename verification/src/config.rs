//! The generate-pass configuration: the map parameters that are
//! fingerprinted into the cache key, plus the size-override arithmetic.
//! Reading the configuration file itself is the binary's job; it hands the
//! parsed plain values here.

use vstd::prelude::*;

pub use crate::algo::{OverlapCurve, PitchCurve};
pub use crate::cli::{MapFormat, MapOutput};
use crate::cli::SizeOverride;
use crate::error::Error;

verus! {

/// Older names of the curve selectors, kept as aliases.
pub type PitchCurveId = PitchCurve;
pub type OverlapCurveId = OverlapCurve;

/// Output format selector of the configuration file.
#[derive(Clone, Copy, PartialEq, Eq, Structural, Debug)]
pub enum FormatType {
    Csv,
    Png,
}

/// Formatting section of the configuration file. It currently carries no
/// options.
pub struct FormatConfig {}

/// The map-compute section of the configuration file.
#[derive(Clone, Copy, PartialEq, Eq, Structural, Debug)]
pub struct MapConfig {
    pub width: u32,
    pub height: u32,
    /// Base frequency in Hz, as an IEEE 754 bit pattern.
    pub base_frequency_bits: u64,
    pub pitch_curve: PitchCurve,
    pub overlap_curve: OverlapCurve,
}

/// The whole configuration file.
pub struct GenerateConfig {
    pub map: MapConfig,
    pub format: FormatConfig,
}

/// The bit pattern of the floating-point value 440.0 (the default base
/// frequency in Hz).
pub const F64_440_BITS: u64 = 0x407B800000000000;

/// The default map configuration: 1000×1000 cells, 440 Hz base, ERB-rate
/// pitch, exponential dissonance.
pub open spec fn default_map_config() -> MapConfig {
    MapConfig {
        width: 1000u32,
        height: 1000u32,
        base_frequency_bits: F64_440_BITS,
        pitch_curve: PitchCurve::Erb,
        overlap_curve: OverlapCurve::ExpDiss,
    }
}

impl Default for MapConfig {
    /// The default map: 1000×1000 cells, 440 Hz base, ERB-rate pitch,
    /// exponential dissonance.
    fn default() -> (r: Self)
        ensures
            r == default_map_config(),
    {
        MapConfig {
            width: 1000,
            height: 1000,
            base_frequency_bits: F64_440_BITS,
            pitch_curve: PitchCurve::Erb,
            overlap_curve: OverlapCurve::ExpDiss,
        }
    }
}

impl Default for GenerateConfig {
    fn default() -> (r: Self)
        ensures
            r.map == default_map_config(),
    {
        GenerateConfig { map: MapConfig::default(), format: FormatConfig {} }
    }
}

/// Rounds `n / d` to the nearest integer, halves away from zero.
pub open spec fn round_div(n: int, d: int) -> int {
    (2 * n + d) / (2 * d)
}

/// The scaled width and height that a size override demands of a config, or
/// `None` where the override cannot be computed (zero axis, zero scale, or a
/// result out of the 32-bit range).
pub open spec fn override_spec(size: SizeOverride, width: u32, height: u32) -> Option<(u32, u32)> {
    match size {
        SizeOverride::Width(w) => {
            if width == 0 {
                None
            } else {
                let h = round_div(w * height, width as int);
                if 1 <= h <= u32::MAX {
                    Some((w, h as u32))
                } else {
                    None
                }
            }
        },
        SizeOverride::Height(h) => {
            if height == 0 {
                None
            } else {
                let w = round_div(h * width, height as int);
                if 1 <= w <= u32::MAX {
                    Some((w as u32, h))
                } else {
                    None
                }
            }
        },
        SizeOverride::Exact(w, h) => Some((w, h)),
        SizeOverride::Percent(num, dec) => {
            if num == 0 || dec > 18 {
                None
            } else {
                let d = 100 * pow10(dec as nat);
                let w = round_div(width * num, d);
                let h = round_div(height * num, d);
                if 1 <= w <= u32::MAX && 1 <= h <= u32::MAX {
                    Some((w as u32, h as u32))
                } else {
                    None
                }
            }
        },
    }
}

/// Ten to the `d`-th power.
pub open spec fn pow10(d: nat) -> int
    decreases d,
{
    if d == 0 {
        1
    } else {
        10 * pow10((d - 1) as nat)
    }
}

/// Powers of ten up to the eighteenth stay within 64 bits.
proof fn lemma_pow10_bound(d: nat)
    requires
        d <= 18,
    ensures
        1 <= pow10(d) <= 1000000000000000000,
{
    lemma_pow10_pos(d);
    lemma_pow10_mono(d, 18);
    assert(pow10(18) == 1000000000000000000) by {
        reveal_with_fuel(pow10, 20);
    }
}

/// Powers of ten grow with the exponent.
proof fn lemma_pow10_mono(d1: nat, d2: nat)
    requires
        d1 <= d2,
    ensures
        pow10(d1) <= pow10(d2),
    decreases d2,
{
    if d1 < d2 {
        lemma_pow10_mono(d1, (d2 - 1) as nat);
        lemma_pow10_pos((d2 - 1) as nat);
    }
}

/// Powers of ten are positive.
proof fn lemma_pow10_pos(d: nat)
    ensures
        pow10(d) >= 1,
    decreases d,
{
    if d > 0 {
        lemma_pow10_pos((d - 1) as nat);
    }
}

/// Rounds `n / d` half away from zero, in 128-bit arithmetic.
fn round_div_exec(n: u128, d: u128) -> (r: u128)
    requires
        d > 0,
        2 * n + d <= u128::MAX,
        2 * d <= u128::MAX,
    ensures
        r == round_div(n as int, d as int),
{
    (2 * n + d) / (2 * d)
}

impl GenerateConfig {
    /// Applies a size override to a map configuration: `<n>w` and `<n>h`
    /// scale the other axis to keep the aspect ratio, `<w>x<h>` sets both
    /// axes, and a percentage scales both, each result rounded to the
    /// nearest cell. An override whose result collapses to zero or exceeds
    /// the 32-bit range leaves the configuration unchanged and fails.
    pub fn override_size(size: &SizeOverride, cfg: &mut MapConfig) -> (r: Result<(), Error>)
        ensures
            match override_spec(*size, old(cfg).width, old(cfg).height) {
                Some((w, h)) => r is Ok && *final(cfg) == (MapConfig {
                    width: w,
                    height: h,
                    ..*old(cfg)
                }),
                None => (r matches Err(e) && e is InvalidSizeOverride) && *final(cfg) == *old(
                    cfg,
                ),
            },
    {
        match size {
            SizeOverride::Width(w) => {
                if cfg.width == 0 {
                    return Err(Error::InvalidSizeOverride);
                }
                proof {
                    assert((w as u128) * (cfg.height as u128) < 0x1_0000_0000u128
                        * 0x1_0000_0000u128) by (nonlinear_arith)
                        requires
                            (w as u128) < 0x1_0000_0000u128,
                            (cfg.height as u128) < 0x1_0000_0000u128,
                    ;
                }
                let n: u128 = (*w as u128) * (cfg.height as u128);
                let d: u128 = cfg.width as u128;
                let h = round_div_exec(n, d);
                if 1 <= h && h <= 0xffff_ffffu128 {
                    cfg.width = *w;
                    cfg.height = h as u32;
                    Ok(())
                } else {
                    Err(Error::InvalidSizeOverride)
                }
            },
            SizeOverride::Height(h) => {
                if cfg.height == 0 {
                    return Err(Error::InvalidSizeOverride);
                }
                proof {
                    assert((h as u128) * (cfg.width as u128) < 0x1_0000_0000u128
                        * 0x1_0000_0000u128) by (nonlinear_arith)
                        requires
                            (h as u128) < 0x1_0000_0000u128,
                            (cfg.width as u128) < 0x1_0000_0000u128,
                    ;
                }
                let n: u128 = (*h as u128) * (cfg.width as u128);
                let d: u128 = cfg.height as u128;
                let w = round_div_exec(n, d);
                if 1 <= w && w <= 0xffff_ffffu128 {
                    cfg.width = w as u32;
                    cfg.height = *h;
                    Ok(())
                } else {
                    Err(Error::InvalidSizeOverride)
                }
            },
            SizeOverride::Exact(w, h) => {
                cfg.width = *w;
                cfg.height = *h;
                Ok(())
            },
            SizeOverride::Percent(num, dec) => {
                if *num == 0 || *dec > 18 {
                    return Err(Error::InvalidSizeOverride);
                }
                let mut denom: u128 = 100;
                let mut i: u32 = 0;
                while i < *dec
                    invariant
                        i <= *dec,
                        *dec <= 18,
                        denom == 100 * pow10(i as nat),
                        denom <= 100_000_000_000_000_000_000u128,
                    decreases *dec - i,
                {
                    proof {
                        lemma_pow10_bound(i as nat);
                        lemma_pow10_bound((i + 1) as nat);
                    }
                    denom = denom * 10;
                    i = i + 1;
                }
                proof {
                    lemma_pow10_bound(*dec as nat);
                }
                proof {
                    assert((cfg.width as u128) * (num as u128) < 0x1_0000_0000u128
                        * 0x1_0000_0000_0000_0000u128 && (cfg.height as u128) * (num as u128)
                        < 0x1_0000_0000u128 * 0x1_0000_0000_0000_0000u128) by (nonlinear_arith)
                        requires
                            (cfg.width as u128) < 0x1_0000_0000u128,
                            (cfg.height as u128) < 0x1_0000_0000u128,
                            (num as u128) < 0x1_0000_0000_0000_0000u128,
                    ;
                }
                let nw: u128 = (cfg.width as u128) * (*num as u128);
                let nh: u128 = (cfg.height as u128) * (*num as u128);
                let w = round_div_exec(nw, denom);
                let h = round_div_exec(nh, denom);
                if 1 <= w && w <= 0xffff_ffffu128 && 1 <= h && h <= 0xffff_ffffu128 {
                    cfg.width = w as u32;
                    cfg.height = h as u32;
                    Ok(())
                } else {
                    Err(Error::InvalidSizeOverride)
                }
            },
        }
    }
}

} // verus!
