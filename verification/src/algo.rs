//! Identifiers for the fixed families of pitch and overlap curves. The
//! curves themselves are closed-form real functions evaluated by the caller's
//! kernel; the library only selects, fingerprints and persists them.

use vstd::prelude::*;

verus! {

/// Selects one of the fixed pitch curves (how linear frequency is mapped to
/// a perceptual pitch axis).
#[derive(Clone, Copy, PartialEq, Eq, Structural, Debug)]
pub enum PitchCurve {
    /// Logarithmic (equal-division-of-the-octave) pitch.
    Edo,
    /// ERB-rate pitch.
    Erb,
}

/// Selects one of the fixed overlap curves (how two partials' pitch distance
/// turns into a dissonance or consonance contribution).
#[derive(Clone, Copy, PartialEq, Eq, Structural, Debug)]
pub enum OverlapCurve {
    ExpDiss,
    TrapDiss,
    TriCons,
    TrapCons,
}

impl PitchCurve {
    /// The on-disk variant tag.
    pub open spec fn tag(self) -> u32 {
        match self {
            PitchCurve::Edo => 0u32,
            PitchCurve::Erb => 1u32,
        }
    }

    pub fn tag_exec(&self) -> (r: u32)
        ensures
            r == self.tag(),
    {
        match self {
            PitchCurve::Edo => 0u32,
            PitchCurve::Erb => 1u32,
        }
    }
}

impl OverlapCurve {
    /// The on-disk variant tag.
    pub open spec fn tag(self) -> u32 {
        match self {
            OverlapCurve::ExpDiss => 0u32,
            OverlapCurve::TrapDiss => 1u32,
            OverlapCurve::TriCons => 2u32,
            OverlapCurve::TrapCons => 3u32,
        }
    }

    pub fn tag_exec(&self) -> (r: u32)
        ensures
            r == self.tag(),
    {
        match self {
            OverlapCurve::ExpDiss => 0u32,
            OverlapCurve::TrapDiss => 1u32,
            OverlapCurve::TriCons => 2u32,
            OverlapCurve::TrapCons => 3u32,
        }
    }
}

} // verus!
