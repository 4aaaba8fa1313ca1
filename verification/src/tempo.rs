//! Musical time: positions expressed in bars, beats and ticks.
//!
//! Bars, beats and ticks are zero-based. In an `n/d` signature a bar holds `n`
//! beats, each beat is a `1/d` note, and [`TICKS_PER_BEAT`] ticks subdivide a beat.

use vstd::prelude::*;

verus! {

/// Tick resolution within a single beat (the usual sequencer PPQ).
pub const TICKS_PER_BEAT: u32 = 960;

/// A time signature `numerator/denominator`, e.g. 4/4 or 6/8.
#[derive(Clone, Copy, Debug, PartialEq, Eq)]
pub struct TimeSignature {
    pub numerator: u32,
    pub denominator: u32,
}

impl TimeSignature {
    pub fn new(numerator: u32, denominator: u32) -> (sig: Self)
        ensures
            sig.numerator == numerator,
            sig.denominator == denominator,
    {
        TimeSignature { numerator, denominator }
    }
}

impl Default for TimeSignature {
    /// Common time, 4/4.
    fn default() -> (sig: Self)
        ensures
            sig.numerator == 4,
            sig.denominator == 4,
    {
        TimeSignature::new(4, 4)
    }
}

/// A position (or, measured from the origin, a duration) on the musical grid.
/// Fields are stored as given: a beat past the meter's numerator or a tick past
/// [`TICKS_PER_BEAT`] is not normalized.
#[derive(Clone, Copy, Debug, PartialEq, Eq)]
pub struct MusicalTime {
    pub bar: u32,
    pub beat: u32,
    pub tick: u32,
}

impl Default for MusicalTime {
    /// The origin: bar 0, beat 0, tick 0.
    fn default() -> (t: Self)
        ensures
            t == (MusicalTime { bar: 0, beat: 0, tick: 0 }),
    {
        MusicalTime::new(0, 0, 0)
    }
}

/// The exact position of `bar`/`beat`/`tick` under a signature with
/// `numerator` beats per bar, counted in ticks from the origin.
pub open spec fn spec_ticks(bar: u32, beat: u32, tick: u32, numerator: u32) -> int {
    (bar as int * numerator as int + beat as int) * TICKS_PER_BEAT as int + tick as int
}

impl MusicalTime {
    pub fn new(bar: u32, beat: u32, tick: u32) -> (t: Self)
        ensures
            t.bar == bar,
            t.beat == beat,
            t.tick == tick,
    {
        MusicalTime { bar, beat, tick }
    }

    /// The downbeat of `bar` (beat 0, tick 0).
    pub fn bars(bar: u32) -> (t: Self)
        ensures
            t == (MusicalTime { bar, beat: 0, tick: 0 }),
    {
        MusicalTime::new(bar, 0, 0)
    }

    /// `bar` and `beat`, on the beat (tick 0).
    pub fn bar_beat(bar: u32, beat: u32) -> (t: Self)
        ensures
            t == (MusicalTime { bar, beat, tick: 0 }),
    {
        MusicalTime::new(bar, beat, 0)
    }

    /// This position as a whole number of ticks under `sig`: bars unrolled into
    /// beats, beats into ticks. Dividing by [`TICKS_PER_BEAT`] gives the count of
    /// beats; exact, with no rounding.
    pub fn to_ticks(self, sig: TimeSignature) -> (ticks: u128)
        ensures
            ticks == spec_ticks(self.bar, self.beat, self.tick, sig.numerator),
    {
        let bar = self.bar as u128;
        let num = sig.numerator as u128;
        assert(bar * num <= 0xffff_ffffu128 * 0xffff_ffffu128) by (nonlinear_arith)
            requires
                bar <= 0xffff_ffffu128,
                num <= 0xffff_ffffu128,
        ;
        let beats = bar * num + self.beat as u128;
        assert(beats * 960 <= 0x1_0000_0000_0000_0000u128 * 960) by (nonlinear_arith)
            requires
                beats <= 0x1_0000_0000_0000_0000u128,
        ;
        beats * 960 + self.tick as u128
    }
}

} // verus!
