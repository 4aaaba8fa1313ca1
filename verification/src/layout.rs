//! Sample layouts. Buffers are planar, `[ch0 frame0..N][ch1 frame0..N]...`, so
//! per-channel processing works on contiguous runs; devices and files are
//! interleaved, `[L, R, L, R, ...]`. These conversions happen once, at the edge.

use vstd::arithmetic::div_mod::{
    lemma_fundamental_div_mod, lemma_fundamental_div_mod_converse, lemma_mod_bound,
    lemma_multiply_divide_lt,
};
use vstd::prelude::*;

verus! {

/// The planar layout of interleaved samples: channel `ch`, frame `f` of the
/// result is interleaved sample `f * channels + ch`. Only whole frames are
/// kept; a trailing partial frame is dropped.
pub open spec fn spec_deinterleave<S>(channels: int, s: Seq<S>) -> Seq<S> {
    let frames = s.len() as int / channels;
    Seq::new((channels * frames) as nat, |i: int| s[(i % frames) * channels + i / frames])
}

/// The first `frames` frames of a planar buffer whose channels start `stride`
/// samples apart, interleaved: sample `f * channels + ch` of the result is
/// frame `f` of channel `ch`.
pub open spec fn spec_interleave<S>(planar: Seq<S>, channels: int, stride: int, frames: int) -> Seq<S> {
    Seq::new((frames * channels) as nat, |i: int| planar[(i % channels) * stride + i / channels])
}

/// Index `i` of an `a` by `b` grid, stored row-major, splits into row `i / b`
/// and column `i % b`, and column-major position `(i % b) * a + i / b` stays
/// inside the grid.
proof fn lemma_grid(i: int, a: int, b: int)
    requires
        0 <= i < a * b,
        b > 0,
    ensures
        0 <= i / b < a,
        0 <= i % b < b,
        i == (i / b) * b + i % b,
        0 <= (i % b) * a + i / b < a * b,
{
    lemma_fundamental_div_mod(i, b);
    lemma_mod_bound(i, b);
    assert(i < b * a) by (nonlinear_arith)
        requires
            i < a * b,
    ;
    lemma_multiply_divide_lt(i, b, a);
    assert(0 <= i / b) by (nonlinear_arith)
        requires
            0 <= i,
            b > 0,
    ;
    let x = i % b;
    let y = i / b;
    assert(0 <= x * a + y < a * b) by (nonlinear_arith)
        requires
            0 <= x < b,
            0 <= y < a,
    ;
    assert(i == y * b + x) by (nonlinear_arith)
        requires
            i == b * y + x,
    ;
}

/// Convert interleaved samples to the planar layout.
pub fn deinterleave<S: Copy>(channels: usize, interleaved: &[S]) -> (planar: Vec<S>)
    requires
        channels > 0,
    ensures
        planar@ == spec_deinterleave(channels as int, interleaved@),
        planar@.len() == channels * (interleaved@.len() as int / channels as int),
{
    let frames = interleaved.len() / channels;
    proof {
        lemma_fundamental_div_mod(interleaved@.len() as int, channels as int);
        lemma_mod_bound(interleaved@.len() as int, channels as int);
        assert(channels * frames <= interleaved@.len()) by (nonlinear_arith)
            requires
                interleaved@.len() == channels * frames + interleaved@.len() as int % (channels as int),
                interleaved@.len() as int % (channels as int) >= 0,
        ;
    }
    let total = channels * frames;
    let mut out: Vec<S> = Vec::new();
    let mut i: usize = 0;
    while i < total
        invariant
            total == channels * frames,
            frames == interleaved@.len() as int / (channels as int),
            total <= interleaved@.len(),
            channels > 0,
            i <= total,
            out@.len() == i,
            forall|k: int|
                0 <= k < i ==> #[trigger] out@[k] == interleaved@[(k % (frames as int)) * (
                channels as int) + k / (frames as int)],
        decreases total - i,
    {
        proof {
            assert(frames > 0) by (nonlinear_arith)
                requires
                    i < channels * frames,
                    0 <= i,
            ;
            lemma_grid(i as int, channels as int, frames as int);
        }
        let src = (i % frames) * channels + i / frames;
        out.push(interleaved[src]);
        i = i + 1;
    }
    assert(out@ =~= spec_deinterleave(channels as int, interleaved@));
    out
}

/// Interleave the first `frames` frames of a planar buffer whose channels start
/// `stride` samples apart.
pub fn interleave<S: Copy>(planar: &[S], channels: usize, stride: usize, frames: usize) -> (out: Vec<S>)
    requires
        channels > 0,
        frames <= stride,
        channels * stride <= planar@.len(),
    ensures
        out@ == spec_interleave(planar@, channels as int, stride as int, frames as int),
{
    let n = planar.len();
    proof {
        assert(frames * channels <= channels * stride) by (nonlinear_arith)
            requires
                frames <= stride,
        ;
    }
    let total = frames * channels;
    let mut out: Vec<S> = Vec::new();
    let mut i: usize = 0;
    while i < total
        invariant
            total == frames * channels,
            n == planar@.len(),
            frames <= stride,
            channels * stride <= planar@.len(),
            channels > 0,
            i <= total,
            out@.len() == i,
            forall|k: int|
                0 <= k < i ==> #[trigger] out@[k] == planar@[(k % (channels as int)) * (stride as int)
                    + k / (channels as int)],
        decreases total - i,
    {
        proof {
            lemma_grid(i as int, frames as int, channels as int);
            let x = i as int % (channels as int);
            let y = i as int / (channels as int);
            assert(x * stride + y < channels * stride) by (nonlinear_arith)
                requires
                    0 <= x < channels,
                    0 <= y < frames,
                    frames <= stride,
            ;
        }
        let src = (i % channels) * stride + i / channels;
        out.push(planar[src]);
        i = i + 1;
    }
    assert(out@ =~= spec_interleave(planar@, channels as int, stride as int, frames as int));
    out
}

/// Interleaving a deinterleaved buffer gives back the original samples (all of
/// them when their count is a whole number of frames).
pub proof fn lemma_interleave_deinterleave<S>(channels: int, s: Seq<S>)
    requires
        channels > 0,
    ensures
        spec_interleave(
            spec_deinterleave(channels, s),
            channels,
            s.len() as int / channels,
            s.len() as int / channels,
        ) == s.take((s.len() as int / channels) * channels),
        s.len() as int % channels == 0 ==> s.len() == (s.len() as int / channels) * channels,
{
    let frames = s.len() as int / channels;
    let p = spec_deinterleave(channels, s);
    let r = spec_interleave(p, channels, frames, frames);
    let n = s.len() as int;
    lemma_fundamental_div_mod(n, channels);
    assert(n == (n / channels) * channels + n % channels) by (nonlinear_arith)
        requires
            n == channels * (n / channels) + n % channels,
    ;
    lemma_mod_bound(n, channels);
    assert forall|k: int| 0 <= k < frames * channels implies #[trigger] r[k] == s[k] by {
        lemma_grid(k, frames, channels);
        let ch = k % channels;
        let f = k / channels;
        let j = ch * frames + f;
        assert(0 <= ch * frames + f < channels * frames) by (nonlinear_arith)
            requires
                0 <= ch < channels,
                0 <= f < frames,
        ;
        lemma_fundamental_div_mod_converse(j, frames, ch, f);
        assert(p[j] == s[f * channels + ch]);
    }
    assert(r =~= s.take(frames * channels));
}

} // verus!
