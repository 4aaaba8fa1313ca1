//! Where a clip sounds on the timeline, and which of its frames are faded.
//!
//! A clip occupies timeline frames `[start, start + len)`. Each block the
//! timeline renders the overlap of that span with the block's window, and
//! scales each frame by the clip's fade-in and fade-out. The fade *shapes* are
//! floating-point curves evaluated by the host; this module decides which
//! frames each fade governs and how far along the fade they are.

use vstd::prelude::*;

verus! {

/// The shape a clip fade traces from silence to full level (and back).
#[derive(Clone, Copy, Debug, PartialEq, Eq)]
pub enum FadeCurve {
    /// A straight line in linear gain.
    Linear,
    /// A sine/cosine quarter-curve: equal-length fades laid over each other
    /// hold constant power.
    EqualPower,
}

impl Default for FadeCurve {
    fn default() -> (c: Self)
        ensures
            c == FadeCurve::Linear,
    {
        FadeCurve::Linear
    }
}

/// The timeline footprint of a clip: it sounds over `[start, start + len)`,
/// fading in over its first `fade_in` frames and out over its last `fade_out`.
#[derive(Clone, Copy, Debug, PartialEq, Eq)]
pub struct ClipSpan {
    pub start: u64,
    pub len: u64,
    pub fade_in: u64,
    pub fade_out: u64,
}

/// How far through each fade one frame of a clip is, as `(numerator,
/// denominator)` progress from silence (0) to full level (1). `None` means the
/// frame is outside that fade and the fade leaves it at full level.
#[derive(Clone, Copy, Debug, PartialEq, Eq)]
pub struct FadeProgress {
    pub fade_in: Option<(u64, u64)>,
    pub fade_out: Option<(u64, u64)>,
}

/// Frame `t` is sounded both by the block `[block_start, block_start + frames)`
/// and by the clip.
pub open spec fn covered(span: ClipSpan, block_start: u64, frames: u64, t: int) -> bool {
    &&& block_start <= t < block_start + frames
    &&& span.start <= t < span.start + span.len
}

/// The fade progress of the frame `local` frames into the clip.
pub open spec fn spec_fade(span: ClipSpan, local: u64) -> FadeProgress {
    let remaining: u64 = if local <= span.len { (span.len - local) as u64 } else { 0 };
    FadeProgress {
        fade_in: if span.fade_in > 0 && local < span.fade_in {
            Some((local, span.fade_in))
        } else {
            None
        },
        fade_out: if span.fade_out > 0 && remaining <= span.fade_out {
            Some((remaining, span.fade_out))
        } else {
            None
        },
    }
}

impl ClipSpan {
    pub fn new(start: u64, len: u64, fade_in: u64, fade_out: u64) -> (s: Self)
        ensures
            s == (ClipSpan { start, len, fade_in, fade_out }),
    {
        ClipSpan { start, len, fade_in, fade_out }
    }

    /// First timeline frame after the clip ends.
    pub fn end(&self) -> (e: u64)
        requires
            self.start + self.len <= u64::MAX,
        ensures
            e == self.start + self.len,
    {
        self.start + self.len
    }

    /// The timeline frames that the clip sounds in the block
    /// `[block_start, block_start + frames)`: `Some((from, to))` for the
    /// non-empty run `[from, to)`, or `None` when the two do not overlap.
    pub fn overlap(&self, block_start: u64, frames: u64) -> (r: Option<(u64, u64)>)
        requires
            self.start + self.len <= u64::MAX,
            block_start + frames <= u64::MAX,
        ensures
            match r {
                Some((from, to)) => from < to && forall|t: int| #[trigger]
                    covered(*self, block_start, frames, t) <==> from <= t < to,
                None => forall|t: int| !#[trigger] covered(*self, block_start, frames, t),
            },
    {
        let block_end = block_start + frames;
        let end = self.start + self.len;
        let from = if block_start > self.start {
            block_start
        } else {
            self.start
        };
        let to = if block_end < end {
            block_end
        } else {
            end
        };
        if from >= to {
            None
        } else {
            Some((from, to))
        }
    }

    /// Where timeline frame `t`, sounded by the clip in the block
    /// `[block_start, block_start + frames)`, stands: `(offset into the block,
    /// frames into the clip)`.
    pub fn block_offsets(&self, block_start: u64, frames: u64, t: u64) -> (pos: (usize, u64))
        requires
            covered(*self, block_start, frames, t as int),
            frames <= usize::MAX,
        ensures
            pos.0 == t - block_start,
            pos.1 == t - self.start,
    {
        ((t - block_start) as usize, t - self.start)
    }

    /// How far through its fades the frame `local` frames into the clip is.
    /// The fade-in is silent at frame 0 and over at frame `fade_in`; the
    /// fade-out counts the frames remaining, `fade_out` entering it and 1 on
    /// the clip's last frame.
    pub fn fade(&self, local: u64) -> (p: FadeProgress)
        ensures
            p == spec_fade(*self, local),
    {
        let remaining = if local <= self.len {
            self.len - local
        } else {
            0
        };
        FadeProgress {
            fade_in: if self.fade_in > 0 && local < self.fade_in {
                Some((local, self.fade_in))
            } else {
                None
            },
            fade_out: if self.fade_out > 0 && remaining <= self.fade_out {
                Some((remaining, self.fade_out))
            } else {
                None
            },
        }
    }
}

/// The source channel that feeds output channel `ch` when the source has
/// `src_channels` channels: the same channel, or the source's last one when it
/// has fewer (so a mono source feeds every output channel).
pub fn source_channel(ch: usize, src_channels: usize) -> (c: usize)
    requires
        src_channels > 0,
    ensures
        c == (if ch < src_channels { ch } else { (src_channels - 1) as usize }),
        c < src_channels,
{
    if ch < src_channels {
        ch
    } else {
        src_channels - 1
    }
}

/// Splitting a block in two never changes which frames of a clip are sounded:
/// the frames covered by `[b, b + n + m)` are exactly those covered by
/// `[b, b + n)` or by `[b + n, b + n + m)`.
pub proof fn lemma_overlap_splits(span: ClipSpan, b: u64, n: u64, m: u64, t: int)
    requires
        b + n + m <= u64::MAX,
    ensures
        covered(span, b, (n + m) as u64, t) <==> (covered(span, b, n, t) || covered(
            span,
            (b + n) as u64,
            m,
            t,
        )),
{
}

/// Frames outside both fades play at full level, and a fade's progress always
/// lies in `[0, 1]`: the fade-in starts silent on the clip's first frame; the
/// fade-out is at full level entering the clip's last `fade_out` frames and
/// one step from silence on its very last frame.
pub proof fn lemma_fade_progress(span: ClipSpan, local: u64)
    requires
        local < span.len,
    ensures
        spec_fade(span, local).fade_in matches Some((num, den)) ==> num < den,
        spec_fade(span, local).fade_out matches Some((num, den)) ==> 0 < num <= den,
        local >= span.fade_in && span.len - local > span.fade_out ==> spec_fade(span, local)
            == (FadeProgress { fade_in: None, fade_out: None }),
        span.fade_in > 0 ==> spec_fade(span, 0).fade_in == Some((0u64, span.fade_in)),
        0 < span.fade_out <= span.len ==> spec_fade(span, (span.len - span.fade_out) as u64).fade_out
            == Some((span.fade_out, span.fade_out)),
        span.fade_out > 0 ==> spec_fade(span, (span.len - 1) as u64).fade_out == Some((1u64, span.fade_out)),
{
}

/// A crossfade: when one clip fades out over its last `n` frames while the next
/// starts on the first of those frames and fades in over `n` frames, on every
/// frame they share the fade-out has `n - j` of `n` frames left while the
/// fade-in is `j` of `n` frames through, so the two progress fractions sum to
/// one (the integer half of an equal-power crossfade).
pub proof fn lemma_crossfade_progress_sums_to_one(out: ClipSpan, inn: ClipSpan, t: u64)
    requires
        0 < out.fade_out <= out.len,
        inn.fade_in == out.fade_out,
        inn.start + out.fade_out == out.start + out.len,
        inn.start <= t < out.start + out.len,
    ensures
        spec_fade(out, (t - out.start) as u64).fade_out matches Some((a, n)) && spec_fade(
            inn,
            (t - inn.start) as u64,
        ).fade_in matches Some((b, m)) && n == m == out.fade_out && a + b == n,
{
}

} // verus!
