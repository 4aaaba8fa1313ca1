//! The play head: whether the transport is rolling, where it is, and the loop
//! region it wraps around.
//!
//! The audio host asks the transport to cover one device block at a time. The
//! transport answers with the contiguous runs of timeline frames that make up
//! that block, splitting the block exactly where the play head wraps from the
//! loop's end back to its start, so looping is sample-accurate whatever the
//! block size.

use vstd::arithmetic::div_mod::{
    lemma_add_mod_noop_right, lemma_mod_bound, lemma_mod_sub_multiples_vanish, lemma_small_mod,
};
use vstd::prelude::*;

verus! {

/// A loop over the timeline frames `[start, end)`.
#[derive(Clone, Copy, Debug, PartialEq, Eq)]
pub struct LoopRegion {
    pub start: u64,
    pub end: u64,
}

impl LoopRegion {
    pub fn new(start: u64, end: u64) -> (r: Self)
        ensures
            r.start == start,
            r.end == end,
    {
        LoopRegion { start, end }
    }

    /// A region loops only if it is non-empty.
    pub open spec fn spec_is_valid(self) -> bool {
        self.start < self.end
    }

    pub fn is_valid(&self) -> (b: bool)
        ensures
            b == self.spec_is_valid(),
    {
        self.start < self.end
    }
}

/// One contiguous run of a block: `len` frames written from `offset` in the
/// block, playing timeline frames `sample_pos ..` onward.
#[derive(Clone, Copy, Debug, PartialEq, Eq)]
pub struct Segment {
    pub sample_pos: u64,
    pub offset: usize,
    pub len: usize,
}

/// A command from the control side to the transport.
#[derive(Clone, Copy, Debug, PartialEq, Eq)]
pub enum TransportCommand {
    Play,
    /// Halt and return the play head to the start, like a tape transport.
    Stop,
    /// Halt without moving the play head.
    Pause,
    /// Move the play head to an absolute timeline frame.
    Seek { frame: u64 },
    /// Loop over `[start, end)`; an empty or inverted region clears the loop.
    SetLoop { start: u64, end: u64 },
    /// Stop looping; playback continues linearly.
    ClearLoop,
}

/// The loop that an optional region gives: only a non-empty region loops.
pub open spec fn effective_loop(r: Option<LoopRegion>) -> Option<LoopRegion> {
    match r {
        Some(l) => if l.spec_is_valid() { Some(l) } else { None },
        None => None,
    }
}

/// Frames that can be played from `pos` before the play head must wrap, capped
/// at `remaining`. The loop only catches a play head that is before its end.
pub open spec fn run_len(pos: u64, lp: Option<LoopRegion>, remaining: nat) -> nat {
    match lp {
        Some(r) => if pos < r.end && r.end - pos < remaining {
            (r.end - pos) as nat
        } else {
            remaining
        },
        None => remaining,
    }
}

/// Where the play head stands after a run of `n` frames from `pos`: reaching
/// the loop's end wraps it to the loop's start.
pub open spec fn after_run(pos: u64, lp: Option<LoopRegion>, n: nat) -> int {
    match lp {
        Some(r) => if pos < r.end && pos + n == r.end {
            r.start as int
        } else {
            pos + n
        },
        None => pos + n,
    }
}

/// The runs that cover `remaining` frames from block offset `offset`, starting
/// at timeline frame `pos`.
pub open spec fn spec_segments(pos: u64, lp: Option<LoopRegion>, offset: nat, remaining: nat) -> Seq<
    Segment,
>
    decreases remaining,
{
    if remaining == 0 {
        Seq::empty()
    } else {
        let n = run_len(pos, lp, remaining);
        if n == 0 {
            Seq::empty()
        } else {
            seq![Segment { sample_pos: pos, offset: offset as usize, len: n as usize }]
                + spec_segments(after_run(pos, lp, n) as u64, lp, offset + n, (remaining - n) as nat)
        }
    }
}

/// Where the play head stands after covering `remaining` frames from `pos`.
pub open spec fn spec_end_position(pos: u64, lp: Option<LoopRegion>, remaining: nat) -> int
    decreases remaining,
{
    if remaining == 0 {
        pos as int
    } else {
        let n = run_len(pos, lp, remaining);
        if n == 0 {
            pos as int
        } else {
            spec_end_position(after_run(pos, lp, n) as u64, lp, (remaining - n) as nat)
        }
    }
}

/// The timeline frame heard `o` frames after the play head stood at `pos`:
/// linear, except that a play head before a loop's end wraps back into the
/// loop every time it reaches the end.
pub open spec fn play_frame(pos: u64, lp: Option<LoopRegion>, o: nat) -> int {
    match lp {
        Some(r) => if pos < r.end && pos + o >= r.end {
            r.start + (pos + o - r.end) % ((r.end - r.start) as int)
        } else {
            pos + o
        },
        None => pos + o,
    }
}

/// Within a segment, the `j`-th frame is heard where [`play_frame`] says: `j`
/// frames into the segment is `seg.offset - offset + j` frames after `pos`.
pub open spec fn heard_in(pos: u64, lp: Option<LoopRegion>, offset: nat, seg: Segment, j: int) -> bool {
    play_frame(pos, lp, (seg.offset - offset + j) as nat) == seg.sample_pos + j
}

/// `segs` covers block frames `offset .. offset + remaining` with non-empty,
/// back-to-back runs, each frame playing the timeline frame that
/// [`play_frame`] gives for a play head that stood at `pos` at `offset`.
pub open spec fn covers(segs: Seq<Segment>, pos: u64, lp: Option<LoopRegion>, offset: nat, remaining: nat) -> bool {
    &&& (segs.len() == 0 <==> remaining == 0)
    &&& forall|i: int| 0 <= i < segs.len() ==> #[trigger] segs[i].len > 0
    &&& forall|i: int|
        0 <= i < segs.len() ==> offset <= #[trigger] segs[i].offset && segs[i].offset + segs[i].len
            <= offset + remaining
    &&& segs.len() > 0 ==> segs[0].offset == offset && segs.last().offset + segs.last().len
        == offset + remaining
    &&& forall|i: int|
        0 <= i < segs.len() - 1 ==> #[trigger] segs[i + 1].offset == segs[i].offset + segs[i].len
    &&& forall|i: int, j: int|
        0 <= i < segs.len() && 0 <= j < segs[i].len ==> #[trigger] heard_in(pos, lp, offset, segs[i], j)
}

/// Playing `a` frames and then `b` more hears the same frame as playing `a + b`
/// frames at once: the loop wrap does not depend on where a block boundary
/// falls.
pub proof fn lemma_play_frame_composes(pos: u64, lp: Option<LoopRegion>, a: nat, b: nat)
    requires
        effective_loop(lp) == lp,
        0 <= play_frame(pos, lp, a) <= u64::MAX,
    ensures
        play_frame(play_frame(pos, lp, a) as u64, lp, b) == play_frame(pos, lp, a + b),
{
    match lp {
        Some(r) => {
            let len = (r.end - r.start) as int;
            if pos < r.end && pos + a >= r.end {
                let x = pos + a - r.end;
                let m = x % len;
                lemma_mod_bound(x, len);
                lemma_add_mod_noop_right(b as int, x, len);
                assert((b + x % len) % len == (b + x) % len);
                if m + b >= len {
                    lemma_mod_sub_multiples_vanish(m + b, len);
                    assert((-len + (m + b)) % len == (m + b) % len);
                } else {
                    lemma_small_mod((m + b) as nat, len as nat);
                }
            }
        },
        None => {},
    }
}

/// A run never crosses the loop's end, and the play head after a run is where
/// [`play_frame`] puts it.
proof fn lemma_run_is_linear(pos: u64, lp: Option<LoopRegion>, remaining: nat)
    requires
        effective_loop(lp) == lp,
        remaining > 0,
    ensures
        run_len(pos, lp, remaining) > 0,
        run_len(pos, lp, remaining) <= remaining,
        forall|j: int|
            0 <= j < run_len(pos, lp, remaining) ==> #[trigger] play_frame(pos, lp, j as nat) == pos
                + j,
        after_run(pos, lp, run_len(pos, lp, remaining)) == play_frame(
            pos,
            lp,
            run_len(pos, lp, remaining),
        ),
{
    match lp {
        Some(r) => {
            let n = run_len(pos, lp, remaining);
            if pos < r.end && pos + n == r.end {
                lemma_small_mod(0, (r.end - r.start) as nat);
            }
        },
        None => {},
    }
}

proof fn lemma_segments_cover(pos: u64, lp: Option<LoopRegion>, offset: nat, remaining: nat)
    requires
        effective_loop(lp) == lp,
        pos + remaining <= u64::MAX,
        offset + remaining <= usize::MAX,
    ensures
        covers(spec_segments(pos, lp, offset, remaining), pos, lp, offset, remaining),
        spec_end_position(pos, lp, remaining) == play_frame(pos, lp, remaining),
    decreases remaining,
{
    if remaining > 0 {
        lemma_run_is_linear(pos, lp, remaining);
        let n = run_len(pos, lp, remaining);
        let p2 = after_run(pos, lp, n);
        let rest_len = (remaining - n) as nat;
        assert(0 <= p2 && p2 + rest_len <= u64::MAX) by {
            match lp {
                Some(r) => {},
                None => {},
            }
        }
        lemma_segments_cover(p2 as u64, lp, offset + n, rest_len);
        lemma_play_frame_composes(pos, lp, n, rest_len);
        let rest = spec_segments(p2 as u64, lp, offset + n, rest_len);
        let head = Segment { sample_pos: pos, offset: offset as usize, len: n as usize };
        let segs = spec_segments(pos, lp, offset, remaining);
        assert(segs == seq![head] + rest);
        assert forall|i: int, j: int| 0 <= i < segs.len() && 0 <= j < segs[i].len implies #[trigger] heard_in(
            pos,
            lp,
            offset,
            segs[i],
            j,
        ) by {
            if i == 0 {
                assert(segs[0] == head);
                assert(play_frame(pos, lp, j as nat) == pos + j);
            } else {
                assert(segs[i] == rest[i - 1]);
                assert(heard_in(p2 as u64, lp, offset + n, rest[i - 1], j));
                let k = (rest[i - 1].offset - (offset + n) + j) as nat;
                lemma_play_frame_composes(pos, lp, n, k);
            }
        }
        assert forall|i: int| 0 <= i < segs.len() - 1 implies #[trigger] segs[i + 1].offset
            == segs[i].offset + segs[i].len by {
            if i > 0 {
                assert(segs[i] == rest[i - 1] && segs[i + 1] == rest[i]);
                assert(rest[(i - 1) + 1].offset == rest[i - 1].offset + rest[i - 1].len);
            } else {
                assert(segs[1] == rest[0]);
            }
        }
        assert forall|i: int| 0 <= i < segs.len() implies #[trigger] segs[i].len > 0 && offset
            <= segs[i].offset && segs[i].offset + segs[i].len <= offset + remaining by {
            if i > 0 {
                assert(segs[i] == rest[i - 1]);
            }
        }
        if rest.len() > 0 {
            assert(segs.last() == rest.last());
        }
    }
}

proof fn lemma_end_position(pos: u64, lp: Option<LoopRegion>, remaining: nat)
    requires
        effective_loop(lp) == lp,
        pos + remaining <= u64::MAX,
    ensures
        spec_end_position(pos, lp, remaining) == play_frame(pos, lp, remaining),
    decreases remaining,
{
    if remaining > 0 {
        lemma_run_is_linear(pos, lp, remaining);
        let n = run_len(pos, lp, remaining);
        let p2 = after_run(pos, lp, n);
        let rest_len = (remaining - n) as nat;
        assert(0 <= p2 && p2 + rest_len <= u64::MAX) by {
            match lp {
                Some(r) => {},
                None => {},
            }
        }
        lemma_end_position(p2 as u64, lp, rest_len);
        lemma_play_frame_composes(pos, lp, n, rest_len);
    }
}

/// Every frame of a block plays the timeline frame that [`play_frame`] gives,
/// the runs tile the block exactly, and the play head ends where the next
/// block's first frame is heard.
pub proof fn lemma_block_plays_timeline(pos: u64, lp: Option<LoopRegion>, frames: usize)
    requires
        effective_loop(lp) == lp,
        pos + frames <= u64::MAX,
    ensures
        covers(spec_segments(pos, lp, 0, frames as nat), pos, lp, 0, frames as nat),
        spec_end_position(pos, lp, frames as nat) == play_frame(pos, lp, frames as nat),
{
    lemma_segments_cover(pos, lp, 0, frames as nat);
}

/// Rendering `a` frames and then `b` frames lands the play head where
/// rendering `a + b` frames at once does.
pub proof fn lemma_blocks_compose(pos: u64, lp: Option<LoopRegion>, a: nat, b: nat)
    requires
        effective_loop(lp) == lp,
        pos + a + b <= u64::MAX,
    ensures
        spec_end_position(spec_end_position(pos, lp, a) as u64, lp, b) == spec_end_position(
            pos,
            lp,
            a + b,
        ),
{
    lemma_end_position(pos, lp, a);
    let p2 = play_frame(pos, lp, a);
    assert(0 <= p2 && p2 + b <= u64::MAX) by {
        match lp {
            Some(r) => {
                if pos < r.end && pos + a >= r.end {
                    lemma_mod_bound(pos + a - r.end, (r.end - r.start) as int);
                }
            },
            None => {},
        }
    }
    lemma_end_position(p2 as u64, lp, b);
    lemma_end_position(pos, lp, a + b);
    lemma_play_frame_composes(pos, lp, a, b);
}

/// The transport: rolling or not, the play head, and the loop region.
pub struct Transport {
    pub playing: bool,
    position: u64,
    loop_region: Option<LoopRegion>,
}

impl Transport {
    /// Whether the transport is rolling.
    pub closed spec fn is_playing(&self) -> bool {
        self.playing
    }

    /// The play head, in timeline frames.
    pub closed spec fn spec_position(&self) -> u64 {
        self.position
    }

    /// The active loop, if any.
    pub closed spec fn spec_loop(&self) -> Option<LoopRegion> {
        self.loop_region
    }

    /// An active loop is never empty.
    pub closed spec fn well_formed(&self) -> bool {
        self.loop_region matches Some(r) ==> r.spec_is_valid()
    }

    /// Stopped, at frame 0, not looping.
    pub fn new() -> (t: Self)
        ensures
            t.well_formed(),
            !t.is_playing(),
            t.spec_position() == 0,
            t.spec_loop() == None::<LoopRegion>,
    {
        Transport { playing: false, position: 0, loop_region: None }
    }

    pub fn position(&self) -> (p: u64)
        ensures
            p == self.spec_position(),
    {
        self.position
    }

    pub fn loop_region(&self) -> (r: Option<LoopRegion>)
        ensures
            r == self.spec_loop(),
    {
        self.loop_region
    }

    /// Move the play head to an absolute timeline frame.
    pub fn set_position(&mut self, frame: u64)
        requires
            old(self).well_formed(),
        ensures
            final(self).well_formed(),
            final(self).spec_position() == frame,
            final(self).spec_loop() == old(self).spec_loop(),
            final(self).is_playing() == old(self).is_playing(),
    {
        self.position = frame;
    }

    /// Set or clear the loop. An empty or inverted region clears it.
    pub fn set_loop(&mut self, region: Option<LoopRegion>)
        requires
            old(self).well_formed(),
        ensures
            final(self).well_formed(),
            final(self).spec_loop() == effective_loop(region),
            final(self).spec_position() == old(self).spec_position(),
            final(self).is_playing() == old(self).is_playing(),
    {
        self.loop_region = match region {
            Some(r) => if r.is_valid() {
                Some(r)
            } else {
                None
            },
            None => None,
        };
    }

    /// Apply one control command.
    pub fn apply(&mut self, cmd: TransportCommand)
        requires
            old(self).well_formed(),
        ensures
            final(self).well_formed(),
            match cmd {
                TransportCommand::Play => final(self).is_playing() && final(self).spec_position()
                    == old(self).spec_position() && final(self).spec_loop() == old(self).spec_loop(),
                TransportCommand::Stop => !final(self).is_playing() && final(self).spec_position() == 0
                    && final(self).spec_loop() == old(self).spec_loop(),
                TransportCommand::Pause => !final(self).is_playing() && final(self).spec_position()
                    == old(self).spec_position() && final(self).spec_loop() == old(self).spec_loop(),
                TransportCommand::Seek { frame } => final(self).is_playing() == old(self).is_playing()
                    && final(self).spec_position() == frame && final(self).spec_loop() == old(self).spec_loop(),
                TransportCommand::SetLoop { start, end } => final(self).is_playing() == old(self).is_playing()
                    && final(self).spec_position() == old(self).spec_position() && final(self).spec_loop() == effective_loop(Some(LoopRegion { start, end })),
                TransportCommand::ClearLoop => final(self).is_playing() == old(self).is_playing() && final(self).spec_position() == old(self).spec_position() && final(self).spec_loop() == None::<
                    LoopRegion,
                >,
            },
    {
        match cmd {
            TransportCommand::Play => {
                self.playing = true;
            },
            TransportCommand::Stop => {
                self.playing = false;
                self.set_position(0);
            },
            TransportCommand::Pause => {
                self.playing = false;
            },
            TransportCommand::Seek { frame } => {
                self.set_position(frame);
            },
            TransportCommand::SetLoop { start, end } => {
                self.set_loop(Some(LoopRegion::new(start, end)));
            },
            TransportCommand::ClearLoop => {
                self.set_loop(None);
            },
        }
    }

    /// Cover the next `frames` frames of playback: the runs of timeline frames
    /// that make up the block, split where the play head wraps at the loop's
    /// end. The play head advances past the block.
    pub fn render_block(&mut self, frames: usize) -> (segs: Vec<Segment>)
        requires
            old(self).well_formed(),
            old(self).spec_position() + frames <= u64::MAX,
        ensures
            final(self).well_formed(),
            segs@ == spec_segments(old(self).spec_position(), old(self).spec_loop(), 0, frames as nat),
            final(self).spec_position() == spec_end_position(
                old(self).spec_position(),
                old(self).spec_loop(),
                frames as nat,
            ),
            final(self).spec_loop() == old(self).spec_loop(),
            final(self).is_playing() == old(self).is_playing(),
    {
        let ghost p0 = self.position;
        let ghost playing0 = self.playing;
        let lp = self.loop_region;
        let mut segs: Vec<Segment> = Vec::new();
        let mut offset: usize = 0;
        while offset < frames
            invariant
                offset <= frames,
                lp == self.loop_region,
                playing0 == self.playing,
                self.well_formed(),
                self.position + (frames - offset) <= u64::MAX,
                spec_segments(p0, lp, 0, frames as nat) == segs@ + spec_segments(
                    self.position,
                    lp,
                    offset as nat,
                    (frames - offset) as nat,
                ),
                spec_end_position(p0, lp, frames as nat) == spec_end_position(
                    self.position,
                    lp,
                    (frames - offset) as nat,
                ),
            decreases frames - offset,
        {
            let remaining = frames - offset;
            let pos = self.position;
            let mut n: usize = remaining;
            let mut wraps = false;
            let mut wrap_to: u64 = 0;
            match lp {
                Some(r) => {
                    if pos < r.end {
                        let to_end = r.end - pos;
                        if to_end < remaining as u64 {
                            n = to_end as usize;
                        }
                        if to_end == n as u64 {
                            wraps = true;
                            wrap_to = r.start;
                        }
                    }
                },
                None => {},
            }
            assert(n == run_len(pos, lp, remaining as nat));
            let ghost before = segs@;
            segs.push(Segment { sample_pos: pos, offset, len: n });
            if wraps {
                self.position = wrap_to;
            } else {
                self.position = pos + n as u64;
            }
            assert(self.position == after_run(pos, lp, n as nat));
            offset = offset + n;
            assert(spec_segments(pos, lp, (offset - n) as nat, remaining as nat) == seq![
                Segment { sample_pos: pos, offset: (offset - n) as usize, len: n },
            ] + spec_segments(self.position, lp, offset as nat, (frames - offset) as nat));
            assert(before + spec_segments(pos, lp, (offset - n) as nat, remaining as nat) =~= segs@
                + spec_segments(self.position, lp, offset as nat, (frames - offset) as nat));
        }
        segs
    }
}

impl Default for Transport {
    fn default() -> (t: Self)
        ensures
            t.well_formed(),
            !t.is_playing(),
            t.spec_position() == 0,
            t.spec_loop() == None::<LoopRegion>,
    {
        Transport::new()
    }
}

} // verus!
