//! Pieces of the project document: the audio files it references and the
//! positions it places clips at.

use crate::tempo::MusicalTime;
use vstd::prelude::*;

verus! {

/// An audio file the project depends on, stored as a path. Clips refer to
/// sources by their index in the project's source list.
#[derive(Clone, Debug, PartialEq, Eq)]
pub struct Source {
    /// Path to the audio file, relative to the project or absolute.
    pub path: String,
}

impl Source {
    pub fn new(path: String) -> (s: Self)
        ensures
            s.path@ == path@,
    {
        Source { path }
    }
}

/// A point on (or, from the origin, a span of) the timeline: either a raw
/// frame count or a musical position resolved against tempo and meter.
#[derive(Clone, Copy, Debug, PartialEq, Eq)]
pub enum Time {
    /// An absolute position or length in sample frames.
    Frames(u64),
    /// A musical position or length.
    Musical(MusicalTime),
}

impl From<u64> for Time {
    fn from(frames: u64) -> (t: Self) {
        Time::Frames(frames)
    }
}

impl vstd::std_specs::convert::FromSpecImpl<u64> for Time {
    open spec fn obeys_from_spec() -> bool {
        true
    }

    open spec fn from_spec(frames: u64) -> Self {
        Time::Frames(frames)
    }
}

impl From<MusicalTime> for Time {
    fn from(m: MusicalTime) -> (t: Self) {
        Time::Musical(m)
    }
}

impl vstd::std_specs::convert::FromSpecImpl<MusicalTime> for Time {
    open spec fn obeys_from_spec() -> bool {
        true
    }

    open spec fn from_spec(m: MusicalTime) -> Self {
        Time::Musical(m)
    }
}

/// Whether a track sounds: mute silences it outright; otherwise, once any
/// track of the project is soloed, only soloed tracks sound.
pub open spec fn spec_audible(mute: bool, solo: bool, any_solo: bool) -> bool {
    !mute && (!any_solo || solo)
}

/// Some track of `flags` (each `(mute, solo)`) is soloed.
pub open spec fn spec_any_solo(flags: Seq<(bool, bool)>) -> bool {
    exists|i: int| 0 <= i < flags.len() && #[trigger] flags[i].1
}

/// Which tracks sound, given each track's `(mute, solo)` flags. Solo is a
/// project-wide rule: once any track is soloed the others fall silent; mute
/// always wins, even over the track's own solo.
pub fn audible_tracks(flags: &[(bool, bool)]) -> (audible: Vec<bool>)
    ensures
        audible@.len() == flags@.len(),
        forall|i: int|
            0 <= i < flags@.len() ==> #[trigger] audible@[i] == spec_audible(
                flags@[i].0,
                flags@[i].1,
                spec_any_solo(flags@),
            ),
            forall|i: int| 0 <= i < flags@.len() && flags@[i].0 ==> !#[trigger] audible@[i],
            forall|i: int, j: int|
                0 <= i < flags@.len() && 0 <= j < flags@.len() && (#[trigger] flags@[j]).1
                    && !flags@[i].1 ==> !#[trigger] audible@[i],
            forall|i: int|
                0 <= i < flags@.len() && !flags@[i].0 && flags@[i].1 ==> #[trigger] audible@[i],
            (forall|j: int| 0 <= j < flags@.len() ==> !(#[trigger] flags@[j]).1) ==> forall|i: int|
                0 <= i < flags@.len() ==> #[trigger] audible@[i] == !flags@[i].0,
{
    let n = flags.len();
    let mut any_solo = false;
    let mut i: usize = 0;
    while i < n
        invariant
            n == flags@.len(),
            i <= n,
            any_solo == exists|j: int| 0 <= j < i && #[trigger] flags@[j].1,
        decreases n - i,
    {
        if flags[i].1 {
            any_solo = true;
        }
        i = i + 1;
    }
    let mut audible: Vec<bool> = Vec::new();
    let mut k: usize = 0;
    while k < n
        invariant
            n == flags@.len(),
            k <= n,
            any_solo == spec_any_solo(flags@),
            audible@.len() == k,
            forall|j: int|
                0 <= j < k ==> #[trigger] audible@[j] == spec_audible(flags@[j].0, flags@[j].1, any_solo),
        decreases n - k,
    {
        let (mute, solo) = flags[k];
        audible.push(!mute && (!any_solo || solo));
        k = k + 1;
    }
    proof {
        assert forall|i: int, j: int|
            0 <= i < flags@.len() && 0 <= j < flags@.len() && (#[trigger] flags@[j]).1
                && !flags@[i].1 implies !#[trigger] audible@[i] by {
            lemma_solo_rule(flags@, i, j);
        }
        assert forall|i: int|
            0 <= i < flags@.len() && !flags@[i].0 && flags@[i].1 implies #[trigger] audible@[i] by {
            lemma_solo_rule(flags@, i, i);
        }
        if forall|j: int| 0 <= j < flags@.len() ==> !(#[trigger] flags@[j]).1 {
            assert forall|i: int| 0 <= i < flags@.len() implies #[trigger] audible@[i]
                == !flags@[i].0 by {
                lemma_solo_rule(flags@, i, i);
            }
        }
    }
    audible
}

/// The solo rule, for the tracks `i` and `j` of `flags`: a muted track never
/// sounds; once some track `j` is soloed, a track without solo is silent; an
/// unmuted soloed track always sounds; and when no track at all is soloed,
/// exactly the unmuted tracks sound.
pub proof fn lemma_solo_rule(flags: Seq<(bool, bool)>, i: int, j: int)
    requires
        0 <= i < flags.len(),
        0 <= j < flags.len(),
    ensures
        flags[i].0 ==> !spec_audible(flags[i].0, flags[i].1, spec_any_solo(flags)),
        !spec_any_solo(flags) ==> (spec_audible(flags[i].0, flags[i].1, spec_any_solo(flags))
            <==> !flags[i].0),
        spec_any_solo(flags) ==> (spec_audible(flags[i].0, flags[i].1, spec_any_solo(flags))
            <==> (!flags[i].0 && flags[i].1)),
        flags[j].1 && !flags[i].1 ==> !spec_audible(flags[i].0, flags[i].1, spec_any_solo(flags)),
        !flags[i].0 && flags[i].1 ==> spec_audible(flags[i].0, flags[i].1, spec_any_solo(flags)),
        (forall|k: int| 0 <= k < flags.len() ==> !(#[trigger] flags[k]).1) ==> (spec_audible(
            flags[i].0,
            flags[i].1,
            spec_any_solo(flags),
        ) <==> !flags[i].0),
{
    if flags[j].1 {
        assert(spec_any_solo(flags));
    }
    if forall|k: int| 0 <= k < flags.len() ==> !(#[trigger] flags[k]).1 {
        assert(!spec_any_solo(flags));
    }
}

} // verus!
