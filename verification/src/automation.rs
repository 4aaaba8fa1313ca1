//! Parameter automation: a sorted list of `(frame, value)` breakpoints that
//! describes how one parameter moves over time.
//!
//! The envelope is generic over the value it carries; the host instantiates it
//! with its sample type and performs the ramp arithmetic itself. This module
//! owns the structure: keeping the breakpoints sorted, overwriting a repeated
//! frame, and deciding, for any timeline frame, which breakpoint(s) govern it.

use vstd::prelude::*;

verus! {

/// How an [`Envelope`] bridges the gap between two breakpoints.
#[derive(Clone, Copy, Debug, PartialEq, Eq)]
pub enum Interp {
    /// Hold the earlier breakpoint's value until the next one (a stepped knob).
    Step,
    /// Straight-line ramp from one breakpoint to the next.
    Linear,
}

impl Default for Interp {
    fn default() -> (i: Self)
        ensures
            i == Interp::Linear,
    {
        Interp::Linear
    }
}

/// What an envelope says about one timeline frame.
#[derive(Clone, Copy, Debug, PartialEq, Eq)]
pub enum Reading<T> {
    /// The parameter sits at exactly this value.
    Hold(T),
    /// The parameter is on a straight line from `(from_frame, from)` to
    /// `(to_frame, to)`; the frame asked about lies strictly between the two.
    Ramp { from_frame: u64, from: T, to_frame: u64, to: T },
}

/// Breakpoint frames strictly increase.
pub open spec fn sorted_frames<T>(s: Seq<(u64, T)>) -> bool {
    forall|i: int, j: int| 0 <= i < j < s.len() ==> #[trigger] s[i].0 < #[trigger] s[j].0
}

/// The number of breakpoints strictly before `frame` in a sorted list: the index
/// at which a breakpoint for `frame` is found or would be inserted.
pub open spec fn lower_bound<T>(s: Seq<(u64, T)>, frame: u64) -> nat
    decreases s.len(),
{
    if s.len() == 0 {
        0
    } else if s[0].0 >= frame {
        0
    } else {
        1 + lower_bound(s.drop_first(), frame)
    }
}

/// The breakpoint list after placing `(frame, value)`: a point already at
/// `frame` is overwritten, otherwise the point is inserted in frame order.
pub open spec fn spec_add_point<T>(s: Seq<(u64, T)>, frame: u64, value: T) -> Seq<(u64, T)> {
    let i = lower_bound(s, frame) as int;
    if i < s.len() && s[i].0 == frame {
        s.update(i, (frame, value))
    } else {
        s.insert(i, (frame, value))
    }
}

/// The breakpoint list built by placing `pts` one after another, in order.
pub open spec fn spec_from_points<T>(pts: Seq<(u64, T)>) -> Seq<(u64, T)>
    decreases pts.len(),
{
    if pts.len() == 0 {
        Seq::empty()
    } else {
        spec_add_point(spec_from_points(pts.drop_last()), pts.last().0, pts.last().1)
    }
}

/// The envelope's reading at `frame`: `None` with no breakpoints; the
/// breakpoint's value exactly on one; the first value before the first point and
/// the last value after the last (no extrapolation); in between, the earlier
/// value for [`Interp::Step`] or the ramp between the two neighbours for
/// [`Interp::Linear`].
pub open spec fn spec_reading<T>(s: Seq<(u64, T)>, interp: Interp, frame: u64) -> Option<Reading<T>> {
    let i = lower_bound(s, frame) as int;
    if s.len() == 0 {
        None
    } else if i < s.len() && s[i].0 == frame {
        Some(Reading::Hold(s[i].1))
    } else if i == 0 {
        Some(Reading::Hold(s[0].1))
    } else if i >= s.len() {
        Some(Reading::Hold(s[s.len() - 1].1))
    } else {
        match interp {
            Interp::Step => Some(Reading::Hold(s[i - 1].1)),
            Interp::Linear => Some(
                Reading::Ramp { from_frame: s[i - 1].0, from: s[i - 1].1, to_frame: s[i].0, to: s[i].1 },
            ),
        }
    }
}

/// `(frame, value)` is one of the breakpoints of `s`.
pub open spec fn has_point<T>(s: Seq<(u64, T)>, frame: u64, value: T) -> bool {
    exists|k: int| 0 <= k < s.len() && #[trigger] s[k] == (frame, value)
}

/// In a sorted list, the index that separates the points before `frame` from the
/// points at or after it is `lower_bound`.
proof fn lemma_lower_bound_at<T>(s: Seq<(u64, T)>, frame: u64, i: int)
    requires
        0 <= i <= s.len(),
        forall|k: int| 0 <= k < i ==> #[trigger] s[k].0 < frame,
        forall|k: int| i <= k < s.len() ==> #[trigger] s[k].0 >= frame,
    ensures
        lower_bound(s, frame) == i,
    decreases s.len(),
{
    if s.len() > 0 && i > 0 {
        let t = s.drop_first();
        assert forall|k: int| 0 <= k < i - 1 implies #[trigger] t[k].0 < frame by {
            assert(t[k] == s[k + 1]);
        }
        assert forall|k: int| i - 1 <= k < t.len() implies #[trigger] t[k].0 >= frame by {
            assert(t[k] == s[k + 1]);
        }
        lemma_lower_bound_at(t, frame, i - 1);
    } else if s.len() > 0 {
        assert(s[0].0 >= frame);
    }
}

/// `lower_bound` does separate the earlier points from the rest.
proof fn lemma_lower_bound_splits<T>(s: Seq<(u64, T)>, frame: u64)
    requires
        sorted_frames(s),
    ensures
        lower_bound(s, frame) <= s.len(),
        forall|k: int| 0 <= k < lower_bound(s, frame) ==> #[trigger] s[k].0 < frame,
        forall|k: int| lower_bound(s, frame) <= k < s.len() ==> #[trigger] s[k].0 >= frame,
    decreases s.len(),
{
    if s.len() > 0 {
        let t = s.drop_first();
        assert(sorted_frames(t)) by {
            assert forall|i: int, j: int| 0 <= i < j < t.len() implies #[trigger] t[i].0
                < #[trigger] t[j].0 by {
                assert(t[i] == s[i + 1] && t[j] == s[j + 1]);
            }
        }
        lemma_lower_bound_splits(t, frame);
        if s[0].0 >= frame {
            assert forall|k: int| 0 <= k < s.len() implies #[trigger] s[k].0 >= frame by {
                if k > 0 {
                    assert(s[0].0 < s[k].0);
                }
            }
        } else {
            assert forall|k: int| 0 <= k < lower_bound(s, frame) implies #[trigger] s[k].0
                < frame by {
                if k > 0 {
                    assert(s[k] == t[k - 1]);
                }
            }
            assert forall|k: int| lower_bound(s, frame) <= k < s.len() implies #[trigger] s[k].0
                >= frame by {
                assert(s[k] == t[k - 1]);
            }
        }
    }
}

/// Placing a point keeps the frames strictly increasing.
proof fn lemma_add_point_sorted<T>(s: Seq<(u64, T)>, frame: u64, value: T)
    requires
        sorted_frames(s),
    ensures
        sorted_frames(spec_add_point(s, frame, value)),
{
    lemma_lower_bound_splits(s, frame);
    let i = lower_bound(s, frame) as int;
    let r = spec_add_point(s, frame, value);
    if i < s.len() && s[i].0 == frame {
        assert forall|a: int, b: int| 0 <= a < b < r.len() implies #[trigger] r[a].0
            < #[trigger] r[b].0 by {
            assert(r[a].0 == s[a].0 && r[b].0 == s[b].0);
        }
    } else {
        assert forall|a: int, b: int| 0 <= a < b < r.len() implies #[trigger] r[a].0
            < #[trigger] r[b].0 by {
            if b < i {
                assert(r[a] == s[a] && r[b] == s[b]);
            } else if b == i {
                assert(r[a] == s[a]);
            } else if a == i {
                assert(r[b] == s[b - 1]);
            } else if a < i {
                assert(r[a] == s[a] && r[b] == s[b - 1]);
            } else {
                assert(r[a] == s[a - 1] && r[b] == s[b - 1]);
            }
        }
    }
}


/// Placing `(frame, value)` and then reading at `frame` gives back exactly
/// `value`, whatever the interpolation.
pub proof fn lemma_reading_at_added_point<T>(s: Seq<(u64, T)>, interp: Interp, frame: u64, value: T)
    requires
        sorted_frames(s),
    ensures
        spec_reading(spec_add_point(s, frame, value), interp, frame) == Some(Reading::Hold(value)),
{
    lemma_lower_bound_splits(s, frame);
    let i = lower_bound(s, frame) as int;
    let r = spec_add_point(s, frame, value);
    assert forall|k: int| 0 <= k < i implies #[trigger] r[k].0 < frame by {
        assert(r[k] == s[k]);
    }
    assert forall|k: int| i <= k < r.len() implies #[trigger] r[k].0 >= frame by {
        if k > i {
            if i < s.len() && s[i].0 == frame {
                assert(r[k] == s[k]);
            } else {
                assert(r[k] == s[k - 1]);
            }
        }
    }
    lemma_lower_bound_at(r, frame, i);
}

/// Placing two points at the same frame leaves only the second: a repeated
/// frame overwrites, so an envelope never holds a discontinuity by accident.
pub proof fn lemma_add_point_overwrites<T>(s: Seq<(u64, T)>, frame: u64, first: T, second: T)
    requires
        sorted_frames(s),
    ensures
        spec_add_point(spec_add_point(s, frame, first), frame, second) == spec_add_point(
            s,
            frame,
            second,
        ),
{
    lemma_lower_bound_splits(s, frame);
    let i = lower_bound(s, frame) as int;
    let r = spec_add_point(s, frame, first);
    assert forall|k: int| 0 <= k < i implies #[trigger] r[k].0 < frame by {
        assert(r[k] == s[k]);
    }
    assert forall|k: int| i <= k < r.len() implies #[trigger] r[k].0 >= frame by {
        if k > i {
            if i < s.len() && s[i].0 == frame {
                assert(r[k] == s[k]);
            } else {
                assert(r[k] == s[k - 1]);
            }
        }
    }
    lemma_lower_bound_at(r, frame, i);
    if i < s.len() && s[i].0 == frame {
        assert(r.update(i, (frame, second)) =~= s.update(i, (frame, second)));
    } else {
        assert(r.update(i, (frame, second)) =~= s.insert(i, (frame, second)));
    }
}

/// Placing a point at `frame` leaves every breakpoint at another frame as it
/// was, adds `(frame, value)`, and removes any other value at `frame`.
pub proof fn lemma_add_point_is_map_insert<T>(s: Seq<(u64, T)>, frame: u64, value: T, other: u64, w: T)
    requires
        sorted_frames(s),
    ensures
        has_point(spec_add_point(s, frame, value), frame, value),
        other != frame ==> (has_point(spec_add_point(s, frame, value), other, w) <==> has_point(
            s,
            other,
            w,
        )),
        has_point(spec_add_point(s, frame, value), frame, w) ==> w == value,
{
    lemma_lower_bound_splits(s, frame);
    lemma_add_point_sorted(s, frame, value);
    let i = lower_bound(s, frame) as int;
    let r = spec_add_point(s, frame, value);
    let replaced = i < s.len() && s[i].0 == frame;
    assert(r[i] == (frame, value));
    if other != frame {
        if has_point(s, other, w) {
            let k = choose|k: int| 0 <= k < s.len() && #[trigger] s[k] == (other, w);
            if replaced {
                assert(k != i);
                assert(r[k] == (other, w));
            } else if k < i {
                assert(r[k] == (other, w));
            } else {
                assert(r[k + 1] == (other, w));
            }
        }
        if has_point(r, other, w) {
            let k = choose|k: int| 0 <= k < r.len() && #[trigger] r[k] == (other, w);
            if replaced {
                assert(s[k] == (other, w));
            } else if k < i {
                assert(s[k] == (other, w));
            } else {
                assert(k != i);
                assert(s[k - 1] == (other, w));
            }
        }
    }
    if has_point(r, frame, w) {
        let k = choose|k: int| 0 <= k < r.len() && #[trigger] r[k] == (frame, w);
        if k != i {
            if k < i {
                assert(r[k].0 < r[i].0);
            } else {
                assert(r[i].0 < r[k].0);
            }
        }
    }
}

/// A ramp always brackets the frame it was read at strictly, so the distance
/// from the earlier breakpoint is positive and smaller than the gap between
/// the two breakpoints.
pub proof fn lemma_ramp_brackets_frame<T>(s: Seq<(u64, T)>, interp: Interp, frame: u64)
    requires
        sorted_frames(s),
    ensures
        spec_reading(s, interp, frame) matches Some(Reading::Ramp { from_frame, to_frame, .. }) ==> from_frame < frame < to_frame,
{
    lemma_lower_bound_splits(s, frame);
}

/// Two sorted breakpoint lists holding the same points are the same list.
proof fn lemma_same_points_same_list<T>(a: Seq<(u64, T)>, b: Seq<(u64, T)>)
    requires
        sorted_frames(a),
        sorted_frames(b),
        forall|f: u64, v: T| has_point(a, f, v) <==> has_point(b, f, v),
    ensures
        a == b,
    decreases a.len() + b.len(),
{
    if a.len() == 0 || b.len() == 0 {
        if a.len() > 0 {
            assert(has_point(a, a[0].0, a[0].1));
        }
        if b.len() > 0 {
            assert(has_point(b, b[0].0, b[0].1));
        }
        assert(a =~= b);
    } else {
        assert(has_point(a, a[0].0, a[0].1));
        assert(has_point(b, b[0].0, b[0].1));
        let ka = choose|k: int| 0 <= k < b.len() && #[trigger] b[k] == (a[0].0, a[0].1);
        let kb = choose|k: int| 0 <= k < a.len() && #[trigger] a[k] == (b[0].0, b[0].1);
        if ka > 0 {
            assert(b[0].0 < b[ka].0);
        }
        if kb > 0 {
            assert(a[0].0 < a[kb].0);
        }
        assert(a[0] == b[0]);
        let ta = a.drop_first();
        let tb = b.drop_first();
        assert(sorted_frames(ta)) by {
            assert forall|i: int, j: int| 0 <= i < j < ta.len() implies #[trigger] ta[i].0
                < #[trigger] ta[j].0 by {
                assert(ta[i] == a[i + 1] && ta[j] == a[j + 1]);
            }
        }
        assert(sorted_frames(tb)) by {
            assert forall|i: int, j: int| 0 <= i < j < tb.len() implies #[trigger] tb[i].0
                < #[trigger] tb[j].0 by {
                assert(tb[i] == b[i + 1] && tb[j] == b[j + 1]);
            }
        }
        assert forall|f: u64, v: T| has_point(ta, f, v) <==> has_point(tb, f, v) by {
            if has_point(ta, f, v) {
                let k = choose|k: int| 0 <= k < ta.len() && #[trigger] ta[k] == (f, v);
                assert(a[k + 1] == (f, v));
                assert(has_point(a, f, v));
                let m = choose|m: int| 0 <= m < b.len() && #[trigger] b[m] == (f, v);
                assert(a[0].0 < a[k + 1].0);
                assert(m != 0);
                assert(tb[m - 1] == (f, v));
            }
            if has_point(tb, f, v) {
                let k = choose|k: int| 0 <= k < tb.len() && #[trigger] tb[k] == (f, v);
                assert(b[k + 1] == (f, v));
                assert(has_point(b, f, v));
                let m = choose|m: int| 0 <= m < a.len() && #[trigger] a[m] == (f, v);
                assert(b[0].0 < b[k + 1].0);
                assert(m != 0);
                assert(ta[m - 1] == (f, v));
            }
        }
        lemma_same_points_same_list(ta, tb);
        assert(a =~= seq![a[0]] + ta);
        assert(b =~= seq![b[0]] + tb);
    }
}

/// Breakpoints at different frames can be placed in either order: the
/// resulting envelope is the same, which is why an envelope can be built from
/// its points in any order.
pub proof fn lemma_add_point_commutes<T>(s: Seq<(u64, T)>, f: u64, v: T, g: u64, w: T)
    requires
        sorted_frames(s),
        f != g,
    ensures
        spec_add_point(spec_add_point(s, f, v), g, w) == spec_add_point(
            spec_add_point(s, g, w),
            f,
            v,
        ),
{
    let a1 = spec_add_point(s, f, v);
    let b1 = spec_add_point(s, g, w);
    lemma_add_point_sorted(s, f, v);
    lemma_add_point_sorted(s, g, w);
    let a = spec_add_point(a1, g, w);
    let b = spec_add_point(b1, f, v);
    lemma_add_point_sorted(a1, g, w);
    lemma_add_point_sorted(b1, f, v);
    assert forall|h: u64, u: T| has_point(a, h, u) <==> has_point(b, h, u) by {
        lemma_add_point_is_map_insert(s, f, v, h, u);
        lemma_add_point_is_map_insert(s, g, w, h, u);
        lemma_add_point_is_map_insert(a1, g, w, h, u);
        lemma_add_point_is_map_insert(b1, f, v, h, u);
    }
    lemma_same_points_same_list(a, b);
}


/// The value the last pair at `frame` in `pts` gives, if any pair does.
pub open spec fn last_value<T>(pts: Seq<(u64, T)>, frame: u64) -> Option<T>
    decreases pts.len(),
{
    if pts.len() == 0 {
        None
    } else if pts.last().0 == frame {
        Some(pts.last().1)
    } else {
        last_value(pts.drop_last(), frame)
    }
}

/// Building from pairs keeps, for each frame, exactly the last value given.
pub proof fn lemma_from_points_keeps_last_values<T>(pts: Seq<(u64, T)>, frame: u64, value: T)
    ensures
        sorted_frames(spec_from_points(pts)),
        has_point(spec_from_points(pts), frame, value) <==> last_value(pts, frame) == Some(value),
    decreases pts.len(),
{
    if pts.len() > 0 {
        let prev = spec_from_points(pts.drop_last());
        lemma_from_points_keeps_last_values(pts.drop_last(), frame, value);
        lemma_add_point_sorted(prev, pts.last().0, pts.last().1);
        lemma_add_point_is_map_insert(prev, pts.last().0, pts.last().1, frame, value);
    }
}

/// An envelope built from pairs depends only on the last value given for each
/// frame, not on the order of the pairs: lists that agree on it (such as two
/// orderings of pairs at distinct frames) build the same envelope.
pub proof fn lemma_from_points_order_free<T>(a: Seq<(u64, T)>, b: Seq<(u64, T)>)
    requires
        forall|f: u64| #[trigger] last_value(a, f) == last_value(b, f),
    ensures
        spec_from_points(a) == spec_from_points(b),
{
    assert forall|f: u64, v: T| has_point(spec_from_points(a), f, v) <==> has_point(
        spec_from_points(b),
        f,
        v,
    ) by {
        lemma_from_points_keeps_last_values(a, f, v);
        lemma_from_points_keeps_last_values(b, f, v);
        assert(last_value(a, f) == last_value(b, f));
    }
    if a.len() > 0 {
        lemma_from_points_keeps_last_values(a, a[0].0, a[0].1);
    }
    if b.len() > 0 {
        lemma_from_points_keeps_last_values(b, b[0].0, b[0].1);
    }
    lemma_same_points_same_list(spec_from_points(a), spec_from_points(b));
}

/// On a breakpoint, the reading is that breakpoint's value.
proof fn lemma_reading_on_point<T>(s: Seq<(u64, T)>, interp: Interp, frame: u64, k: int)
    requires
        sorted_frames(s),
        0 <= k < s.len(),
        s[k].0 == frame,
    ensures
        spec_reading(s, interp, frame) == Some(Reading::Hold(s[k].1)),
{
    assert forall|j: int| 0 <= j < k implies #[trigger] s[j].0 < frame by {}
    assert forall|j: int| k <= j < s.len() implies #[trigger] s[j].0 >= frame by {}
    lemma_lower_bound_at(s, frame, k);
}

/// Before the first breakpoint, the reading is its value.
proof fn lemma_reading_before_first<T>(s: Seq<(u64, T)>, interp: Interp, frame: u64)
    requires
        sorted_frames(s),
        s.len() > 0,
        frame < s[0].0,
    ensures
        spec_reading(s, interp, frame) == Some(Reading::Hold(s[0].1)),
{
    assert forall|j: int| 0 <= j < s.len() implies #[trigger] s[j].0 >= frame by {
        if j > 0 {
            assert(s[0].0 < s[j].0);
        }
    }
    lemma_lower_bound_at(s, frame, 0);
}

/// After the last breakpoint, the reading is its value.
proof fn lemma_reading_after_last<T>(s: Seq<(u64, T)>, interp: Interp, frame: u64)
    requires
        sorted_frames(s),
        s.len() > 0,
        frame > s[s.len() - 1].0,
    ensures
        spec_reading(s, interp, frame) == Some(Reading::Hold(s[s.len() - 1].1)),
{
    assert forall|j: int| 0 <= j < s.len() implies #[trigger] s[j].0 < frame by {
        if j < s.len() - 1 {
            assert(s[j].0 < s[s.len() - 1].0);
        }
    }
    lemma_lower_bound_at(s, frame, s.len() as int);
}

/// The reading strictly between the breakpoints `i - 1` and `i`.
pub open spec fn reading_between<T>(s: Seq<(u64, T)>, interp: Interp, i: int) -> Option<Reading<T>> {
    match interp {
        Interp::Step => Some(Reading::Hold(s[i - 1].1)),
        Interp::Linear => Some(
            Reading::Ramp { from_frame: s[i - 1].0, from: s[i - 1].1, to_frame: s[i].0, to: s[i].1 },
        ),
    }
}

/// Strictly between two neighbouring breakpoints, the reading holds the
/// earlier value or ramps between the two.
proof fn lemma_reading_inside<T>(s: Seq<(u64, T)>, interp: Interp, frame: u64, i: int)
    requires
        sorted_frames(s),
        0 < i < s.len(),
        s[i - 1].0 < frame < s[i].0,
    ensures
        spec_reading(s, interp, frame) == reading_between(s, interp, i),
{
    assert forall|j: int| 0 <= j < i implies #[trigger] s[j].0 < frame by {
        if j < i - 1 {
            assert(s[j].0 < s[i - 1].0);
        }
    }
    assert forall|j: int| i <= j < s.len() implies #[trigger] s[j].0 >= frame by {
        if j > i {
            assert(s[i].0 < s[j].0);
        }
    }
    lemma_lower_bound_at(s, frame, i);
}

/// What an envelope reads at `frame`, by cases on its sorted breakpoints: no
/// breakpoints, nothing; on a breakpoint, its value; before the first or after
/// the last, that point's value; strictly between two neighbours, the earlier
/// value when stepped, the ramp between them when linear.
pub proof fn lemma_reading_cases<T>(s: Seq<(u64, T)>, interp: Interp, frame: u64)
    requires
        sorted_frames(s),
    ensures
        s.len() == 0 ==> spec_reading(s, interp, frame) is None,
        forall|k: int|
            0 <= k < s.len() && (#[trigger] s[k]).0 == frame ==> spec_reading(s, interp, frame)
                == Some(Reading::Hold(s[k].1)),
        s.len() > 0 && frame < s[0].0 ==> spec_reading(s, interp, frame) == Some(
            Reading::Hold(s[0].1),
        ),
        s.len() > 0 && frame > s[s.len() - 1].0 ==> spec_reading(s, interp, frame) == Some(
            Reading::Hold(s[s.len() - 1].1),
        ),
        forall|i: int|
            0 < i < s.len() && s[i - 1].0 < frame < (#[trigger] s[i]).0 ==> spec_reading(
                s,
                interp,
                frame,
            ) == reading_between(s, interp, i),
{
    assert forall|k: int| 0 <= k < s.len() && (#[trigger] s[k]).0 == frame implies spec_reading(
        s,
        interp,
        frame,
    ) == Some(Reading::Hold(s[k].1)) by {
        lemma_reading_on_point(s, interp, frame, k);
    }
    if s.len() > 0 && frame < s[0].0 {
        lemma_reading_before_first(s, interp, frame);
    }
    if s.len() > 0 && frame > s[s.len() - 1].0 {
        lemma_reading_after_last(s, interp, frame);
    }
    assert forall|i: int|
        0 < i < s.len() && s[i - 1].0 < frame < (#[trigger] s[i]).0 implies spec_reading(
        s,
        interp,
        frame,
    ) == reading_between(s, interp, i) by {
        lemma_reading_inside(s, interp, frame, i);
    }
}

/// No two pairs of `pts` share a frame.
pub open spec fn distinct_frames<T>(pts: Seq<(u64, T)>) -> bool {
    forall|i: int, j: int| 0 <= i < j < pts.len() ==> #[trigger] pts[i].0 != #[trigger] pts[j].0
}

/// `last_value` is `None` exactly when no pair sits at `frame`, and a value it
/// gives comes from a pair of `pts`.
proof fn lemma_last_value_found<T>(pts: Seq<(u64, T)>, frame: u64)
    ensures
        last_value(pts, frame) is None <==> forall|k: int| 0 <= k < pts.len() ==> #[trigger] pts[k].0
            != frame,
        last_value(pts, frame) matches Some(v) ==> pts.contains((frame, v)),
    decreases pts.len(),
{
    if pts.len() > 0 {
        let init = pts.drop_last();
        lemma_last_value_found(init, frame);
        assert forall|k: int| 0 <= k < init.len() implies #[trigger] init[k] == pts[k] by {}
        if last_value(pts, frame) is None {
            assert forall|k: int| 0 <= k < pts.len() implies #[trigger] pts[k].0 != frame by {
                if k < init.len() {
                    assert(init[k] == pts[k]);
                }
            }
        }
        if forall|k: int| 0 <= k < pts.len() ==> #[trigger] pts[k].0 != frame {
            assert(pts[pts.len() - 1].0 != frame);
            assert forall|k: int| 0 <= k < init.len() implies #[trigger] init[k].0 != frame by {
                assert(init[k] == pts[k]);
            }
        }
        if pts.last().0 == frame {
            assert(pts[pts.len() - 1] == (frame, pts.last().1));
        } else if let Some(v) = last_value(init, frame) {
            let k = choose|k: int| 0 <= k < init.len() && init[k] == (frame, v);
            assert(pts[k] == (frame, v));
        }
    }
}

/// With pairwise distinct frames, the order in which the pairs are given does
/// not matter: any permutation of them builds the same envelope.
pub proof fn lemma_from_points_permutation<T>(a: Seq<(u64, T)>, b: Seq<(u64, T)>)
    requires
        distinct_frames(a),
        a.to_multiset() == b.to_multiset(),
    ensures
        spec_from_points(a) == spec_from_points(b),
{
    a.to_multiset_ensures();
    b.to_multiset_ensures();
    assert forall|f: u64| #[trigger] last_value(a, f) == last_value(b, f) by {
        lemma_last_value_found(a, f);
        lemma_last_value_found(b, f);
        if let Some(v) = last_value(a, f) {
            let i = choose|i: int| 0 <= i < a.len() && a[i] == (f, v);
            assert(a.to_multiset().count((f, v)) > 0);
            assert(b.contains((f, v)));
            let k = choose|k: int| 0 <= k < b.len() && b[k] == (f, v);
            assert(b[k].0 == f);
            if let Some(w) = last_value(b, f) {
                assert(b.to_multiset().count((f, w)) > 0);
                assert(a.contains((f, w)));
                let j = choose|j: int| 0 <= j < a.len() && a[j] == (f, w);
                assert(a[i].0 == a[j].0);
                assert(i == j);
            }
        } else {
            if let Some(w) = last_value(b, f) {
                assert(b.to_multiset().count((f, w)) > 0);
                assert(a.contains((f, w)));
                let j = choose|j: int| 0 <= j < a.len() && a[j] == (f, w);
                assert(a[j].0 == f);
            }
        }
    }
    lemma_from_points_order_free(a, b);
}

/// A sorted list of `(frame, value)` breakpoints describing how one parameter
/// moves over time.
pub struct Envelope<T> {
    points: Vec<(u64, T)>,
    interp: Interp,
}

impl<T: Copy> Envelope<T> {
    /// The breakpoints, in frame order.
    pub closed spec fn spec_points(&self) -> Seq<(u64, T)> {
        self.points@
    }

    /// How the envelope interpolates between breakpoints.
    pub closed spec fn spec_interp(&self) -> Interp {
        self.interp
    }

    /// The breakpoints are kept in strictly increasing frame order.
    pub open spec fn well_formed(&self) -> bool {
        sorted_frames(self.spec_points())
    }

    /// An empty envelope with the given interpolation.
    pub fn new(interp: Interp) -> (env: Self)
        ensures
            env.well_formed(),
            env.spec_points() == Seq::<(u64, T)>::empty(),
            env.spec_interp() == interp,
    {
        Envelope { points: Vec::new(), interp }
    }

    /// Build from `(frame, value)` pairs in any order; a later pair at a frame
    /// already seen overwrites the earlier one.
    pub fn from_points(interp: Interp, points: Vec<(u64, T)>) -> (env: Self)
        ensures
            env.well_formed(),
            env.spec_points() == spec_from_points(points@),
            env.spec_interp() == interp,
    {
        let mut env = Envelope::new(interp);
        let n = points.len();
        let mut i: usize = 0;
        while i < n
            invariant
                n == points.len(),
                i <= n,
                env.well_formed(),
                env.spec_interp() == interp,
                env.spec_points() == spec_from_points(points@.take(i as int)),
            decreases n - i,
        {
            let (frame, value) = points[i];
            env.add_point(frame, value);
            assert(points@.take(i + 1).drop_last() == points@.take(i as int));
            i = i + 1;
        }
        assert(points@.take(n as int) == points@);
        env
    }

    /// Index of the first breakpoint at or after `frame`.
    fn search(&self, frame: u64) -> (i: usize)
        requires
            self.well_formed(),
        ensures
            i == lower_bound(self.points@, frame),
            i <= self.points@.len(),
    {
        let mut lo: usize = 0;
        let mut hi: usize = self.points.len();
        while lo < hi
            invariant
                lo <= hi <= self.points@.len(),
                sorted_frames(self.points@),
                forall|k: int| 0 <= k < lo ==> #[trigger] self.points@[k].0 < frame,
                forall|k: int| hi <= k < self.points@.len() ==> #[trigger] self.points@[k].0 >= frame,
            decreases hi - lo,
        {
            let mid = lo + (hi - lo) / 2;
            if self.points[mid].0 < frame {
                assert forall|k: int| 0 <= k < mid + 1 implies #[trigger] self.points@[k].0
                    < frame by {
                    if k < mid {
                        assert(self.points@[k].0 < self.points@[mid as int].0);
                    }
                }
                lo = mid + 1;
            } else {
                assert forall|k: int| mid <= k < self.points@.len() implies #[trigger] self.points@[k].0
                    >= frame by {
                    if k > mid {
                        assert(self.points@[mid as int].0 < self.points@[k].0);
                    }
                }
                hi = mid;
            }
        }
        proof {
            lemma_lower_bound_at(self.points@, frame, lo as int);
        }
        lo
    }

    /// Insert a breakpoint, keeping the list sorted. A second point at the same
    /// frame overwrites the first.
    pub fn add_point(&mut self, frame: u64, value: T)
        requires
            old(self).well_formed(),
        ensures
            final(self).well_formed(),
            final(self).spec_points() == spec_add_point(old(self).spec_points(), frame, value),
            final(self).spec_interp() == old(self).spec_interp(),
    {
        let i = self.search(frame);
        proof {
            lemma_add_point_sorted(self.points@, frame, value);
        }
        if i < self.points.len() && self.points[i].0 == frame {
            self.points.set(i, (frame, value));
        } else {
            self.points.insert(i, (frame, value));
        }
    }

    /// Builder form of [`add_point`](Envelope::add_point).
    pub fn with_point(self, frame: u64, value: T) -> (env: Self)
        requires
            self.well_formed(),
        ensures
            env.well_formed(),
            env.spec_points() == spec_add_point(self.spec_points(), frame, value),
            env.spec_interp() == self.spec_interp(),
    {
        let mut env = self;
        env.add_point(frame, value);
        env
    }

    pub fn is_empty(&self) -> (b: bool)
        ensures
            b == (self.spec_points().len() == 0),
    {
        self.points.len() == 0
    }

    /// What the envelope says about timeline `frame` (see [`spec_reading`]).
    /// A binary search over the breakpoints; no allocation.
    pub fn reading_at(&self, frame: u64) -> (r: Option<Reading<T>>)
        requires
            self.well_formed(),
        ensures
            r == spec_reading(self.spec_points(), self.spec_interp(), frame),
    {
        let n = self.points.len();
        if n == 0 {
            return None;
        }
        let i = self.search(frame);
        if i < n && self.points[i].0 == frame {
            Some(Reading::Hold(self.points[i].1))
        } else if i == 0 {
            Some(Reading::Hold(self.points[0].1))
        } else if i >= n {
            Some(Reading::Hold(self.points[n - 1].1))
        } else {
            let (f0, v0) = self.points[i - 1];
            let (f1, v1) = self.points[i];
            match self.interp {
                Interp::Step => Some(Reading::Hold(v0)),
                Interp::Linear => Some(Reading::Ramp { from_frame: f0, from: v0, to_frame: f1, to: v1 }),
            }
        }
    }
}

impl<T: Copy> Default for Envelope<T> {
    /// An empty, linearly interpolating envelope.
    fn default() -> (env: Self)
        ensures
            env.well_formed(),
            env.spec_points() == Seq::<(u64, T)>::empty(),
            env.spec_interp() == Interp::Linear,
    {
        Envelope::new(Interp::Linear)
    }
}

} // verus!
