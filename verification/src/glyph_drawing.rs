//! What the glyph view draws of a contour: the strokes of its path, the
//! handles from on-curve points to their control points, and the marker of
//! each point.  Points are named by their index in the contour; the
//! coordinates are looked up by whoever draws.
//!
//! Both walks go round the contour: an index one past the last point is the
//! first point again.
use vstd::prelude::*;
use crate::outline::{first_on_curve_from, round, PointType};

verus! {

/// Every point type but `OffCurve` is on the curve.
pub open spec fn on(ts: Seq<PointType>, i: int) -> bool {
    ts[i] != PointType::OffCurve
}

/// Whether a point of type `t` lies on the curve.
pub fn is_on_curve(t: PointType) -> (r: bool)
    ensures
        r == (t != PointType::OffCurve),
{
    match t {
        PointType::OffCurve => false,
        _ => true,
    }
}

/// Whether the point marker of a point of type `t` is the on-curve one
/// (`Move`, `Line` and `Curve` points; a `QCurve` point gets the off-curve
/// marker).
pub fn has_on_curve_marker(t: PointType) -> (r: bool)
    ensures
        r == (t == PointType::Move || t == PointType::Line || t == PointType::Curve),
{
    match t {
        PointType::Move | PointType::Line | PointType::Curve => true,
        _ => false,
    }
}

// ---------------------------------------------------------------------
// Control handles

/// The control points met going round from the on-curve point `cur`,
/// starting `d` places after it, up to the next on-curve point.
pub open spec fn controls_after(ts: Seq<PointType>, cur: int, d: int) -> Seq<int>
    decreases ts.len() - d,
{
    if d >= ts.len() || d < 1 {
        Seq::empty()
    } else if on(ts, round(cur + d, ts.len() as int)) {
        Seq::empty()
    } else {
        seq![round(cur + d, ts.len() as int)] + controls_after(ts, cur, d + 1)
    }
}

/// The next on-curve point going round from `cur`, starting `d` places
/// after it (`cur` itself once round).
pub open spec fn next_on_after(ts: Seq<PointType>, cur: int, d: int) -> int
    decreases ts.len() - d,
{
    if d >= ts.len() || d < 1 {
        cur
    } else if on(ts, round(cur + d, ts.len() as int)) {
        round(cur + d, ts.len() as int)
    } else {
        next_on_after(ts, cur, d + 1)
    }
}

/// The handles of one segment, from the on-curve point `cur` with the
/// control points `ctrl` to the on-curve point `nxt`: a single control point
/// hangs from `cur`; otherwise the first hangs from `cur` and the last from
/// `nxt`.
pub open spec fn segment_handles(cur: int, ctrl: Seq<int>, nxt: int) -> Seq<(int, int)> {
    if ctrl.len() == 1 {
        seq![(cur, ctrl[0])]
    } else {
        seq![(cur, ctrl[0]), (nxt, ctrl[ctrl.len() - 1])]
    }
}

/// The handles drawn in `steps` steps from the point `cur`: at an on-curve
/// point followed by control points and another on-curve point, the
/// segment's handles, and the walk goes on from that other point; otherwise
/// it moves one point on.
pub open spec fn handles_walk(ts: Seq<PointType>, cur: int, steps: nat) -> Seq<(int, int)>
    decreases steps,
{
    if steps == 0 {
        Seq::empty()
    } else if !on(ts, cur) {
        handles_walk(ts, round(cur + 1, ts.len() as int), (steps - 1) as nat)
    } else {
        let ctrl = controls_after(ts, cur, 1);
        let nxt = next_on_after(ts, cur, 1);
        if nxt != cur && ctrl.len() > 0 {
            segment_handles(cur, ctrl, nxt) + handles_walk(ts, nxt, (steps - 1) as nat)
        } else {
            handles_walk(ts, round(cur + 1, ts.len() as int), (steps - 1) as nat)
        }
    }
}

/// The handles of a contour: a walk of as many steps as it has points,
/// from its first on-curve point; none without one.
pub open spec fn contour_handles(ts: Seq<PointType>) -> Seq<(int, int)> {
    match first_on_curve_from(ts, 0) {
        Some(s) => handles_walk(ts, s, ts.len()),
        None => Seq::empty(),
    }
}

pub open spec fn pairs_view(v: Seq<(usize, usize)>) -> Seq<(int, int)> {
    v.map_values(|p: (usize, usize)| (p.0 as int, p.1 as int))
}

pub open spec fn indices_view(v: Seq<usize>) -> Seq<int> {
    v.map_values(|i: usize| i as int)
}

proof fn lemma_first_on(ts: Seq<PointType>, i: int)
    requires
        0 <= i,
    ensures
        first_on_curve_from(ts, i) matches Some(s) ==> i <= s < ts.len() && on(ts, s),
    decreases ts.len() - i,
{
    if i < ts.len() && ts[i] == PointType::OffCurve {
        lemma_first_on(ts, i + 1);
    }
}

proof fn lemma_next_on_in_range(ts: Seq<PointType>, cur: int, d: int)
    requires
        0 <= cur < ts.len(),
        1 <= d,
    ensures
        0 <= next_on_after(ts, cur, d) < ts.len(),
        next_on_after(ts, cur, d) != cur ==> on(ts, next_on_after(ts, cur, d)),
        forall|k: int|
            0 <= k < controls_after(ts, cur, d).len() ==> 0 <= #[trigger] controls_after(ts, cur, d)[k]
                < ts.len(),
    decreases ts.len() - d,
{
    if d < ts.len() && !on(ts, round(cur + d, ts.len() as int)) {
        lemma_next_on_in_range(ts, cur, d + 1);
        let c = controls_after(ts, cur, d);
        assert forall|k: int| 0 <= k < c.len() implies 0 <= #[trigger] c[k] < ts.len() by {
            if k > 0 {
                assert(c[k] == controls_after(ts, cur, d + 1)[k - 1]);
            }
        }
    }
}

/// The control points after the on-curve point `cur` and the on-curve
/// point that ends them.
fn controls_of_segment(ts: &Vec<PointType>, cur: usize) -> (r: (Vec<usize>, usize))
    requires
        cur < ts@.len(),
        on(ts@, cur as int),
    ensures
        indices_view(r.0@) == controls_after(ts@, cur as int, 1),
        r.1 == next_on_after(ts@, cur as int, 1),
        r.1 < ts@.len(),
{
    let n = ts.len();
    let mut ctrl: Vec<usize> = Vec::new();
    let mut d: usize = 1;
    let mut nxt: usize = if cur + 1 == n { 0 } else { cur + 1 };
    proof {
        assert(indices_view(ctrl@) =~= Seq::<int>::empty());
    }
    while !is_on_curve(ts[nxt])
        invariant
            n == ts@.len(),
            cur < n,
            on(ts@, cur as int),
            1 <= d <= n,
            nxt == round(cur + d, n as int),
            indices_view(ctrl@) + controls_after(ts@, cur as int, d as int) == controls_after(
                ts@,
                cur as int,
                1,
            ),
            next_on_after(ts@, cur as int, d as int) == next_on_after(ts@, cur as int, 1),
        decreases n - d,
    {
        if d == n {
            assert(nxt == cur);
        }
        proof {
            assert(indices_view(ctrl@.push(nxt)) =~= indices_view(ctrl@).push(nxt as int));
            assert(controls_after(ts@, cur as int, d as int) =~= seq![nxt as int] + controls_after(
                ts@,
                cur as int,
                d + 1,
            ));
        }
        ctrl.push(nxt);
        d = d + 1;
        nxt = if nxt + 1 == n { 0 } else { nxt + 1 };
    }
    proof {
        if d < n {
            assert(controls_after(ts@, cur as int, d as int) =~= Seq::<int>::empty());
        }
        assert(indices_view(ctrl@) =~= controls_after(ts@, cur as int, 1));
    }
    (ctrl, nxt)
}

/// The handles drawn for a contour with point types `ts`: lines from
/// on-curve points to control points, as `contour_handles` says.
pub fn control_handles(ts: &Vec<PointType>) -> (r: Vec<(usize, usize)>)
    ensures
        pairs_view(r@) == contour_handles(ts@),
{
    let n = ts.len();
    let mut out: Vec<(usize, usize)> = Vec::new();
    let mut s: usize = 0;
    while s < n && !is_on_curve(ts[s])
        invariant
            s <= n == ts@.len(),
            forall|k: int| 0 <= k < s ==> !on(ts@, k),
            first_on_curve_from(ts@, 0) == first_on_curve_from(ts@, s as int),
        decreases n - s,
    {
        s = s + 1;
    }
    if s == n {
        proof {
            assert(first_on_curve_from(ts@, n as int) is None);
        }
        return out;
    }
    let mut cur: usize = s;
    let mut step: usize = 0;
    proof {
        assert(pairs_view(out@) =~= Seq::<(int, int)>::empty());
    }
    while step < n
        invariant
            n == ts@.len(),
            cur < n,
            step <= n,
            first_on_curve_from(ts@, 0) == Some(s as int),
            pairs_view(out@) + handles_walk(ts@, cur as int, (n - step) as nat) == handles_walk(
                ts@,
                s as int,
                n as nat,
            ),
        decreases n - step,
    {
        let ghost before = pairs_view(out@);
        let ghost steps = (n - step) as nat;
        let next_point = if cur + 1 == n { 0 } else { cur + 1 };
        if is_on_curve(ts[cur]) {
            let (ctrl, nxt) = controls_of_segment(ts, cur);
            proof {
                lemma_next_on_in_range(ts@, cur as int, 1);
            }
            if nxt != cur && ctrl.len() > 0 {
                let k = ctrl.len();
                if k == 1 {
                    out.push((cur, ctrl[0]));
                } else {
                    out.push((cur, ctrl[0]));
                    out.push((nxt, ctrl[k - 1]));
                }
                proof {
                    let seg = segment_handles(cur as int, indices_view(ctrl@), nxt as int);
                    assert(pairs_view(out@) =~= before + seg);
                    assert(handles_walk(ts@, cur as int, steps) == seg + handles_walk(
                        ts@,
                        nxt as int,
                        (steps - 1) as nat,
                    ));
                    assert(before + (seg + handles_walk(ts@, nxt as int, (steps - 1) as nat))
                        =~= pairs_view(out@) + handles_walk(ts@, nxt as int, (steps - 1) as nat));
                }
                cur = nxt;
            } else {
                cur = next_point;
            }
        } else {
            cur = next_point;
        }
        step = step + 1;
    }
    proof {
        assert(pairs_view(out@) =~= pairs_view(out@) + handles_walk(ts@, cur as int, 0));
    }
    out
}

/// Every handle joins an on-curve point to a control point of the contour.
pub open spec fn handles_join_on_to_off(ts: Seq<PointType>, hs: Seq<(int, int)>) -> bool {
    forall|k: int|
        0 <= k < hs.len() ==> {
            let (a, b) = #[trigger] hs[k];
            0 <= a < ts.len() && 0 <= b < ts.len() && on(ts, a) && !on(ts, b)
        }
}

proof fn lemma_controls_are_off(ts: Seq<PointType>, cur: int, d: int)
    requires
        0 <= cur < ts.len(),
        1 <= d,
    ensures
        forall|k: int|
            0 <= k < controls_after(ts, cur, d).len() ==> !on(ts, #[trigger] controls_after(ts, cur, d)[k]),
    decreases ts.len() - d,
{
    if d < ts.len() && !on(ts, round(cur + d, ts.len() as int)) {
        lemma_controls_are_off(ts, cur, d + 1);
        let c = controls_after(ts, cur, d);
        assert forall|k: int| 0 <= k < c.len() implies !on(ts, #[trigger] c[k]) by {
            if k > 0 {
                assert(c[k] == controls_after(ts, cur, d + 1)[k - 1]);
            }
        }
    }
}

proof fn lemma_walk_joins_on_to_off(ts: Seq<PointType>, cur: int, steps: nat)
    requires
        0 <= cur < ts.len(),
    ensures
        handles_join_on_to_off(ts, handles_walk(ts, cur, steps)),
    decreases steps,
{
    if steps > 0 {
        let n = ts.len() as int;
        if !on(ts, cur) {
            lemma_walk_joins_on_to_off(ts, round(cur + 1, n), (steps - 1) as nat);
        } else {
            let ctrl = controls_after(ts, cur, 1);
            let nxt = next_on_after(ts, cur, 1);
            lemma_next_on_in_range(ts, cur, 1);
            lemma_controls_are_off(ts, cur, 1);
            if nxt != cur && ctrl.len() > 0 {
                lemma_walk_joins_on_to_off(ts, nxt, (steps - 1) as nat);
                let seg = segment_handles(cur, ctrl, nxt);
                let rest = handles_walk(ts, nxt, (steps - 1) as nat);
                assert(handles_join_on_to_off(ts, seg));
                assert forall|k: int| 0 <= k < (seg + rest).len() implies {
                    let (a, b) = #[trigger] (seg + rest)[k];
                    0 <= a < ts.len() && 0 <= b < ts.len() && on(ts, a) && !on(ts, b)
                } by {
                    if k < seg.len() {
                        assert((seg + rest)[k] == seg[k]);
                    } else {
                        assert((seg + rest)[k] == rest[k - seg.len()]);
                    }
                }
            } else {
                lemma_walk_joins_on_to_off(ts, round(cur + 1, n), (steps - 1) as nat);
            }
        }
    }
}

/// Every handle the glyph view draws for a contour joins one of its
/// on-curve points to one of its control points.
pub proof fn lemma_handles_join_on_to_off(ts: Seq<PointType>)
    ensures
        handles_join_on_to_off(ts, contour_handles(ts)),
{
    lemma_first_on(ts, 0);
    match first_on_curve_from(ts, 0) {
        Some(s) => lemma_walk_joins_on_to_off(ts, s, ts.len()),
        None => {},
    }
}

// ---------------------------------------------------------------------
// Strokes

/// The largest index from 1 up to `k` of an on-curve point, or 0.
pub open spec fn last_on_upto(ts: Seq<PointType>, k: int) -> int
    decreases k,
{
    if k <= 0 {
        0
    } else if on(ts, k) {
        k
    } else {
        last_on_upto(ts, k - 1)
    }
}

/// The points from `from` round to `to`, both included.
pub open spec fn points_between(n: int, from: int, to: int) -> Seq<int> {
    let count = if to >= from {
        to - from + 1
    } else {
        to + n - from + 1
    };
    Seq::new(count as nat, |t: int| round(from + t, n))
}

/// The strokes drawn from step `i` on (steps go up to the number of
/// points, the last step being the first point again), with the current
/// segment starting at `seg` and `last_on` telling whether the previous
/// point was on the curve: an on-curve point after an on-curve point draws
/// a line from the segment start; an on-curve point after control points
/// draws the points from the segment start to it; either starts a new
/// segment.
pub open spec fn strokes_walk(ts: Seq<PointType>, i: int, seg: int, last_on: bool) -> Seq<Seq<int>>
    decreases ts.len() + 1 - i,
{
    if i < 0 || i > ts.len() {
        Seq::empty()
    } else {
        let idx = if i < ts.len() {
            i
        } else {
            0
        };
        if on(ts, idx) && last_on {
            seq![seq![seg, idx]] + strokes_walk(ts, i + 1, idx, true)
        } else if on(ts, idx) {
            seq![points_between(ts.len() as int, seg, idx)] + strokes_walk(ts, i + 1, idx, true)
        } else {
            strokes_walk(ts, i + 1, seg, false)
        }
    }
}

/// The strokes of a contour: when its first point is a control point, the
/// first segment starts at the last on-curve point (if there is one);
/// nothing for an empty contour.
pub open spec fn contour_strokes(ts: Seq<PointType>) -> Seq<Seq<int>> {
    if ts.len() == 0 {
        Seq::empty()
    } else if on(ts, 0) {
        strokes_walk(ts, 0, 0, true)
    } else {
        let l = last_on_upto(ts, ts.len() - 1);
        if on(ts, l) {
            strokes_walk(ts, 0, l, true)
        } else {
            strokes_walk(ts, 0, 0, false)
        }
    }
}

proof fn lemma_last_on_range(ts: Seq<PointType>, k: int)
    requires
        0 <= k < ts.len(),
    ensures
        0 <= last_on_upto(ts, k) <= k,
    decreases k,
{
    if k > 0 && !on(ts, k) {
        lemma_last_on_range(ts, k - 1);
    }
}

/// The points from `from` round to `to`, both included.
fn collect_between(n: usize, from: usize, to: usize) -> (r: Vec<usize>)
    requires
        from < n,
        to < n,
    ensures
        indices_view(r@) == points_between(n as int, from as int, to as int),
{
    let count: usize = if to >= from { to - from + 1 } else { n - (from - to) + 1 };
    let mut out: Vec<usize> = Vec::new();
    let mut idx = from;
    let mut t: usize = 0;
    while t < count
        invariant
            from < n,
            count == (if to >= from { to - from + 1 } else { to + n - from + 1 }),
            1 <= count <= n,
            t <= count,
            t == out@.len(),
            idx < n,
            t < count ==> idx == round(from + t, n as int),
            forall|k: int| 0 <= k < t ==> #[trigger] out@[k] == round(from + k, n as int),
        decreases count - t,
    {
        out.push(idx);
        idx = if idx + 1 == n { 0 } else { idx + 1 };
        t = t + 1;
    }
    proof {
        assert(indices_view(out@) =~= points_between(n as int, from as int, to as int));
    }
    out
}

/// The strokes drawn for a contour with point types `ts`, each as the
/// list of its points, as `contour_strokes` says.
pub fn path_strokes(ts: &Vec<PointType>) -> (r: Vec<Vec<usize>>)
    requires
        ts@.len() < usize::MAX,
    ensures
        r@.map_values(|v: Vec<usize>| indices_view(v@)) == contour_strokes(ts@),
{
    let n = ts.len();
    let mut out: Vec<Vec<usize>> = Vec::new();
    if n == 0 {
        proof {
            assert(out@.map_values(|v: Vec<usize>| indices_view(v@)) =~= Seq::<Seq<int>>::empty());
        }
        return out;
    }
    let mut seg: usize = 0;
    let mut last_on = false;
    if !is_on_curve(ts[0]) {
        let mut l = n - 1;
        while l > 0 && !is_on_curve(ts[l])
            invariant
                n == ts@.len(),
                l < n,
                last_on_upto(ts@, l as int) == last_on_upto(ts@, n - 1),
            decreases l,
        {
            l = l - 1;
        }
        proof {
            lemma_last_on_range(ts@, n - 1);
        }
        if is_on_curve(ts[l]) {
            seg = l;
            last_on = true;
        }
    } else {
        last_on = true;
    }
    let mut i: usize = 0;
    proof {
        assert(out@.map_values(|v: Vec<usize>| indices_view(v@)) =~= Seq::<Seq<int>>::empty());
    }
    while i <= n
        invariant
            n == ts@.len(),
            0 < n < usize::MAX,
            i <= n + 1,
            seg < n,
            out@.map_values(|v: Vec<usize>| indices_view(v@)) + strokes_walk(
                ts@,
                i as int,
                seg as int,
                last_on,
            ) == contour_strokes(ts@),
        decreases n + 1 - i,
    {
        let ghost before = out@.map_values(|v: Vec<usize>| indices_view(v@));
        let idx = if i < n { i } else { 0 };
        let is_on = is_on_curve(ts[idx]);
        if is_on && last_on {
            let mut line: Vec<usize> = Vec::new();
            line.push(seg);
            line.push(idx);
            proof {
                assert(indices_view(line@) =~= seq![seg as int, idx as int]);
            }
            out.push(line);
            proof {
                assert(out@.map_values(|v: Vec<usize>| indices_view(v@)) =~= before.push(
                    seq![seg as int, idx as int],
                ));
                assert(before + (seq![seq![seg as int, idx as int]] + strokes_walk(
                    ts@,
                    i + 1,
                    idx as int,
                    true,
                )) =~= before.push(seq![seg as int, idx as int]) + strokes_walk(
                    ts@,
                    i + 1,
                    idx as int,
                    true,
                ));
            }
            seg = idx;
        } else if is_on {
            let pts = collect_between(n, seg, idx);
            let ghost pv = indices_view(pts@);
            out.push(pts);
            proof {
                assert(out@.map_values(|v: Vec<usize>| indices_view(v@)) =~= before.push(pv));
                assert(before + (seq![pv] + strokes_walk(ts@, i + 1, idx as int, true)) =~= before.push(
                    pv,
                ) + strokes_walk(ts@, i + 1, idx as int, true));
            }
            seg = idx;
        }
        last_on = is_on;
        i = i + 1;
    }
    proof {
        assert(out@.map_values(|v: Vec<usize>| indices_view(v@)) =~= out@.map_values(
            |v: Vec<usize>| indices_view(v@),
        ) + strokes_walk(ts@, i as int, seg as int, last_on));
    }
    out
}

/// How a stroke through the points `pts` is drawn.
#[derive(Clone, Copy, Debug, PartialEq, Eq, Structural)]
pub enum StrokeShape {
    /// Fewer than two points: nothing
    Nothing,
    /// Two points: a straight line
    Line,
    /// On-curve, two control points, on-curve: a cubic curve
    Cubic,
    /// Anything else: straight lines from point to point
    Polyline,
}

pub open spec fn spec_stroke_shape(ts: Seq<PointType>, pts: Seq<int>) -> StrokeShape {
    if pts.len() < 2 {
        StrokeShape::Nothing
    } else if pts.len() == 2 {
        StrokeShape::Line
    } else if pts.len() == 4 && on(ts, pts[0]) && !on(ts, pts[1]) && !on(ts, pts[2]) && on(
        ts,
        pts[3],
    ) {
        StrokeShape::Cubic
    } else {
        StrokeShape::Polyline
    }
}

/// How the stroke through the points `pts` of the contour `ts` is drawn.
pub fn stroke_shape(ts: &Vec<PointType>, pts: &Vec<usize>) -> (r: StrokeShape)
    requires
        forall|k: int| 0 <= k < pts@.len() ==> #[trigger] pts@[k] < ts@.len(),
    ensures
        r == spec_stroke_shape(ts@, indices_view(pts@)),
{
    let k = pts.len();
    if k < 2 {
        StrokeShape::Nothing
    } else if k == 2 {
        StrokeShape::Line
    } else if k == 4 && is_on_curve(ts[pts[0]]) && !is_on_curve(ts[pts[1]]) && !is_on_curve(
        ts[pts[2]],
    ) && is_on_curve(ts[pts[3]]) {
        StrokeShape::Cubic
    } else {
        StrokeShape::Polyline
    }
}

// ---------------------------------------------------------------------
// Which glyph to show

/// Glyphs tried, in order, when the requested one is missing.
pub open spec fn fallback_glyphs() -> Seq<Seq<char>> {
    seq!["H"@, "h"@, "A"@, "a"@, "O"@, "o"@, "space"@, ".notdef"@]
}

pub open spec fn has_name(available: Seq<String>, name: Seq<char>) -> bool {
    exists|k: int| 0 <= k < available.len() && (#[trigger] available[k])@ == name
}

/// The first of `candidates`, from `i` on, that the font has.
pub open spec fn first_available(available: Seq<String>, candidates: Seq<Seq<char>>, i: int) -> Option<
    Seq<char>,
>
    decreases candidates.len() - i,
{
    if i < 0 || i >= candidates.len() {
        None
    } else if has_name(available, candidates[i]) {
        Some(candidates[i])
    } else {
        first_available(available, candidates, i + 1)
    }
}

fn has_glyph(available: &Vec<String>, name: &String) -> (r: bool)
    ensures
        r == has_name(available@, name@),
{
    let n = available.len();
    let mut k: usize = 0;
    while k < n
        invariant
            n == available@.len(),
            0 <= k <= n,
            forall|j: int| 0 <= j < k ==> (#[trigger] available@[j])@ != name@,
        decreases n - k,
    {
        if available[k] == *name {
            return true;
        }
        k = k + 1;
    }
    false
}

/// The glyph the point view draws: the test glyph when the font has it,
/// else the first of `H`, `h`, `A`, `a`, `O`, `o`, `space`, `.notdef` it
/// has; `None` when it has none of them.
pub fn glyph_to_draw(test_glyph: &str, available: &Vec<String>) -> (r: Option<String>)
    ensures
        match r {
            Some(g) => if has_name(available@, test_glyph@) {
                g@ == test_glyph@
            } else {
                first_available(available@, fallback_glyphs(), 0) == Some(g@)
            },
            None => !has_name(available@, test_glyph@) && first_available(
                available@,
                fallback_glyphs(),
                0,
            ) is None,
        },
{
    let wanted = String::from_str(test_glyph);
    if has_glyph(available, &wanted) {
        return Some(wanted);
    }
    let candidates: Vec<&str> = vec!["H", "h", "A", "a", "O", "o", "space", ".notdef"];
    let mut i: usize = 0;
    proof {
        reveal_strlit("H");
        reveal_strlit("h");
        reveal_strlit("A");
        reveal_strlit("a");
        reveal_strlit("O");
        reveal_strlit("o");
        reveal_strlit("space");
        reveal_strlit(".notdef");
        assert(candidates@.map_values(|s: &str| s@) =~= fallback_glyphs());
    }
    while i < candidates.len()
        invariant
            0 <= i <= candidates@.len(),
            candidates@.map_values(|s: &str| s@) == fallback_glyphs(),
            !has_name(available@, test_glyph@),
            first_available(available@, fallback_glyphs(), 0) == first_available(
                available@,
                fallback_glyphs(),
                i as int,
            ),
        decreases candidates@.len() - i,
    {
        let name = String::from_str(candidates[i]);
        proof {
            assert(name@ == fallback_glyphs()[i as int]);
        }
        if has_glyph(available, &name) {
            return Some(name);
        }
        i = i + 1;
    }
    None
}

} // verus!
