//! Turning the contours of a glyph outline into drawing commands.
//!
//! A contour is a closed loop of points, each with a type.  Drawing starts
//! at the first point that is not an off-curve control point; every later
//! on-curve point ends a segment whose control points are the off-curve
//! points met since the previous segment: none gives a line, one a
//! quadratic curve, two a cubic curve.  Unless the start point is a `Move`
//! point, the contour is closed by a last segment back to the start.
//!
//! Commands name points by their contour and their index in it; the
//! coordinates are looked up by whoever draws them.
use vstd::prelude::*;

verus! {

/// The type of a contour point.
#[derive(Clone, Copy, Debug, PartialEq, Eq, Structural)]
pub enum PointType {
    /// The start of an open contour
    Move,
    /// The end of a straight line
    Line,
    /// A control point of a curve
    OffCurve,
    /// The end of a cubic curve
    Curve,
    /// The end of a quadratic curve
    QCurve,
}

/// A point of an outline: its contour and its index in that contour.
#[derive(Clone, Copy, Debug, PartialEq, Eq, Structural)]
pub struct PointRef {
    pub contour: usize,
    pub point: usize,
}

/// A drawing command over outline points.
#[derive(Clone, Copy, Debug, PartialEq, Eq, Structural)]
pub enum PathCommand {
    /// Move to a point without drawing
    MoveTo(PointRef),
    /// Draw a straight line to a point
    LineTo(PointRef),
    /// Draw a quadratic curve with one control point
    QuadTo(PointRef, PointRef),
    /// Draw a cubic curve with two control points
    CurveTo(PointRef, PointRef, PointRef),
    /// Close the current contour
    ClosePath,
}

pub open spec fn pt(contour: int, point: int) -> PointRef {
    PointRef { contour: contour as usize, point: point as usize }
}

/// Position `i` of a loop of `n` points, for `i < 2 * n`.
pub open spec fn round(i: int, n: int) -> int {
    if i < n {
        i
    } else {
        i - n
    }
}

/// First position from `i` on whose point is not off-curve.
pub open spec fn first_on_curve_from(ts: Seq<PointType>, i: int) -> Option<int>
    decreases ts.len() - i,
{
    if i < 0 || i >= ts.len() {
        None
    } else if ts[i] != PointType::OffCurve {
        Some(i)
    } else {
        first_on_curve_from(ts, i + 1)
    }
}

/// The segment to `to` with the control points `controls`, if it has at
/// most two of them.
pub open spec fn segment(contour: int, controls: Seq<int>, to: int) -> Option<PathCommand> {
    if controls.len() == 0 {
        Some(PathCommand::LineTo(pt(contour, to)))
    } else if controls.len() == 1 {
        Some(PathCommand::QuadTo(pt(contour, controls[0]), pt(contour, to)))
    } else if controls.len() == 2 {
        Some(PathCommand::CurveTo(pt(contour, controls[0]), pt(contour, controls[1]), pt(contour, to)))
    } else {
        None
    }
}

/// `p` followed by the commands of `rest`, if there are any.
pub open spec fn prefixed(p: Seq<PathCommand>, rest: Option<Seq<PathCommand>>) -> Option<Seq<PathCommand>> {
    match rest {
        Some(r) => Some(p + r),
        None => None,
    }
}

/// The commands for the points `j` places and more after the start `s`
/// (going round the contour), with `controls` the control points met so
/// far, followed by the closing segment; `None` when a segment would have
/// more than two control points.
pub open spec fn contour_tail(ts: Seq<PointType>, contour: int, s: int, j: int, controls: Seq<int>) -> Option<
    Seq<PathCommand>,
>
    decreases ts.len() - j,
{
    if j >= ts.len() {
        if ts[s] != PointType::Move {
            match segment(contour, controls, s) {
                Some(c) => Some(seq![c, PathCommand::ClosePath]),
                None => None,
            }
        } else {
            Some(Seq::empty())
        }
    } else {
        let idx = round(s + j, ts.len() as int);
        if ts[idx] == PointType::OffCurve {
            contour_tail(ts, contour, s, j + 1, controls.push(idx))
        } else if ts[idx] == PointType::Move {
            contour_tail(ts, contour, s, j + 1, controls)
        } else {
            match segment(contour, controls, idx) {
                Some(c) => prefixed(seq![c], contour_tail(ts, contour, s, j + 1, Seq::empty())),
                None => None,
            }
        }
    }
}

/// The commands drawing one contour: nothing when it has no on-curve
/// point, else a move to its first on-curve point and the segments after.
pub open spec fn contour_commands(ts: Seq<PointType>, contour: int) -> Option<Seq<PathCommand>> {
    match first_on_curve_from(ts, 0) {
        None => Some(Seq::empty()),
        Some(s) => prefixed(
            seq![PathCommand::MoveTo(pt(contour, s))],
            contour_tail(ts, contour, s, 1, Seq::empty()),
        ),
    }
}

/// The commands drawing the first `k` contours, one after the other.
pub open spec fn outline_commands(contours: Seq<Vec<PointType>>, k: int) -> Option<Seq<PathCommand>>
    decreases k,
{
    if k <= 0 {
        Some(Seq::empty())
    } else {
        match outline_commands(contours, k - 1) {
            Some(p) => prefixed(p, contour_commands(contours[k - 1]@, k - 1)),
            None => None,
        }
    }
}

/// Every segment of the outline has at most two control points.
pub open spec fn drawable(contours: Seq<Vec<PointType>>) -> bool {
    outline_commands(contours, contours.len() as int) is Some
}

proof fn lemma_first_on_curve(ts: Seq<PointType>, i: int)
    requires
        0 <= i,
    ensures
        first_on_curve_from(ts, i) matches Some(s) ==> i <= s < ts.len() && ts[s]
            != PointType::OffCurve && forall|k: int| i <= k < s ==> ts[k] == PointType::OffCurve,
        first_on_curve_from(ts, i) is None ==> forall|k: int|
            i <= k < ts.len() ==> ts[k] == PointType::OffCurve,
    decreases ts.len() - i,
{
    if i < ts.len() && ts[i] == PointType::OffCurve {
        lemma_first_on_curve(ts, i + 1);
    }
}

/// The segment to `to` over the control points `controls`, as
/// `segment` says; `None` for more than two control points.
fn make_segment(contour: usize, controls: &Vec<usize>, to: usize) -> (r: Option<PathCommand>)
    ensures
        r == segment(contour as int, controls@.map_values(|c: usize| c as int), to as int),
{
    let n = controls.len();
    if n == 0 {
        Some(PathCommand::LineTo(PointRef { contour, point: to }))
    } else if n == 1 {
        Some(
            PathCommand::QuadTo(
                PointRef { contour, point: controls[0] },
                PointRef { contour, point: to },
            ),
        )
    } else if n == 2 {
        Some(
            PathCommand::CurveTo(
                PointRef { contour, point: controls[0] },
                PointRef { contour, point: controls[1] },
                PointRef { contour, point: to },
            ),
        )
    } else {
        None
    }
}

/// The commands drawing the contour with point types `ts`, or `None` when
/// a segment would have more than two control points.
fn contour_path(ts: &Vec<PointType>, contour: usize) -> (r: Option<Vec<PathCommand>>)
    ensures
        match r {
            Some(v) => contour_commands(ts@, contour as int) == Some(v@),
            None => contour_commands(ts@, contour as int) is None,
        },
{
    let n = ts.len();
    let mut out: Vec<PathCommand> = Vec::new();
    let mut s: usize = 0;
    while s < n && ts[s] == PointType::OffCurve
        invariant
            s <= n == ts@.len(),
            forall|k: int| 0 <= k < s ==> ts@[k] == PointType::OffCurve,
        decreases n - s,
    {
        s = s + 1;
    }
    proof {
        lemma_first_on_curve(ts@, 0);
    }
    if s == n {
        proof {
            if first_on_curve_from(ts@, 0) is Some {
                let q = first_on_curve_from(ts@, 0)->0;
                assert(ts@[q] == PointType::OffCurve);
            }
        }
        return Some(out);
    }
    assert(first_on_curve_from(ts@, 0) == Some(s as int));
    out.push(PathCommand::MoveTo(PointRef { contour, point: s }));
    let ghost ci = contour as int;
    let mut controls: Vec<usize> = Vec::new();
    let mut j: usize = 1;
    let mut idx: usize = if s + 1 == n { 0 } else { s + 1 };
    assert(controls@.map_values(|c: usize| c as int) =~= Seq::<int>::empty());
    while j < n
        invariant
            n == ts@.len(),
            s < n,
            1 <= j <= n,
            ci == contour,
            ts@[s as int] != PointType::OffCurve,
            idx == round(s + j, n as int),
            forall|k: int| 0 <= k < controls@.len() ==> #[trigger] controls@[k] < n,
            out@.len() >= 1,
            contour_commands(ts@, ci) == prefixed(
                out@,
                contour_tail(ts@, ci, s as int, j as int, controls@.map_values(|c: usize| c as int)),
            ),
        decreases n - j,
    {
        let ghost cv = controls@.map_values(|c: usize| c as int);
        let typ = ts[idx];
        if typ == PointType::OffCurve {
            controls.push(idx);
            assert(controls@.map_values(|c: usize| c as int) =~= cv.push(idx as int));
        } else if typ == PointType::Move {
        } else {
            match make_segment(contour, &controls, idx) {
                Some(cmd) => {
                    let ghost old_out = out@;
                    out.push(cmd);
                    controls = Vec::new();
                    assert(controls@.map_values(|c: usize| c as int) =~= Seq::<int>::empty());
                    assert(old_out + (seq![cmd] + contour_tail(
                        ts@,
                        ci,
                        s as int,
                        j + 1,
                        Seq::empty(),
                    )->0) =~= out@ + contour_tail(ts@, ci, s as int, j + 1, Seq::empty())->0);
                },
                None => {
                    return None;
                },
            }
        }
        j = j + 1;
        idx = if idx + 1 == n { 0 } else { idx + 1 };
    }
    if ts[s] != PointType::Move {
        match make_segment(contour, &controls, s) {
            Some(cmd) => {
                out.push(cmd);
                out.push(PathCommand::ClosePath);
            },
            None => {
                return None;
            },
        }
    }
    assert(contour_commands(ts@, ci) == Some(out@));
    Some(out)
}

/// The commands drawing every contour of `contours`, or `None` when a
/// segment would have more than two control points.
fn outline_path(contours: &Vec<Vec<PointType>>) -> (r: Option<Vec<PathCommand>>)
    ensures
        match r {
            Some(v) => outline_commands(contours@, contours@.len() as int) == Some(v@),
            None => !drawable(contours@),
        },
{
    let mut out: Vec<PathCommand> = Vec::new();
    let mut k: usize = 0;
    while k < contours.len()
        invariant
            k <= contours@.len(),
            outline_commands(contours@, k as int) == Some(out@),
        decreases contours@.len() - k,
    {
        match contour_path(&contours[k], k) {
            Some(c) => {
                let mut c = c;
                out.append(&mut c);
            },
            None => {
                proof {
                    lemma_outline_none_stays(contours@, k as int + 1, contours@.len() as int);
                }
                return None;
            },
        }
        k = k + 1;
    }
    Some(out)
}

proof fn lemma_outline_none_stays(contours: Seq<Vec<PointType>>, k: int, m: int)
    requires
        0 <= k <= m,
        outline_commands(contours, k) is None,
    ensures
        outline_commands(contours, m) is None,
    decreases m - k,
{
    if k < m {
        lemma_outline_none_stays(contours, k + 1, m);
    }
}

/// Whether every segment of the outline has at most two control points,
/// which drawing it needs.
pub fn outline_is_drawable(contours: &Vec<Vec<PointType>>) -> (b: bool)
    ensures
        b == drawable(contours@),
{
    outline_path(contours).is_some()
}

/// The drawing commands of a glyph outline given by the point types of its
/// contours: each contour in turn, as `contour_commands` says.
pub fn path_for_glyph(contours: &Vec<Vec<PointType>>) -> (r: Option<Vec<PathCommand>>)
    requires
        drawable(contours@),
    ensures
        r matches Some(v) && Some(v@) == outline_commands(contours@, contours@.len() as int),
        r matches Some(v) ==> all_name_points(v@, contours@),
{
    proof {
        assert(contours.len() == contours@.len());
        lemma_commands_name_outline_points(contours@);
    }
    outline_path(contours)
}

/// `p` names a point of the outline.
pub open spec fn names_point(p: PointRef, contours: Seq<Vec<PointType>>) -> bool {
    p.contour < contours.len() && p.point < contours[p.contour as int]@.len()
}

/// Every point `c` names is a point of the outline.
pub open spec fn command_names_points(c: PathCommand, contours: Seq<Vec<PointType>>) -> bool {
    match c {
        PathCommand::MoveTo(a) => names_point(a, contours),
        PathCommand::LineTo(a) => names_point(a, contours),
        PathCommand::QuadTo(a, b) => names_point(a, contours) && names_point(b, contours),
        PathCommand::CurveTo(a, b, d) => names_point(a, contours) && names_point(b, contours)
            && names_point(d, contours),
        PathCommand::ClosePath => true,
    }
}

pub open spec fn all_name_points(cmds: Seq<PathCommand>, contours: Seq<Vec<PointType>>) -> bool {
    forall|i: int| 0 <= i < cmds.len() ==> command_names_points(#[trigger] cmds[i], contours)
}

proof fn lemma_concat_names_points(a: Seq<PathCommand>, b: Seq<PathCommand>, contours: Seq<Vec<PointType>>)
    requires
        all_name_points(a, contours),
        all_name_points(b, contours),
    ensures
        all_name_points(a + b, contours),
{
    assert forall|i: int| 0 <= i < (a + b).len() implies command_names_points(
        #[trigger] (a + b)[i],
        contours,
    ) by {
        if i < a.len() {
            assert((a + b)[i] == a[i]);
        } else {
            assert((a + b)[i] == b[i - a.len()]);
        }
    }
}

proof fn lemma_tail_names_points(
    contours: Seq<Vec<PointType>>,
    ci: int,
    s: int,
    j: int,
    controls: Seq<int>,
)
    requires
        contours.len() <= usize::MAX,
        0 <= ci < contours.len(),
        0 <= s < contours[ci]@.len(),
        1 <= j,
        forall|k: int| 0 <= k < controls.len() ==> 0 <= #[trigger] controls[k] < contours[ci]@.len(),
        contour_tail(contours[ci]@, ci, s, j, controls) is Some,
    ensures
        all_name_points(contour_tail(contours[ci]@, ci, s, j, controls)->0, contours),
    decreases contours[ci]@.len() - j,
{
    let ts = contours[ci]@;
    let n = ts.len() as int;
    assert(contours[ci].len() == n);
    if j >= n {
        if ts[s] != PointType::Move {
            let c = segment(ci, controls, s)->0;
            assert(command_names_points(c, contours));
            let r = seq![c, PathCommand::ClosePath];
            assert(contour_tail(ts, ci, s, j, controls)->0 == r);
            assert forall|i: int| 0 <= i < r.len() implies command_names_points(
                #[trigger] r[i],
                contours,
            ) by {}
        }
    } else {
        let idx = round(s + j, n);
        if ts[idx] == PointType::OffCurve {
            lemma_tail_names_points(contours, ci, s, j + 1, controls.push(idx));
        } else if ts[idx] == PointType::Move {
            lemma_tail_names_points(contours, ci, s, j + 1, controls);
        } else {
            let c = segment(ci, controls, idx)->0;
            assert(command_names_points(c, contours));
            lemma_tail_names_points(contours, ci, s, j + 1, Seq::empty());
            let rest = contour_tail(ts, ci, s, j + 1, Seq::empty())->0;
            assert(all_name_points(seq![c], contours));
            lemma_concat_names_points(seq![c], rest, contours);
        }
    }
}

proof fn lemma_prefix_names_points(contours: Seq<Vec<PointType>>, k: int)
    requires
        contours.len() <= usize::MAX,
        0 <= k <= contours.len(),
        outline_commands(contours, k) is Some,
    ensures
        all_name_points(outline_commands(contours, k)->0, contours),
    decreases k,
{
    if k > 0 {
        let ci = k - 1;
        lemma_prefix_names_points(contours, ci);
        let ts = contours[ci]@;
        assert(contours[ci].len() == ts.len());
        lemma_first_on_curve(ts, 0);
        match first_on_curve_from(ts, 0) {
            None => {
                assert(outline_commands(contours, k)->0 =~= outline_commands(contours, ci)->0);
            },
            Some(s) => {
                lemma_tail_names_points(contours, ci, s, 1, Seq::empty());
                let m = seq![PathCommand::MoveTo(pt(ci, s))];
                assert(command_names_points(m[0], contours));
                assert(all_name_points(m, contours));
                let tail = contour_tail(ts, ci, s, 1, Seq::empty())->0;
                lemma_concat_names_points(m, tail, contours);
                lemma_concat_names_points(outline_commands(contours, ci)->0, m + tail, contours);
                assert(outline_commands(contours, k)->0 =~= outline_commands(contours, ci)->0 + (m
                    + tail));
            },
        }
    }
}

/// Every point a drawable outline's commands name is a point of the
/// outline: a contour index below the number of contours and a point index
/// below that contour's length.
pub proof fn lemma_commands_name_outline_points(contours: Seq<Vec<PointType>>)
    requires
        contours.len() <= usize::MAX,
        drawable(contours),
    ensures
        all_name_points(outline_commands(contours, contours.len() as int)->0, contours),
{
    lemma_prefix_names_points(contours, contours.len() as int);
}

/// The kind of an element of a Bézier path, as a path library lists them.
#[derive(Clone, Copy, Debug, PartialEq, Eq, Structural)]
pub enum PathElementKind {
    /// Start a subpath at one point
    MoveTo,
    /// Line to one point
    LineTo,
    /// Quadratic curve: a control point, then the end point
    QuadTo,
    /// Cubic curve: two control points, then the end point
    CurveTo,
    /// Close the subpath; it has no point
    ClosePath,
}

/// Number of points an element carries.
pub open spec fn element_point_count(k: PathElementKind) -> nat {
    match k {
        PathElementKind::MoveTo => 1,
        PathElementKind::LineTo => 1,
        PathElementKind::QuadTo => 2,
        PathElementKind::CurveTo => 3,
        PathElementKind::ClosePath => 0,
    }
}

/// Number of points the first `n` elements carry.
pub open spec fn points_before(es: Seq<PathElementKind>, n: int) -> nat
    decreases n,
{
    if n <= 0 {
        0
    } else {
        points_before(es, n - 1) + element_point_count(es[n - 1])
    }
}

/// The outline points of one element, each with its type and its index
/// among all the points of the path, the element's points starting at
/// `base`.
pub open spec fn element_outline_points(k: PathElementKind, base: int) -> Seq<(PointType, int)> {
    match k {
        PathElementKind::MoveTo => seq![(PointType::Move, base)],
        PathElementKind::LineTo => seq![(PointType::Line, base)],
        PathElementKind::QuadTo => seq![(PointType::OffCurve, base), (PointType::QCurve, base + 1)],
        PathElementKind::CurveTo => seq![
            (PointType::OffCurve, base),
            (PointType::OffCurve, base + 1),
            (PointType::Curve, base + 2),
        ],
        PathElementKind::ClosePath => Seq::empty(),
    }
}

/// The finished contours and the contour being built after the first `n`
/// elements: a move starts a new contour (the one being built, when it has
/// points, is finished first); every other element adds its points to the
/// contour being built.
pub open spec fn outline_state(es: Seq<PathElementKind>, n: int) -> (
    Seq<Seq<(PointType, int)>>,
    Seq<(PointType, int)>,
)
    decreases n,
{
    if n <= 0 {
        (Seq::empty(), Seq::empty())
    } else {
        let (done, current) = outline_state(es, n - 1);
        let pts = element_outline_points(es[n - 1], points_before(es, n - 1) as int);
        if es[n - 1] == PathElementKind::MoveTo && current.len() > 0 {
            (done.push(current), pts)
        } else {
            (done, current + pts)
        }
    }
}

/// The contours of a path with the elements `es`: those `outline_state`
/// finishes, and the last one when it has points.
pub open spec fn spec_outline_of_elements(es: Seq<PathElementKind>) -> Seq<Seq<(PointType, int)>> {
    let (done, current) = outline_state(es, es.len() as int);
    if current.len() > 0 {
        done.push(current)
    } else {
        done
    }
}

/// A contour as plain values.
pub open spec fn contour_view(c: Vec<(PointType, usize)>) -> Seq<(PointType, int)> {
    c@.map_values(|p: (PointType, usize)| (p.0, p.1 as int))
}

/// Contours as plain values.
pub open spec fn outline_view(cs: Seq<Vec<(PointType, usize)>>) -> Seq<Seq<(PointType, int)>> {
    cs.map_values(|c: Vec<(PointType, usize)>| contour_view(c))
}

proof fn lemma_points_before_bound(es: Seq<PathElementKind>, n: int)
    requires
        0 <= n,
    ensures
        points_before(es, n) <= 3 * n,
    decreases n,
{
    if n > 0 {
        lemma_points_before_bound(es, n - 1);
    }
}

/// The contours of a path, given the kinds of its elements in order: each
/// contour point has its type and its index among all the points the
/// elements carry (the caller holds the coordinates).
pub fn outline_point_types(elements: &Vec<PathElementKind>) -> (r: Vec<Vec<(PointType, usize)>>)
    requires
        3 * elements@.len() <= usize::MAX,
    ensures
        outline_view(r@) == spec_outline_of_elements(elements@),
{
    let ghost es = elements@;
    let mut contours: Vec<Vec<(PointType, usize)>> = Vec::new();
    let mut current: Vec<(PointType, usize)> = Vec::new();
    let mut base: usize = 0;
    let mut i: usize = 0;
    assert(outline_view(contours@) =~= Seq::<Seq<(PointType, int)>>::empty());
    assert(contour_view(current) =~= Seq::<(PointType, int)>::empty());
    while i < elements.len()
        invariant
            es == elements@,
            3 * es.len() <= usize::MAX,
            0 <= i <= es.len(),
            base == points_before(es, i as int),
            outline_view(contours@) == outline_state(es, i as int).0,
            contour_view(current) == outline_state(es, i as int).1,
        decreases es.len() - i,
    {
        proof {
            lemma_points_before_bound(es, i + 1);
        }
        let ghost before = contour_view(current);
        let ghost done = contours@;
        let kind = elements[i];
        match kind {
            PathElementKind::MoveTo => {
                if current.len() > 0 {
                    contours.push(current);
                    current = Vec::new();
                    assert(outline_view(contours@) =~= outline_view(done).push(before));
                }
                current.push((PointType::Move, base));
                assert(contour_view(current) =~= element_outline_points(kind, base as int));
                base = base + 1;
            },
            PathElementKind::LineTo => {
                current.push((PointType::Line, base));
                assert(contour_view(current) =~= before + element_outline_points(kind, base as int));
                base = base + 1;
            },
            PathElementKind::QuadTo => {
                current.push((PointType::OffCurve, base));
                current.push((PointType::QCurve, base + 1));
                assert(contour_view(current) =~= before + element_outline_points(kind, base as int));
                base = base + 2;
            },
            PathElementKind::CurveTo => {
                current.push((PointType::OffCurve, base));
                current.push((PointType::OffCurve, base + 1));
                current.push((PointType::Curve, base + 2));
                assert(contour_view(current) =~= before + element_outline_points(kind, base as int));
                base = base + 3;
            },
            PathElementKind::ClosePath => {
                assert(before + element_outline_points(kind, base as int) =~= before);
            },
        }
        i = i + 1;
    }
    let ghost done = contours@;
    if current.len() > 0 {
        let ghost last = contour_view(current);
        contours.push(current);
        assert(outline_view(contours@) =~= outline_view(done).push(last));
    }
    contours
}

} // verus!
