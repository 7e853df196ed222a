use bezy::outline::{
    outline_is_drawable, outline_point_types, path_for_glyph, PathCommand, PathElementKind, PointRef,
    PointType,
};
use PointType::{Curve, Line, Move, OffCurve, QCurve};
use PathElementKind::{ClosePath, CurveTo, LineTo, MoveTo, QuadTo};

fn p(contour: usize, point: usize) -> PointRef {
    PointRef { contour, point }
}

#[test]
fn outline_closed_cubic_contour() {
    let contours = vec![vec![Line, OffCurve, OffCurve, Curve]];
    let path = path_for_glyph(&contours).unwrap();
    assert_eq!(
        path,
        vec![
            PathCommand::MoveTo(p(0, 0)),
            PathCommand::CurveTo(p(0, 1), p(0, 2), p(0, 3)),
            PathCommand::LineTo(p(0, 0)),
            PathCommand::ClosePath,
        ]
    );
}

#[test]
fn outline_starts_at_first_on_curve_point() {
    // The leading control point belongs to the closing segment.
    let contours = vec![vec![OffCurve, Curve, Line, OffCurve]];
    let path = path_for_glyph(&contours).unwrap();
    assert_eq!(
        path,
        vec![
            PathCommand::MoveTo(p(0, 1)),
            PathCommand::LineTo(p(0, 2)),
            PathCommand::CurveTo(p(0, 3), p(0, 0), p(0, 1)),
            PathCommand::ClosePath,
        ]
    );
}

#[test]
fn outline_open_contour_is_not_closed() {
    let contours = vec![vec![Move, Line, OffCurve, QCurve]];
    let path = path_for_glyph(&contours).unwrap();
    assert_eq!(
        path,
        vec![
            PathCommand::MoveTo(p(0, 0)),
            PathCommand::LineTo(p(0, 1)),
            PathCommand::QuadTo(p(0, 2), p(0, 3)),
        ]
    );
}

#[test]
fn outline_several_contours_and_skipped_ones() {
    let contours = vec![vec![OffCurve, OffCurve], vec![], vec![Line], vec![Curve, Line]];
    let path = path_for_glyph(&contours).unwrap();
    assert_eq!(
        path,
        vec![
            PathCommand::MoveTo(p(2, 0)),
            PathCommand::LineTo(p(2, 0)),
            PathCommand::ClosePath,
            PathCommand::MoveTo(p(3, 0)),
            PathCommand::LineTo(p(3, 1)),
            PathCommand::LineTo(p(3, 0)),
            PathCommand::ClosePath,
        ]
    );
    assert_eq!(path_for_glyph(&Vec::new()).unwrap(), vec![]);
}

#[test]
fn outline_with_three_control_points_is_not_drawable() {
    let bad = vec![vec![Line, OffCurve, OffCurve, OffCurve, Curve]];
    assert!(!outline_is_drawable(&bad));
    let bad_close = vec![vec![Line, Line, OffCurve, OffCurve, OffCurve]];
    assert!(!outline_is_drawable(&bad_close));
    // An open contour drops trailing control points instead of drawing them.
    let open = vec![vec![Move, Line, OffCurve, OffCurve, OffCurve]];
    assert!(outline_is_drawable(&open));
    assert_eq!(
        path_for_glyph(&open).unwrap(),
        vec![PathCommand::MoveTo(p(0, 0)), PathCommand::LineTo(p(0, 1))]
    );
    assert!(outline_is_drawable(&vec![vec![Line, OffCurve, OffCurve, Curve]]));
}

#[test]
fn outline_point_types_splits_at_moves() {
    let elements = vec![MoveTo, LineTo, CurveTo, ClosePath, MoveTo, QuadTo, ClosePath];
    let contours = outline_point_types(&elements);
    assert_eq!(
        contours,
        vec![
            vec![(Move, 0), (Line, 1), (OffCurve, 2), (OffCurve, 3), (Curve, 4)],
            vec![(Move, 5), (OffCurve, 6), (QCurve, 7)],
        ]
    );
}

#[test]
fn outline_point_types_without_move_and_empty() {
    assert_eq!(outline_point_types(&vec![LineTo, LineTo]), vec![vec![(Line, 0), (Line, 1)]]);
    assert!(outline_point_types(&vec![ClosePath]).is_empty());
    assert!(outline_point_types(&vec![]).is_empty());
    // Consecutive moves: the first contour holds just its move point.
    assert_eq!(outline_point_types(&vec![MoveTo, MoveTo]), vec![vec![(Move, 0)], vec![(Move, 1)]]);
}
