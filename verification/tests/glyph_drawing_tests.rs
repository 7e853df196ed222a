use bezy::glyph_drawing::{
    control_handles, glyph_to_draw, has_on_curve_marker, is_on_curve, path_strokes, stroke_shape,
    StrokeShape,
};
use bezy::outline::PointType::{self, Curve, Line, Move, OffCurve, QCurve};

fn on(t: PointType) -> bool {
    t != OffCurve
}

/// The handle walk of the glyph view, step by step.
fn expected_handles(points: &[PointType]) -> Vec<(usize, usize)> {
    let mut out = Vec::new();
    if points.is_empty() {
        return out;
    }
    let Some(mut current_idx) = (0..points.len()).find(|&i| on(points[i])) else { return out };
    for _ in 0..points.len() {
        if on(points[current_idx]) {
            let mut off = Vec::new();
            let mut next_idx = (current_idx + 1) % points.len();
            while !on(points[next_idx]) {
                off.push(next_idx);
                next_idx = (next_idx + 1) % points.len();
                if next_idx == current_idx {
                    break;
                }
            }
            if next_idx != current_idx && !off.is_empty() {
                if off.len() == 2 {
                    out.push((current_idx, off[0]));
                    out.push((next_idx, off[1]));
                } else if off.len() == 1 {
                    out.push((current_idx, off[0]));
                } else {
                    out.push((current_idx, off[0]));
                    out.push((next_idx, off[off.len() - 1]));
                }
                current_idx = next_idx;
            } else {
                current_idx = (current_idx + 1) % points.len();
            }
        } else {
            current_idx = (current_idx + 1) % points.len();
        }
    }
    out
}

/// The stroke walk of the glyph view, step by step.
fn expected_strokes(points: &[PointType]) -> Vec<Vec<usize>> {
    let mut out = Vec::new();
    if points.is_empty() {
        return out;
    }
    let mut segment_start_idx = 0;
    let mut last_was_on_curve = false;
    if !on(points[0]) {
        let mut l = points.len() - 1;
        while l > 0 && !on(points[l]) {
            l -= 1;
        }
        if on(points[l]) {
            segment_start_idx = l;
            last_was_on_curve = true;
        }
    } else {
        last_was_on_curve = true;
    }
    for i in 0..points.len() + 1 {
        let point_idx = i % points.len();
        let is_on = on(points[point_idx]);
        if is_on && last_was_on_curve {
            out.push(vec![segment_start_idx, point_idx]);
            segment_start_idx = point_idx;
        } else if is_on {
            let mut seg = Vec::new();
            let mut idx = segment_start_idx;
            loop {
                seg.push(idx);
                idx = (idx + 1) % points.len();
                if idx == (point_idx + 1) % points.len() {
                    break;
                }
            }
            out.push(seg);
            segment_start_idx = point_idx;
        }
        last_was_on_curve = is_on;
    }
    out
}

fn all_contours(max_len: usize) -> Vec<Vec<PointType>> {
    let kinds = [Move, Line, OffCurve, Curve, QCurve];
    let mut all = vec![vec![]];
    let mut frontier = vec![vec![]];
    for _ in 0..max_len {
        let mut next = Vec::new();
        for c in &frontier {
            for k in kinds {
                let mut d: Vec<PointType> = c.clone();
                d.push(k);
                next.push(d);
            }
        }
        all.extend(next.iter().cloned());
        frontier = next;
    }
    all
}

#[test]
fn drawing_handles_match_the_walk() {
    for c in all_contours(5) {
        let handles = control_handles(&c);
        assert_eq!(handles, expected_handles(&c), "contour {:?}", c);
        for (a, b) in handles {
            assert!(on(c[a]) && !on(c[b]), "handle ({}, {}) of {:?}", a, b, c);
        }
    }
}

#[test]
fn drawing_strokes_match_the_walk() {
    for c in all_contours(5) {
        assert_eq!(path_strokes(&c), expected_strokes(&c), "contour {:?}", c);
    }
}

#[test]
fn drawing_cubic_contour() {
    let c = vec![Line, OffCurve, OffCurve, Curve];
    assert_eq!(control_handles(&c), vec![(0, 1), (3, 2), (0, 1), (3, 2)]);
    assert_eq!(path_strokes(&c), vec![vec![0, 0], vec![0, 1, 2, 3], vec![3, 0]]);
    assert_eq!(stroke_shape(&c, &vec![0, 1, 2, 3]), StrokeShape::Cubic);
    assert_eq!(stroke_shape(&c, &vec![3, 0]), StrokeShape::Line);
    assert_eq!(stroke_shape(&c, &vec![3]), StrokeShape::Nothing);
    assert_eq!(stroke_shape(&c, &vec![0, 1, 3]), StrokeShape::Polyline);
}

#[test]
fn drawing_point_kinds() {
    assert!(is_on_curve(QCurve) && is_on_curve(Move) && !is_on_curve(OffCurve));
    assert!(has_on_curve_marker(Curve) && !has_on_curve_marker(QCurve));
    assert!(!has_on_curve_marker(OffCurve));
}

#[test]
fn drawing_glyph_choice() {
    let names: Vec<String> = ["o", "A", "x"].iter().map(|s| s.to_string()).collect();
    assert_eq!(glyph_to_draw("x", &names), Some("x".to_string()));
    assert_eq!(glyph_to_draw("q", &names), Some("A".to_string()));
    let only_notdef = vec![".notdef".to_string()];
    assert_eq!(glyph_to_draw("q", &only_notdef), Some(".notdef".to_string()));
    assert_eq!(glyph_to_draw("q", &vec!["z".to_string()]), None);
}
