//! Split-erase behavior: point-radius clipping and path-swept
//! whole-segment erasing.

use xournalr::erase::{split_erase_path, split_erase_point};
use xournalr::{Color, Env, Pt, SpatialDocument, Stroke};

fn stroke_of(points: &[(i64, i64)]) -> Stroke {
    let mut s = Stroke::start(points[0].0, points[0].1, Color { r: 0, g: 0, b: 255 }, 255);
    for p in &points[1..] {
        s.add(p.0, p.1);
    }
    s
}

fn all_strokes(doc: &SpatialDocument) -> Vec<Vec<Pt>> {
    let all = Env { min_x: -100000, min_y: -100000, max_x: 100000, max_y: 100000 };
    doc.query_range(&all).iter().map(|s| s.points.clone()).collect()
}

fn dist2(p: Pt, q: Pt) -> i64 {
    (p.x - q.x) * (p.x - q.x) + (p.y - q.y) * (p.y - q.y)
}

#[test]
fn split_point_splits_into_two() {
    // Erasing a straight horizontal stroke with a point eraser in its
    // middle yields exactly two sub-strokes, one ending before x = 9
    // and one starting after x = 11, with no kept point within the
    // radius.
    let mut doc = SpatialDocument::new();
    doc.insert(stroke_of(&[(0, 0), (10, 0), (20, 0)]));
    split_erase_point(&mut doc, Pt { x: 10, y: 0 }, 1);
    let got = all_strokes(&doc);
    assert_eq!(got.len(), 2);
    let first = &got[0];
    let second = &got[1];
    assert_eq!(first.first().unwrap(), &Pt { x: 0, y: 0 });
    assert!(first.last().unwrap().x < 9);
    assert!(second.first().unwrap().x > 11);
    assert_eq!(second.last().unwrap(), &Pt { x: 20, y: 0 });
    for run in &got {
        assert!(run.len() >= 2);
        for p in run {
            assert!(dist2(*p, Pt { x: 10, y: 0 }) > 1);
        }
    }
}

#[test]
fn split_point_exact_clip_points() {
    // The clip points are deterministic: the kept runs end at (8,0)
    // and restart at (12,0) for this input.
    let mut doc = SpatialDocument::new();
    doc.insert(stroke_of(&[(0, 0), (10, 0), (20, 0)]));
    split_erase_point(&mut doc, Pt { x: 10, y: 0 }, 1);
    assert_eq!(all_strokes(&doc), vec![
        vec![Pt { x: 0, y: 0 }, Pt { x: 8, y: 0 }],
        vec![Pt { x: 12, y: 0 }, Pt { x: 20, y: 0 }],
    ]);
}

#[test]
fn split_point_erases_whole_stroke() {
    // A short stroke entirely inside the erased disc disappears.
    let mut doc = SpatialDocument::new();
    doc.insert(stroke_of(&[(0, 0), (2, 0)]));
    split_erase_point(&mut doc, Pt { x: 1, y: 0 }, 5);
    assert!(all_strokes(&doc).is_empty());
}

#[test]
fn split_point_far_away_is_noop() {
    let mut doc = SpatialDocument::new();
    doc.insert(stroke_of(&[(0, 0), (10, 0)]));
    split_erase_point(&mut doc, Pt { x: 500, y: 500 }, 3);
    assert_eq!(all_strokes(&doc), vec![vec![Pt { x: 0, y: 0 }, Pt { x: 10, y: 0 }]]);
}

#[test]
fn sweepline() {
    // A stroke hugging the eraser path: every segment lies within the
    // sweep radius of the diagonal, so the whole stroke is erased.
    let mut doc = SpatialDocument::new();
    doc.insert(stroke_of(&[(0, 0), (1, 0), (2, 1)]));
    let erase_stroke = stroke_of(&[(0, 0), (2, 2)]);
    split_erase_path(&mut doc, &erase_stroke, 1);
    assert!(all_strokes(&doc).is_empty());
}

#[test]
fn split_path_keeps_far_segments() {
    // Only the middle segment crosses the eraser band; the runs on
    // either side survive whole.
    let mut doc = SpatialDocument::new();
    doc.insert(stroke_of(&[(0, 0), (40, 0), (80, 0), (120, 0)]));
    let erase_stroke = stroke_of(&[(60, -10), (60, 10)]);
    split_erase_path(&mut doc, &erase_stroke, 2);
    assert_eq!(all_strokes(&doc), vec![
        vec![Pt { x: 0, y: 0 }, Pt { x: 40, y: 0 }],
        vec![Pt { x: 80, y: 0 }, Pt { x: 120, y: 0 }],
    ]);
}

#[test]
fn split_path_respects_radius() {
    // A parallel stroke just outside the band survives; one within it
    // is erased.
    let mut doc = SpatialDocument::new();
    doc.insert(stroke_of(&[(0, 3), (10, 3)]));
    doc.insert(stroke_of(&[(0, 1), (10, 1)]));
    let erase_stroke = stroke_of(&[(0, 0), (10, 0)]);
    split_erase_path(&mut doc, &erase_stroke, 2);
    assert_eq!(all_strokes(&doc), vec![vec![Pt { x: 0, y: 3 }, Pt { x: 10, y: 3 }]]);
}

#[test]
fn split_path_many_segments() {
    // A long polyline against a multi-segment eraser path: only the
    // two crossed segments are erased, wherever they fall.
    let mut doc = SpatialDocument::new();
    doc.insert(stroke_of(&[
        (0, 0),
        (20, 0),
        (40, 0),
        (60, 0),
        (80, 0),
        (100, 0),
        (120, 0),
    ]));
    let eraser = stroke_of(&[(30, -5), (30, 5), (90, 5), (90, -5)]);
    split_erase_path(&mut doc, &eraser, 1);
    let got = all_strokes(&doc);
    // Segments 20..40 and 80..100 are crossed; 40..80 passes under the
    // eraser's middle segment, which floats at |y| = 5, farther than
    // the radius.
    assert_eq!(got, vec![
        vec![Pt { x: 0, y: 0 }, Pt { x: 20, y: 0 }],
        vec![Pt { x: 40, y: 0 }, Pt { x: 60, y: 0 }, Pt { x: 80, y: 0 }],
        vec![Pt { x: 100, y: 0 }, Pt { x: 120, y: 0 }],
    ]);
}

#[test]
fn split_point_untouched_candidate_survives_whole() {
    // Both strokes' envelopes meet the disc's envelope, so both are
    // drained; the crossed one is replaced by its two kept runs and
    // the grazing one, never within the radius, is re-inserted whole
    // behind them.
    let mut doc = SpatialDocument::new();
    doc.insert(stroke_of(&[(0, 0), (20, 0)]));
    doc.insert(stroke_of(&[(11, 1), (13, 3)]));
    split_erase_point(&mut doc, Pt { x: 10, y: 0 }, 1);
    assert_eq!(all_strokes(&doc), vec![
        vec![Pt { x: 0, y: 0 }, Pt { x: 8, y: 0 }],
        vec![Pt { x: 12, y: 0 }, Pt { x: 20, y: 0 }],
        vec![Pt { x: 11, y: 1 }, Pt { x: 13, y: 3 }],
    ]);
}

#[test]
fn split_path_single_point_eraser() {
    // An eraser path of one point acts as a zero-length eraser at
    // that point, still tested against the radius.
    let mut doc = SpatialDocument::new();
    doc.insert(stroke_of(&[(0, 0), (10, 0)]));
    let click = Stroke::start(5, 1, Color { r: 255, g: 255, b: 255 }, 255);
    split_erase_path(&mut doc, &click, 2);
    assert!(all_strokes(&doc).is_empty());

    // A one-point eraser outside the radius changes nothing.
    let mut doc2 = SpatialDocument::new();
    doc2.insert(stroke_of(&[(0, 0), (10, 0)]));
    let far_click = Stroke::start(5, 4, Color { r: 255, g: 255, b: 255 }, 255);
    split_erase_path(&mut doc2, &far_click, 2);
    assert_eq!(all_strokes(&doc2), vec![vec![Pt { x: 0, y: 0 }, Pt { x: 10, y: 0 }]]);
}

#[test]
fn split_path_empty_eraser_is_noop() {
    let mut doc = SpatialDocument::new();
    doc.insert(stroke_of(&[(0, 0), (10, 0)]));
    let empty = Stroke { points: Vec::new(), color: Color { r: 255, g: 255, b: 255 }, alpha: 255 };
    split_erase_path(&mut doc, &empty, 2);
    assert_eq!(all_strokes(&doc), vec![vec![Pt { x: 0, y: 0 }, Pt { x: 10, y: 0 }]]);
}
