//! Spatial document behavior: insert/query consistency, draining,
//! whole-object erase and removal by radius.

use xournalr::erase::object_erase;
use xournalr::{Color, Env, Pt, SpatialDocument, Stroke};

fn stroke_of(points: &[(i64, i64)]) -> Stroke {
    let mut s = Stroke::start(points[0].0, points[0].1, Color { r: 0, g: 0, b: 255 }, 255);
    for p in &points[1..] {
        s.add(p.0, p.1);
    }
    s
}

fn point_lists(strokes: &[Stroke]) -> Vec<Vec<Pt>> {
    strokes.iter().map(|s| s.points.clone()).collect()
}

#[test]
fn insert_query_consistency() {
    let mut doc = SpatialDocument::new();
    let a = stroke_of(&[(0, 0), (10, 0), (10, 10)]);
    let b = stroke_of(&[(100, 100), (110, 100)]);
    doc.insert(a);
    doc.insert(b);
    assert_eq!(doc.len(), 2);

    // A region covering only the first stroke's envelope.
    let near_a = Env { min_x: -5, min_y: -5, max_x: 20, max_y: 20 };
    let got = doc.query_range(&near_a);
    assert_eq!(point_lists(&got), vec![vec![
        Pt { x: 0, y: 0 },
        Pt { x: 10, y: 0 },
        Pt { x: 10, y: 10 },
    ]]);

    // A region covering both.
    let all = Env { min_x: -1000, min_y: -1000, max_x: 1000, max_y: 1000 };
    assert_eq!(doc.query_range(&all).len(), 2);

    // A region touching neither envelope.
    let far = Env { min_x: 500, min_y: 500, max_x: 600, max_y: 600 };
    assert!(doc.query_range(&far).is_empty());

    // A fresh call is a fresh sequence with the same answer.
    assert_eq!(point_lists(&doc.query_range(&near_a)), point_lists(&doc.query_range(&near_a)));
}

#[test]
fn drain_range_removes_and_returns() {
    let mut doc = SpatialDocument::new();
    doc.insert(stroke_of(&[(0, 0), (10, 0)]));
    doc.insert(stroke_of(&[(100, 100), (110, 100)]));
    let drained = doc.drain_range(&Env { min_x: -5, min_y: -5, max_x: 20, max_y: 20 });
    assert_eq!(drained.len(), 1);
    assert_eq!(drained[0].points, vec![Pt { x: 0, y: 0 }, Pt { x: 10, y: 0 }]);
    assert_eq!(doc.len(), 1);
    let rest = doc.query_range(&Env { min_x: -1000, min_y: -1000, max_x: 1000, max_y: 1000 });
    assert_eq!(rest[0].points, vec![Pt { x: 100, y: 100 }, Pt { x: 110, y: 100 }]);
}

#[test]
fn object_erase_deletes_crossed_stroke_only() {
    // A triangle-ish polyline and a disjoint stroke; the eraser
    // crosses only the first, which vanishes whole.
    let mut doc = SpatialDocument::new();
    doc.insert(stroke_of(&[(0, 0), (10, 0), (10, 10)]));
    doc.insert(stroke_of(&[(100, 100), (110, 100)]));
    let q = stroke_of(&[(5, -5), (5, 15)]);
    object_erase(&mut doc, &q);
    let all = Env { min_x: -1000, min_y: -1000, max_x: 1000, max_y: 1000 };
    let rest = doc.query_range(&all);
    assert_eq!(point_lists(&rest), vec![vec![Pt { x: 100, y: 100 }, Pt { x: 110, y: 100 }]]);
}

#[test]
fn object_erase_far_away_is_noop() {
    // The eraser's envelope misses every stroke: the document is left
    // bit for bit as it was, same strokes, same order, same points.
    let mut doc = SpatialDocument::new();
    doc.insert(stroke_of(&[(0, 0), (10, 0), (10, 10)]));
    doc.insert(stroke_of(&[(100, 100), (110, 100)]));
    let all = Env { min_x: -1000, min_y: -1000, max_x: 1000, max_y: 1000 };
    let before = point_lists(&doc.query_range(&all));
    let q = stroke_of(&[(500, 500), (510, 510)]);
    object_erase(&mut doc, &q);
    let after = point_lists(&doc.query_range(&all));
    assert_eq!(before, after);
}

#[test]
fn object_erase_touching_envelope_but_not_geometry_survives() {
    // The eraser's envelope overlaps the stroke's, but the polylines
    // never meet: the stroke survives, reinserted unchanged.
    let mut doc = SpatialDocument::new();
    doc.insert(stroke_of(&[(0, 0), (10, 0)]));
    let q = stroke_of(&[(0, 5), (10, 5)]);
    object_erase(&mut doc, &q);
    let all = Env { min_x: -1000, min_y: -1000, max_x: 1000, max_y: 1000 };
    assert_eq!(point_lists(&doc.query_range(&all)), vec![vec![
        Pt { x: 0, y: 0 },
        Pt { x: 10, y: 0 },
    ]]);
}

#[test]
fn remove_within_radius_takes_near_vertices() {
    let mut doc = SpatialDocument::new();
    doc.insert(stroke_of(&[(0, 0), (10, 0)]));
    doc.insert(stroke_of(&[(50, 50), (60, 50)]));
    let removed = doc.remove_within_radius(Pt { x: 11, y: 0 }, 2);
    assert_eq!(removed.len(), 1);
    assert_eq!(removed[0].points, vec![Pt { x: 0, y: 0 }, Pt { x: 10, y: 0 }]);
    assert_eq!(doc.len(), 1);
    // A vertex exactly at distance just over the radius stays.
    let removed2 = doc.remove_within_radius(Pt { x: 47, y: 50 }, 2);
    assert!(removed2.is_empty());
    let removed3 = doc.remove_within_radius(Pt { x: 48, y: 50 }, 2);
    assert_eq!(removed3.len(), 1);
}
