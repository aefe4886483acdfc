//! Filtering vertices and thinning features.

use fgbo::geometry::{coord_count, map_coords, visit_coords, Coord, Geometry, Polygon};
use fgbo::importance::{geometry_importance, threshold_q, ALWAYS};
use fgbo::simplify::{filter_geometry, filter_if_long_enough, is_too_small, mercator_bbox};

fn num(bits: u64) -> f64 {
    f64::from_bits(bits)
}

fn at(x: f64, y: f64) -> Coord {
    Coord {
        x: x.to_bits(),
        y: y.to_bits(),
    }
}

fn path(coords: &[(f64, f64)]) -> Vec<Coord> {
    coords.iter().map(|&(x, y)| at(x, y)).collect()
}

fn quantize_sqdist(d2: f64) -> u16 {
    if d2 <= 0.0 {
        return 1;
    }
    let l = d2.log2();
    if l <= -64.0 {
        return 1;
    }
    let q = ((l + 64.0) / 64.0 * 65533.0).floor() + 1.0;
    q.clamp(1.0, 65534.0) as u16
}

fn distance_of(key: u64) -> f64 {
    if key == 0 {
        -1.0
    } else {
        f64::from_bits(key - 1)
    }
}

fn quantize(key: u64) -> u16 {
    quantize_sqdist(distance_of(key))
}

fn threshold(tol: f64) -> u16 {
    threshold_q(tol.to_bits() + 1, &quantize, &|(q, key): (u16, u64)| {
        ((q as f64 - 1.0) / 65533.0 * 64.0 - 64.0).exp2() >= distance_of(key)
    })
}

fn seg_dist((p, a, b): (Coord, Coord, Coord)) -> u64 {
    let (px, py) = (num(p.x), num(p.y));
    let (mut x, mut y) = (num(a.x), num(a.y));
    let (mut dx, mut dy) = (num(b.x) - x, num(b.y) - y);
    if dx != 0.0 || dy != 0.0 {
        let t = ((px - x) * dx + (py - y) * dy) / (dx * dx + dy * dy);
        if t > 1.0 {
            x = num(b.x);
            y = num(b.y);
        } else if t > 0.0 {
            x += dx * t;
            y += dy * t;
        }
    }
    dx = px - x;
    dy = py - y;
    (dx * dx + dy * dy).to_bits() + 1
}

fn importance(g: &Geometry) -> Vec<u16> {
    geometry_importance(g, &seg_dist, &quantize)
}

fn project(c: Coord) -> Coord {
    let x = num(c.x) / 360.0 + 0.5;
    let s = (num(c.y) * std::f64::consts::PI / 180.0).sin();
    let y = 0.5 - 0.25 * ((1.0 + s) / (1.0 - s)).ln() / std::f64::consts::PI;
    at(x, y)
}

fn narrow((low, high, extent): (u64, u64, u64)) -> bool {
    num(high) - num(low) < num(extent)
}

#[test]
fn filter_keeps_endpoints() {
    let ls = path(&[(0.0, 0.0), (0.25, 1e-9), (0.5, 0.1), (0.75, 1e-9), (1.0, 0.0)]);
    let g = Geometry::LineString(ls);
    let imp = importance(&g);
    // very high threshold: only ALWAYS survives
    let f = filter_geometry(&g, &imp, ALWAYS).unwrap();
    match f {
        Geometry::LineString(l) => assert_eq!(l.len(), 2),
        _ => panic!(),
    }
    // moderate threshold keeps the big spike but drops the small
    // deviations (whose post-spike DP distance is ~0.0025)
    let q = threshold(0.005);
    let f = filter_geometry(&g, &imp, q).unwrap();
    match f {
        Geometry::LineString(l) => assert_eq!(l.len(), 3),
        _ => panic!(),
    }
}

#[test]
fn filter_consistency_with_count() {
    let p = Polygon::new(
        path(&[
            (0.0, 0.0),
            (0.5, 0.001),
            (1.0, 0.0),
            (1.0, 1.0),
            (0.0, 1.0),
            (0.0, 0.0),
        ]),
        vec![],
    );
    let g = Geometry::Polygon(p);
    let imp = importance(&g);
    assert_eq!(imp.len(), coord_count(&g));
    // moderate threshold: square corners survive, near-collinear
    // vertex (deviation 0.001 -> d2 ~ 1e-6) drops
    let q = threshold(0.01);
    let f = filter_geometry(&g, &imp, q).unwrap();
    match f {
        Geometry::Polygon(p) => assert_eq!(p.exterior.len(), 5),
        _ => panic!(),
    }
    // extreme threshold collapses the ring entirely
    assert!(filter_geometry(&g, &imp, ALWAYS).is_none());
}

#[test]
fn small_feature_detection() {
    let tiny = Geometry::Polygon(Polygon::new(
        path(&[
            (139.0, 35.0),
            (139.0001, 35.0),
            (139.0001, 35.0001),
            (139.0, 35.0),
        ]),
        vec![],
    ));
    assert!(is_too_small(&tiny, 0.001f64.to_bits(), &project, &narrow));
    assert!(!is_too_small(&tiny, 1e-9f64.to_bits(), &project, &narrow));
}

#[test]
fn points_are_never_too_small() {
    let big = 1.0f64.to_bits();
    assert!(!is_too_small(&Geometry::Point(at(0.0, 0.0)), big, &project, &narrow));
    let points = Geometry::MultiPoint(path(&[(0.0, 0.0)]));
    assert!(!is_too_small(&points, big, &project, &narrow));
    // a geometry without coordinates is
    assert!(is_too_small(&Geometry::LineString(vec![]), big, &project, &narrow));
}

#[test]
fn bbox_takes_every_coordinate() {
    let same = |c: Coord| c;
    let g = Geometry::MultiLineString(vec![
        path(&[(1.0, 5.0), (2.0, -1.0)]),
        path(&[(-3.0, 0.0), (0.0, 0.5)]),
    ]);
    let (min_x, min_y, max_x, max_y) = mercator_bbox(&g, &same).unwrap();
    assert_eq!(
        (num(min_x), num(min_y), num(max_x), num(max_y)),
        (-3.0, -1.0, 2.0, 5.0)
    );
    assert!(mercator_bbox(&Geometry::LineString(vec![]), &same).is_none());
}

#[test]
fn nothing_unimportant_means_unchanged() {
    let g = Geometry::LineString(path(&[(0.0, 0.0), (0.5, 0.1), (1.0, 0.0)]));
    let imp = importance(&g);
    assert_eq!(filter_geometry(&g, &imp, 1), Some(g));
}

#[test]
fn higher_threshold_keeps_less() {
    let g = Geometry::LineString(path(&[
        (0.0, 0.0),
        (0.1, 0.02),
        (0.3, 0.07),
        (0.5, 0.3),
        (0.7, -0.04),
        (1.0, 0.0),
    ]));
    let imp = importance(&g);
    let mut previous = 0;
    for q in [ALWAYS, 64000, 60000, 50000, 1] {
        let kept = filter_geometry(&g, &imp, q).unwrap();
        assert!(coord_count(&kept) >= previous);
        previous = coord_count(&kept);
    }
    assert_eq!(previous, 6);
}

#[test]
fn line_in_a_collection_takes_two_values() {
    // the entries behind a plain line belong to what follows it
    let g = Geometry::GeometryCollection(vec![
        Geometry::Line(at(0.0, 0.0), at(1.0, 1.0)),
        Geometry::LineString(path(&[(0.0, 0.0), (0.5, 0.5), (1.0, 0.0)])),
    ]);
    let imp = [ALWAYS, ALWAYS, ALWAYS, 7, ALWAYS];
    match filter_geometry(&g, &imp, 8) {
        Some(Geometry::GeometryCollection(v)) => {
            assert_eq!(v[0], Geometry::Line(at(0.0, 0.0), at(1.0, 1.0)));
            assert_eq!(v[1], Geometry::LineString(path(&[(0.0, 0.0), (1.0, 0.0)])));
        }
        other => panic!("expected collection, got {other:?}"),
    }
}

#[test]
fn collapsed_parts_are_left_out() {
    let ring = || path(&[(0.0, 0.0), (1.0, 0.0), (1.0, 1.0), (0.0, 0.0)]);
    let g = Geometry::MultiPolygon(vec![
        Polygon::new(ring(), vec![ring()]),
        Polygon::new(ring(), vec![]),
    ]);
    let imp = [9, 9, 9, 9, 9, 1, 1, 9, 9, 1, 1, 9];
    match filter_geometry(&g, &imp, 5) {
        Some(Geometry::MultiPolygon(v)) => {
            assert_eq!(v.len(), 1);
            assert_eq!(v[0].exterior, ring());
            assert!(v[0].interiors.is_empty());
        }
        other => panic!("expected multipolygon, got {other:?}"),
    }
}

#[test]
fn coordinates_are_visited_and_mapped_in_order() {
    let g = Geometry::Polygon(Polygon::new(
        path(&[(0.0, 0.0), (1.0, 0.0), (1.0, 1.0)]),
        vec![path(&[(0.2, 0.2), (0.4, 0.2), (0.4, 0.4)])],
    ));
    // rings are closed
    assert_eq!(coord_count(&g), 8);
    let mut seen = Vec::new();
    visit_coords(&g, &mut seen);
    assert_eq!(seen[3], at(0.0, 0.0));
    assert_eq!(seen[4], at(0.2, 0.2));
    let moved = map_coords(&g, &|c: Coord| at(num(c.x) + 1.0, num(c.y)));
    let mut after = Vec::new();
    visit_coords(&moved, &mut after);
    let want: Vec<Coord> = seen.iter().map(|c| at(num(c.x) + 1.0, num(c.y))).collect();
    assert_eq!(after, want);
}

/// Every coordinate of the first occurs in the second, in that order.
fn is_part_of(a: &Geometry, b: &Geometry) -> bool {
    let (mut xs, mut ys) = (vec![], vec![]);
    visit_coords(a, &mut xs);
    visit_coords(b, &mut ys);
    let mut rest = ys.iter();
    xs.iter().all(|x| rest.any(|y| x == y))
}

#[test]
fn coordinates_nest_through_a_whole_geometry() {
    let ring = |cx: f64, n: usize, r: f64| {
        let mut ring: Vec<Coord> = (0..n)
            .map(|k| {
                let a = k as f64 / n as f64 * std::f64::consts::TAU;
                let r = r * (1.0 + 0.2 * ((k * 7 % 5) as f64));
                at(cx + r * a.cos(), 0.5 + r * a.sin())
            })
            .collect();
        ring.push(ring[0]);
        ring
    };
    let g = Geometry::GeometryCollection(vec![
        Geometry::MultiPolygon(vec![
            Polygon::new(ring(0.2, 40, 0.05), vec![ring(0.2, 9, 0.01)]),
            Polygon::new(ring(0.6, 12, 0.002), vec![]),
        ]),
        Geometry::LineString(ring(0.8, 30, 0.1)),
    ]);
    let imp = importance(&g);
    let mut coarser: Option<Geometry> = None;
    for q in [ALWAYS, 60000, 55000, 50000, 45000, 1] {
        let finer = filter_geometry(&g, &imp, q);
        if let Some(c) = &coarser {
            assert!(is_part_of(c, finer.as_ref().unwrap()), "threshold {q}");
        }
        coarser = finer;
    }
    assert_eq!(coarser, Some(g));
}

#[test]
fn short_arrays_leave_out_the_end() {
    let line = path(&[(0.0, 0.0), (1.0, 0.0), (2.0, 0.0), (3.0, 0.0)]);
    let g = Geometry::LineString(line.clone());
    let want = Geometry::LineString(line[..3].to_vec());
    assert_eq!(filter_geometry(&g, &[ALWAYS, 5, 7], 5), Some(want));
    assert_eq!(filter_geometry(&g, &[ALWAYS], 1), None);
    assert_eq!(filter_geometry(&g, &[], 1), None);
    // entries behind the last coordinate do not matter
    assert_eq!(filter_geometry(&g, &[9; 6], 5), Some(g));

    // the second line begins where the array ends
    let lines = Geometry::MultiLineString(vec![line.clone(), line.clone()]);
    let first = Geometry::MultiLineString(vec![line.clone()]);
    assert_eq!(filter_geometry(&lines, &[9; 4], 5), Some(first));
    // and here behind its end
    assert_eq!(filter_if_long_enough(&lines, &[9; 3], 5), None);
    assert_eq!(filter_if_long_enough(&lines, &[9; 8], 5), Some(Some(lines)));
    let points = Geometry::GeometryCollection(vec![
        Geometry::LineString(line),
        Geometry::Point(at(0.0, 0.0)),
    ]);
    assert_eq!(filter_if_long_enough(&points, &[9; 2], 5), None);
    assert!(filter_if_long_enough(&points, &[9; 4], 5).is_some());
}
