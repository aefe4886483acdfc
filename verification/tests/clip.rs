//! Clipping geometries to rectangles.

use fgbo::clip::{clip_geometry, clip_line, clip_ring, clip_segment, Edge, Edges, Rect, ONE, ZERO};
use fgbo::geometry::{Coord, Geometry, Polygon};

fn num(bits: u64) -> f64 {
    f64::from_bits(bits)
}

fn at(x: f64, y: f64) -> Coord {
    Coord {
        x: x.to_bits(),
        y: y.to_bits(),
    }
}

fn path(coords: &[(f64, f64)]) -> Vec<Coord> {
    coords.iter().map(|&(x, y)| at(x, y)).collect()
}

fn numbers(coords: &[Coord]) -> Vec<(f64, f64)> {
    coords.iter().map(|c| (num(c.x), num(c.y))).collect()
}

fn unit() -> Rect {
    Rect::new(
        0f64.to_bits(),
        0f64.to_bits(),
        1f64.to_bits(),
        1f64.to_bits(),
    )
}

fn edges((a, b, r): (Coord, Coord, Rect)) -> Edges {
    let dx = num(b.x) - num(a.x);
    let dy = num(b.y) - num(a.y);
    let edge = |p: f64, q: f64| Edge {
        p: p.to_bits(),
        q: q.to_bits(),
        t: (q / p).to_bits(),
    };
    Edges {
        west: edge(-dx, num(a.x) - num(r.min_x)),
        east: edge(dx, num(r.max_x) - num(a.x)),
        north: edge(-dy, num(a.y) - num(r.min_y)),
        south: edge(dy, num(r.max_y) - num(a.y)),
    }
}

fn along((a, b, t): (Coord, Coord, u64)) -> Coord {
    let dx = num(b.x) - num(a.x);
    let dy = num(b.y) - num(a.y);
    at(num(a.x) + num(t) * dx, num(a.y) + num(t) * dy)
}

fn lerp((a, b, x): (Coord, Coord, u64)) -> u64 {
    let t = (num(x) - num(a.x)) / (num(b.x) - num(a.x));
    (num(a.y) + t * (num(b.y) - num(a.y))).to_bits()
}

fn clip(g: &Geometry) -> Option<Geometry> {
    clip_geometry(g, unit(), &edges, &along, &lerp)
}

#[test]
fn point_clip() {
    let inside = Geometry::Point(at(0.5, 0.5));
    let outside = Geometry::Point(at(2.0, 0.5));
    assert!(clip(&inside).is_some());
    assert!(clip(&outside).is_none());
}

#[test]
fn line_pass_through() {
    let ls = path(&[(-1.0, 0.5), (2.0, 0.5)]);
    let g = clip(&Geometry::LineString(ls)).unwrap();
    match g {
        Geometry::LineString(l) => {
            assert_eq!(num(l.first().unwrap().x), 0.0);
            assert_eq!(num(l.last().unwrap().x), 1.0);
        }
        other => panic!("expected linestring, got {other:?}"),
    }
}

#[test]
fn line_exit_reenter_splits() {
    let ls = path(&[
        (0.1, 0.5),
        (2.0, 0.5), // exits east
        (2.0, 0.8),
        (0.9, 0.8), // re-enters
    ]);
    let g = clip(&Geometry::LineString(ls)).unwrap();
    match g {
        Geometry::MultiLineString(ml) => assert_eq!(ml.len(), 2),
        other => panic!("expected multilinestring, got {other:?}"),
    }
}

#[test]
fn line_fully_outside() {
    let ls = path(&[(2.0, 2.0), (3.0, 3.0)]);
    assert!(clip(&Geometry::LineString(ls)).is_none());
}

#[test]
fn polygon_corner_clip() {
    // polygon overlapping the NE corner
    let p = Polygon::new(
        path(&[(0.5, 0.5), (2.0, 0.5), (2.0, 2.0), (0.5, 2.0), (0.5, 0.5)]),
        vec![],
    );
    let g = clip(&Geometry::Polygon(p)).unwrap();
    match g {
        Geometry::Polygon(p) => {
            for (x, y) in numbers(&p.exterior) {
                assert!(x <= 1.0 + 1e-12 && y <= 1.0 + 1e-12);
            }
            // clipped to the square [0.5,1]x[0.5,1]
            assert_eq!(p.exterior.len(), 5);
        }
        other => panic!("expected polygon, got {other:?}"),
    }
}

#[test]
fn polygon_fully_outside() {
    let p = Polygon::new(
        path(&[(2.0, 2.0), (3.0, 2.0), (3.0, 3.0), (2.0, 2.0)]),
        vec![],
    );
    assert!(clip(&Geometry::Polygon(p)).is_none());
}

#[test]
fn polygon_fully_inside_unchanged() {
    let p = Polygon::new(
        path(&[(0.2, 0.2), (0.8, 0.2), (0.8, 0.8), (0.2, 0.2)]),
        vec![],
    );
    let g = clip(&Geometry::Polygon(p.clone())).unwrap();
    match g {
        Geometry::Polygon(p2) => {
            assert_eq!(p2.exterior.len(), p.exterior.len());
            assert_eq!(p2, p);
        }
        other => panic!("expected polygon, got {other:?}"),
    }
}

#[test]
fn polygon_hole_clipped() {
    let p = Polygon::new(
        path(&[(-1.0, -1.0), (2.0, -1.0), (2.0, 2.0), (-1.0, 2.0), (-1.0, -1.0)]),
        vec![path(&[
            (0.4, 0.4),
            (0.6, 0.4),
            (0.6, 0.6),
            (0.4, 0.6),
            (0.4, 0.4),
        ])],
    );
    let g = clip(&Geometry::Polygon(p)).unwrap();
    match g {
        Geometry::Polygon(p) => {
            assert_eq!(p.interiors.len(), 1, "hole inside rect must survive");
        }
        other => panic!("expected polygon, got {other:?}"),
    }
}

#[test]
fn polygon_hole_outside_is_dropped() {
    let p = Polygon::new(
        path(&[(0.1, 0.1), (3.0, 0.1), (3.0, 0.9), (0.1, 0.9)]),
        vec![path(&[(2.0, 0.4), (2.5, 0.4), (2.5, 0.6)])],
    );
    match clip(&Geometry::Polygon(p)) {
        Some(Geometry::Polygon(p)) => assert!(p.interiors.is_empty()),
        other => panic!("expected polygon, got {other:?}"),
    }
}

#[test]
fn segment_part_inside() {
    let r = clip_segment(at(-1.0, 0.5), at(3.0, 0.5), unit(), &edges, &along).unwrap();
    assert_eq!(numbers(&[r.0, r.1]), vec![(0.0, 0.5), (1.0, 0.5)]);
    assert!(clip_segment(at(-1.0, 2.0), at(3.0, 2.0), unit(), &edges, &along).is_none());
    // a degenerate segment on the border is inside
    let r = clip_segment(at(1.0, 1.0), at(1.0, 1.0), unit(), &edges, &along).unwrap();
    assert_eq!(numbers(&[r.0, r.1]), vec![(1.0, 1.0), (1.0, 1.0)]);
}

#[test]
fn line_pieces_in_order() {
    let ls = path(&[(0.25, 0.5), (2.0, 0.5), (2.0, 0.75), (0.5, 0.75)]);
    let parts = clip_line(&ls, unit(), &edges, &along);
    assert_eq!(parts.len(), 2);
    assert_eq!(numbers(&parts[0]), vec![(0.25, 0.5), (1.0, 0.5)]);
    assert_eq!(numbers(&parts[1]), vec![(1.0, 0.75), (0.5, 0.75)]);
    assert!(clip_line(&path(&[(0.5, 0.5)]), unit(), &edges, &along).is_empty());
}

#[test]
fn line_inside_is_kept_whole() {
    let ls = path(&[(0.25, 0.5), (0.5, 0.5), (0.5, 0.75)]);
    let parts = clip_line(&ls, unit(), &edges, &along);
    assert_eq!(parts, vec![ls]);
}

#[test]
fn ring_over_an_edge() {
    let ring = path(&[(0.5, 0.25), (1.5, 0.25), (1.5, 0.75), (0.5, 0.75)]);
    let out = clip_ring(&ring, unit(), &lerp);
    assert_eq!(
        numbers(&out),
        vec![(0.5, 0.25), (1.0, 0.25), (1.0, 0.75), (0.5, 0.75)]
    );
    for (x, y) in numbers(&out) {
        assert!(unit().contains(x.to_bits(), y.to_bits()));
    }
}

#[test]
fn ring_around_the_rect_fills_it() {
    let ring = path(&[(-1.0, -1.0), (2.0, -1.0), (2.0, 2.0), (-1.0, 2.0)]);
    let mut out = numbers(&clip_ring(&ring, unit(), &lerp));
    out.sort_by(|a, b| a.partial_cmp(b).unwrap());
    assert_eq!(out, vec![(0.0, 0.0), (0.0, 1.0), (1.0, 0.0), (1.0, 1.0)]);
}

#[test]
fn multi_geometries_keep_what_is_inside() {
    let points = Geometry::MultiPoint(path(&[(0.5, 0.5), (2.0, 2.0), (1.0, 0.0)]));
    match clip(&points) {
        Some(Geometry::MultiPoint(v)) => assert_eq!(numbers(&v), vec![(0.5, 0.5), (1.0, 0.0)]),
        other => panic!("expected multipoint, got {other:?}"),
    }
    assert!(clip(&Geometry::MultiPoint(path(&[(2.0, 2.0)]))).is_none());

    let lines = Geometry::MultiLineString(vec![
        path(&[(0.25, 0.25), (0.5, 0.5)]),
        path(&[(2.0, 2.0), (3.0, 3.0)]),
    ]);
    assert!(clip(&lines).is_some());

    let inside = || Polygon::new(path(&[(0.2, 0.2), (0.8, 0.2), (0.8, 0.8)]), vec![]);
    let outside = Polygon::new(path(&[(2.0, 2.0), (3.0, 2.0), (3.0, 3.0)]), vec![]);
    match clip(&Geometry::MultiPolygon(vec![outside, inside(), inside()])) {
        Some(Geometry::MultiPolygon(v)) => assert_eq!(v.len(), 2),
        other => panic!("expected multipolygon, got {other:?}"),
    }

    let nested = Geometry::GeometryCollection(vec![
        Geometry::Point(at(0.5, 0.5)),
        Geometry::Point(at(5.0, 0.5)),
    ]);
    match clip(&nested) {
        Some(Geometry::GeometryCollection(v)) => assert_eq!(v, vec![Geometry::Point(at(0.5, 0.5))]),
        other => panic!("expected collection, got {other:?}"),
    }
}

#[test]
fn rect_borders_belong_to_it() {
    let r = unit();
    assert!(r.contains(ZERO, ONE));
    assert!(!r.contains((-0.25f64).to_bits(), ONE));
    assert!(!r.contains(f64::NAN.to_bits(), ONE));
    // a negative zero is the number zero
    assert!(r.contains((-0.0f64).to_bits(), ZERO));
    let b = |x: f64| x.to_bits();
    assert!(r.intersects_bbox(b(1.0), b(1.0), b(2.0), b(2.0)));
    assert!(!r.intersects_bbox(b(1.5), b(0.0), b(2.0), b(2.0)));
    assert!(!r.intersects_bbox(b(0.0), b(-2.0), b(1.0), b(-1.0)));
}

#[test]
fn line_inside_stays_whole_where_numbers_round() {
    let ls = path(&[(1.0, 0.5), (1e-17, 0.5), (0.5, 0.5)]);
    let parts = clip_line(&ls, unit(), &edges, &along);
    assert_eq!(parts, vec![ls]);
    // the inner end of a segment is a vertex of the line
    let ls = path(&[(-1.0, 0.5), (1e-17, 0.5), (0.5, 0.5)]);
    let parts = clip_line(&ls, unit(), &edges, &along);
    assert_eq!(parts.len(), 1);
    assert_eq!(numbers(&parts[0]), vec![(0.0, 0.5), (1e-17, 0.5), (0.5, 0.5)]);
}
