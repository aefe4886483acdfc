//! Vertex importance and its sidecar.

use fgbo::error::Error;
use fgbo::geometry::{Coord, Geometry, Polygon};
use fgbo::importance::{
    geometry_importance, is_storable, threshold_q, ImportanceSidecar, ALWAYS,
};

fn num(bits: u64) -> f64 {
    f64::from_bits(bits)
}

fn at(x: f64, y: f64) -> Coord {
    Coord {
        x: x.to_bits(),
        y: y.to_bits(),
    }
}

fn path(coords: &[(f64, f64)]) -> Vec<Coord> {
    coords.iter().map(|&(x, y)| at(x, y)).collect()
}

fn quantize_sqdist(d2: f64) -> u16 {
    if d2 <= 0.0 {
        return 1;
    }
    let l = d2.log2();
    if l <= -64.0 {
        return 1;
    }
    let q = ((l + 64.0) / 64.0 * 65533.0).floor() + 1.0;
    q.clamp(1.0, 65534.0) as u16
}

fn dequantize(q: u16) -> f64 {
    if q == 0 {
        return 0.0;
    }
    if q == ALWAYS {
        return f64::INFINITY;
    }
    ((q as f64 - 1.0) / 65533.0 * 64.0 - 64.0).exp2()
}

fn key_of(d2: f64) -> u64 {
    if d2.is_nan() {
        0
    } else {
        d2.to_bits() + 1
    }
}

fn distance_of(key: u64) -> f64 {
    if key == 0 {
        -1.0
    } else {
        f64::from_bits(key - 1)
    }
}

fn quantize(key: u64) -> u16 {
    quantize_sqdist(distance_of(key))
}

fn threshold(tol: f64) -> u16 {
    threshold_q(key_of(tol), &quantize, &|(q, key): (u16, u64)| {
        dequantize(q) >= distance_of(key)
    })
}

fn seg_dist((p, a, b): (Coord, Coord, Coord)) -> u64 {
    let (px, py) = (num(p.x), num(p.y));
    let (mut x, mut y) = (num(a.x), num(a.y));
    let (mut dx, mut dy) = (num(b.x) - x, num(b.y) - y);
    if dx != 0.0 || dy != 0.0 {
        let t = ((px - x) * dx + (py - y) * dy) / (dx * dx + dy * dy);
        if t > 1.0 {
            x = num(b.x);
            y = num(b.y);
        } else if t > 0.0 {
            x += dx * t;
            y += dy * t;
        }
    }
    dx = px - x;
    dy = py - y;
    key_of(dx * dx + dy * dy)
}

fn importance(g: &Geometry) -> Vec<u16> {
    geometry_importance(g, &seg_dist, &quantize)
}

#[test]
fn threshold_filter_is_safe() {
    // A vertex with importance exactly at tolerance must survive.
    for &tol in &[1e-12f64, 1e-7, 1e-4] {
        let t = threshold(tol);
        let q = quantize_sqdist(tol);
        assert!(dequantize(t) >= tol);
        // anything with true d2 >= tol quantizes to >= q >= t - 1;
        // conservative: filter never drops vertices well above tolerance
        assert!(quantize_sqdist(tol * 4.0) >= t, "tol={tol} q={q} t={t}");
    }
}

#[test]
fn threshold_steps_up_only_when_short() {
    assert_eq!(threshold_q(7, &|_: u64| 10u16, &|_: (u16, u64)| true), 10);
    assert_eq!(threshold_q(7, &|_: u64| 10u16, &|_: (u16, u64)| false), 11);
    assert_eq!(
        threshold_q(7, &|_: u64| 65534u16, &|_: (u16, u64)| false),
        65534
    );
}

#[test]
fn line_endpoints_always() {
    let ls = path(&[(0.0, 0.0), (0.5, 0.001), (1.0, 0.0)]);
    let imp = importance(&Geometry::LineString(ls));
    assert_eq!(imp.len(), 3);
    assert_eq!(imp[0], ALWAYS);
    assert_eq!(imp[2], ALWAYS);
    assert!(imp[1] < ALWAYS && imp[1] > 0);
}

#[test]
fn spike_more_important_than_noise() {
    // big deviation -> higher importance than small deviation
    let ls = path(&[(0.0, 0.0), (0.25, 1e-6), (0.5, 0.1), (0.75, 1e-6), (1.0, 0.0)]);
    let imp = importance(&Geometry::LineString(ls));
    assert!(imp[2] > imp[1]);
    assert!(imp[2] > imp[3]);
}

#[test]
fn monotone_nesting() {
    // child importance never exceeds parent importance: filtering at any
    // threshold yields endpoints + a consistent subset
    let ls = path(&[
        (0.0, 0.0),
        (0.1, 0.02),
        (0.2, -0.01),
        (0.3, 0.07),
        (0.4, 0.0),
        (0.5, 0.3),
        (0.6, 0.01),
        (0.7, -0.04),
        (0.8, 0.02),
        (1.0, 0.0),
    ]);
    let imp = importance(&Geometry::LineString(ls));
    // count survivors at decreasing tolerance: must be non-decreasing
    let mut prev_survivors = 0;
    for q in [60000u16, 50000, 40000, 30000, 1] {
        let n = imp.iter().filter(|&&v| v >= q).count();
        assert!(n >= prev_survivors);
        prev_survivors = n;
    }
}

#[test]
fn polygon_ring_order() {
    let p = Polygon::new(
        path(&[(0.0, 0.0), (1.0, 0.0), (1.0, 1.0), (0.0, 1.0), (0.0, 0.0)]),
        vec![path(&[
            (0.4, 0.4),
            (0.6, 0.4),
            (0.6, 0.6),
            (0.4, 0.6),
            (0.4, 0.4),
        ])],
    );
    let imp = importance(&Geometry::Polygon(p));
    assert_eq!(imp.len(), 10); // 5 + 5 coords incl. closing dup
}

#[test]
fn sidecar_roundtrip() {
    let mut sc = ImportanceSidecar::new();
    sc.push(&[ALWAYS, 100, ALWAYS]);
    sc.push(&[ALWAYS]);
    sc.push(&[ALWAYS, 1, 2, 3, ALWAYS]);
    let enc = sc.encode();
    let dec = ImportanceSidecar::decode(&enc).unwrap();
    assert_eq!(dec.feature_count(), 3);
    assert_eq!(dec.get(0).unwrap(), &[ALWAYS, 100, ALWAYS]);
    assert_eq!(dec.get(1).unwrap(), &[ALWAYS]);
    assert_eq!(dec.get(2).unwrap(), &[ALWAYS, 1, 2, 3, ALWAYS]);
    assert!(dec.get(3).is_none());
}

#[test]
fn sidecar_layout() {
    let mut sc = ImportanceSidecar::new();
    sc.push(&[0x0102]);
    assert!(sc.is_consistent());
    let mut want = vec![1u8, 0, 0, 0, 0, 0, 0, 0];
    want.extend_from_slice(&[0; 8]);
    want.extend_from_slice(&[2, 0, 0, 0, 0, 0, 0, 0]);
    want.extend_from_slice(&[2, 1]);
    assert_eq!(sc.encode(), want);
}

#[test]
fn sidecar_rejects_bad_bytes() {
    let mut sc = ImportanceSidecar::new();
    sc.push(&[1, 2]);
    let enc = sc.encode();
    let text = |b: &[u8]| match ImportanceSidecar::decode(b) {
        Err(Error::Format(m)) => m,
        other => panic!("expected a format error, got {other:?}"),
    };
    assert_eq!(text(&enc[..7]), "importance sidecar truncated");
    assert_eq!(text(&enc[..20]), "importance offset table truncated");
    // the last offset does not match the payload length
    assert_eq!(text(&enc[..enc.len() - 2]), "importance payload size mismatch");
    let mut broken = enc.clone();
    broken[0] = 0xFF;
    assert_eq!(text(&broken), "importance offset table truncated");
}

#[test]
fn sidecar_with_offsets_out_of_order() {
    // three offsets: 0, 9, 4 over two values
    let mut buf = vec![2u8, 0, 0, 0, 0, 0, 0, 0];
    for o in [0u64, 9, 4] {
        buf.extend_from_slice(&o.to_le_bytes());
    }
    buf.extend_from_slice(&[1, 0, 2, 0]);
    let sc = ImportanceSidecar::decode(&buf).unwrap();
    assert_eq!(sc.feature_count(), 2);
    assert!(!sc.is_consistent());
}

#[test]
fn importance_follows_coordinate_order() {
    let g = Geometry::GeometryCollection(vec![
        Geometry::Point(at(0.0, 0.0)),
        Geometry::Line(at(0.0, 0.0), at(1.0, 1.0)),
        Geometry::MultiPoint(path(&[(0.0, 0.0), (1.0, 0.0)])),
        Geometry::MultiLineString(vec![path(&[(0.0, 0.0), (0.5, 0.25), (1.0, 0.0)])]),
    ]);
    assert!(is_storable(&g));
    let imp = importance(&g);
    let mid = quantize_sqdist(0.0625);
    assert_eq!(
        imp,
        vec![ALWAYS, ALWAYS, ALWAYS, ALWAYS, ALWAYS, ALWAYS, mid, ALWAYS]
    );
}

#[test]
fn child_is_capped_by_its_parent() {
    // the farthest vertex of the whole line bounds those below it
    let ls = path(&[(0.0, 0.0), (2.0, 1.0), (-1.0, 0.5), (1.0, 0.0)]);
    let imp = importance(&Geometry::LineString(ls));
    let top = imp[1].max(imp[2]);
    assert!(imp[1] <= top && imp[2] <= top && top < ALWAYS);
    assert_eq!((imp[0], imp[3]), (ALWAYS, ALWAYS));
}

#[test]
fn rectangles_have_no_importance() {
    assert!(!is_storable(&Geometry::Rect(at(0.0, 0.0), at(1.0, 1.0))));
    assert!(!is_storable(&Geometry::GeometryCollection(vec![
        Geometry::Triangle(at(0.0, 0.0), at(1.0, 1.0), at(0.0, 1.0))
    ])));
}

#[test]
fn left_out_vertices_are_near() {
    let ls = path(&[
        (0.0, 0.0),
        (0.1, 0.02),
        (0.2, -0.01),
        (0.3, 0.07),
        (0.4, 0.0),
        (0.5, 0.3),
        (0.6, 0.01),
        (0.8, 0.02),
        (1.0, 0.0),
    ]);
    let imp = importance(&Geometry::LineString(ls.clone()));
    for q in [64000u16, 61000, 58000, 50000, 1] {
        let kept: Vec<usize> = (0..ls.len()).filter(|&i| imp[i] >= q).collect();
        for ends in kept.windows(2) {
            for i in ends[0] + 1..ends[1] {
                let near = quantize(seg_dist((ls[i], ls[ends[0]], ls[ends[1]])));
                assert!(near < q, "vertex {i} at threshold {q}");
            }
        }
    }
}

#[test]
fn first_array_is_the_one_that_was_pushed() {
    let mut sc = ImportanceSidecar::new();
    sc.push(&[ALWAYS, 7, ALWAYS]);
    assert_eq!(sc.get(0).unwrap(), &[ALWAYS, 7, ALWAYS]);
    sc.push(&[]);
    assert_eq!(sc.get(0).unwrap(), &[ALWAYS, 7, ALWAYS]);
    assert_eq!(sc.get(1).unwrap(), &[] as &[u16]);
}
