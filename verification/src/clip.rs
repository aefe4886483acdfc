//! Axis-aligned rectangle clipping.
//!
//! Polygons use Sutherland–Hodgman (clip window is convex, subject may be
//! concave); lines use per-segment Liang–Barsky walking, splitting into
//! multiple parts on exit/re-entry. The arithmetic on coordinates is handed
//! in as three functions:
//!
//! - `edges` gives the terms of Liang–Barsky for a segment and a rectangle;
//! - `along` gives the coordinate at a parameter of a segment;
//! - `lerp` gives the ordinate at an abscissa of the line through two
//!   coordinates.

use crate::function::{is_function, value_of};
use crate::geometry::{
    closed, closed_polygon, coord_eq, geometries_of, lemma_collection_view, lines_of, num_eq, num_le,
    num_lt, place, polygons_of,
};
use crate::geometry::{
    chained, geometries_coords, geometry_coords, polygon_coords, polygons_coords,
};
use crate::geometry::{geometries_left, lines_left, points_left, polygons_left};
use crate::geometry::{close, coords_eq, copy_geometry, copy_line};
use crate::geometry::{numbers_eq, numbers_le, numbers_lt};
use crate::geometry::{Coord, Geometry, GeometryModel, Polygon, PolygonModel};
use vstd::prelude::*;

verus! {

/// Clip rectangle. Works in any planar CRS (unit mercator here, y down).
#[derive(Debug, Clone, Copy, PartialEq, Eq, Structural)]
pub struct Rect {
    pub min_x: u64,
    pub min_y: u64,
    pub max_x: u64,
    pub max_y: u64,
}

impl Rect {
    /// The point lies in the rectangle or on its border.
    pub open spec fn holds(self, x: u64, y: u64) -> bool {
        num_le(self.min_x, x) && num_le(x, self.max_x) && num_le(self.min_y, y) && num_le(
            y,
            self.max_y,
        )
    }

    pub fn new(min_x: u64, min_y: u64, max_x: u64, max_y: u64) -> (r: Rect)
        ensures
            r == (Rect { min_x, min_y, max_x, max_y }),
    {
        Rect { min_x, min_y, max_x, max_y }
    }

    pub fn contains(&self, x: u64, y: u64) -> (r: bool)
        ensures
            r == self.holds(x, y),
    {
        numbers_le(self.min_x, x) && numbers_le(x, self.max_x) && numbers_le(self.min_y, y)
            && numbers_le(y, self.max_y)
    }

    pub fn intersects_bbox(&self, min_x: u64, min_y: u64, max_x: u64, max_y: u64) -> (r: bool)
        ensures
            r == !(num_lt(max_x, self.min_x) || num_lt(self.max_x, min_x) || num_lt(
                max_y,
                self.min_y,
            ) || num_lt(self.max_y, min_y)),
    {
        !(numbers_lt(max_x, self.min_x) || numbers_lt(self.max_x, min_x) || numbers_lt(
            max_y,
            self.min_y,
        ) || numbers_lt(self.max_y, min_y))
    }
}

/// The terms of Liang–Barsky for one edge of the rectangle: the segment
/// crosses it at parameter `t = q / p`, coming in where `p < 0`.
#[derive(Debug, Clone, Copy, PartialEq, Eq, Structural)]
pub struct Edge {
    pub p: u64,
    pub q: u64,
    pub t: u64,
}

/// The terms for all four edges.
#[derive(Debug, Clone, Copy, PartialEq, Eq, Structural)]
pub struct Edges {
    pub west: Edge,
    pub east: Edge,
    pub north: Edge,
    pub south: Edge,
}

/// The bit pattern of zero.
pub const ZERO: u64 = 0;

/// The bit pattern of one.
pub const ONE: u64 = 0x3ff0_0000_0000_0000;

/// The parameters of the part of a segment that is left after one edge.
pub open spec fn after_edge(span: Option<(u64, u64)>, e: Edge) -> Option<(u64, u64)> {
    match span {
        None => None,
        Some((t0, t1)) => if num_eq(e.p, ZERO) {
            // parallel to the edge
            if num_lt(e.q, ZERO) {
                None
            } else {
                Some((t0, t1))
            }
        } else if num_lt(e.p, ZERO) {
            // coming in
            if num_lt(t1, e.t) {
                None
            } else if num_lt(t0, e.t) {
                Some((e.t, t1))
            } else {
                Some((t0, t1))
            }
        } else {
            // going out
            if num_lt(e.t, t0) {
                None
            } else if num_lt(e.t, t1) {
                Some((t0, e.t))
            } else {
                Some((t0, t1))
            }
        },
    }
}

/// The parameters of the part of a segment that lies in the rectangle.
pub open spec fn segment_span(e: Edges) -> Option<(u64, u64)> {
    after_edge(
        after_edge(after_edge(after_edge(Some((ZERO, ONE)), e.west), e.east), e.north),
        e.south,
    )
}

/// The part that clipping leaves lies on the segment: its parameters ascend
/// between zero and one.
pub proof fn law_clipped_part_is_on_segment(e: Edges)
    ensures
        segment_span(e) matches Some((t0, t1)) ==> num_le(ZERO, t0) && num_le(t0, t1) && num_le(
            t1,
            ONE,
        ),
{
    let s0 = Some((ZERO, ONE));
    let s1 = after_edge(s0, e.west);
    let s2 = after_edge(s1, e.east);
    let s3 = after_edge(s2, e.north);
    lemma_after_edge(s0, e.west);
    lemma_after_edge(s1, e.east);
    lemma_after_edge(s2, e.north);
    lemma_after_edge(s3, e.south);
}

/// The parameters ascend between zero and one.
spec fn on_segment(span: Option<(u64, u64)>) -> bool {
    span matches Some((t0, t1)) ==> num_le(ZERO, t0) && num_le(t0, t1) && num_le(t1, ONE)
}

proof fn lemma_after_edge(span: Option<(u64, u64)>, e: Edge)
    requires
        on_segment(span),
    ensures
        on_segment(after_edge(span, e)),
{
}

fn clip_edge(t0: u64, t1: u64, e: Edge) -> (r: Option<(u64, u64)>)
    ensures
        r == after_edge(Some((t0, t1)), e),
{
    if numbers_eq(e.p, ZERO) {
        if numbers_lt(e.q, ZERO) {
            return None;
        }
        Some((t0, t1))
    } else if numbers_lt(e.p, ZERO) {
        if numbers_lt(t1, e.t) {
            return None;
        }
        if numbers_lt(t0, e.t) {
            Some((e.t, t1))
        } else {
            Some((t0, t1))
        }
    } else {
        if numbers_lt(e.t, t0) {
            return None;
        }
        if numbers_lt(e.t, t1) {
            Some((t0, e.t))
        } else {
            Some((t0, t1))
        }
    }
}

/// The clipped endpoints of a segment, if any part is inside. A segment
/// between two coordinates inside is inside as a whole, and an end that is not
/// cut off is the coordinate itself, not a computed one.
pub open spec fn segment_in<E: Fn((Coord, Coord, Rect)) -> Edges, T: Fn((Coord, Coord, u64)) -> Coord>(
    a: Coord,
    b: Coord,
    rect: Rect,
    edges: E,
    along: T,
) -> Option<(Coord, Coord)> {
    if rect.holds(a.x, a.y) && rect.holds(b.x, b.y) {
        Some((a, b))
    } else {
        match segment_span(value_of(edges, (a, b, rect))) {
            None => None,
            Some((t0, t1)) => Some(
                (
                    if t0 == ZERO || rect.holds(a.x, a.y) {
                        a
                    } else {
                        value_of(along, (a, b, t0))
                    },
                    if t1 == ONE || rect.holds(b.x, b.y) {
                        b
                    } else {
                        value_of(along, (a, b, t1))
                    },
                ),
            ),
        }
    }
}

/// Liang–Barsky clip of one segment; returns clipped endpoints if any part
/// is inside.
pub fn clip_segment<E: Fn((Coord, Coord, Rect)) -> Edges, T: Fn((Coord, Coord, u64)) -> Coord>(
    a: Coord,
    b: Coord,
    rect: Rect,
    edges: &E,
    along: &T,
) -> (r: Option<(Coord, Coord)>)
    requires
        is_function(*edges),
        is_function(*along),
    ensures
        r == segment_in(a, b, rect, *edges, *along),
{
    let a_in: bool = rect.contains(a.x, a.y);
    let b_in: bool = rect.contains(b.x, b.y);
    if a_in && b_in {
        return Some((a, b));
    }
    let e: Edges = edges((a, b, rect));
    assert(call_ensures(*edges, ((a, b, rect),), e));
    let (t0, t1): (u64, u64) = match clip_edge(ZERO, ONE, e.west) {
        None => {
            return None;
        },
        Some(s) => s,
    };
    let (t0, t1): (u64, u64) = match clip_edge(t0, t1, e.east) {
        None => {
            return None;
        },
        Some(s) => s,
    };
    let (t0, t1): (u64, u64) = match clip_edge(t0, t1, e.north) {
        None => {
            return None;
        },
        Some(s) => s,
    };
    let (t0, t1): (u64, u64) = match clip_edge(t0, t1, e.south) {
        None => {
            return None;
        },
        Some(s) => s,
    };
    let from: Coord = if t0 == ZERO || a_in {
        a
    } else {
        let c: Coord = along((a, b, t0));
        assert(call_ensures(*along, ((a, b, t0),), c));
        c
    };
    let to: Coord = if t1 == ONE || b_in {
        b
    } else {
        let c: Coord = along((a, b, t1));
        assert(call_ensures(*along, ((a, b, t1),), c));
        c
    };
    Some((from, to))
}

/// The parts of a line that are finished, and the one being walked.
#[verifier::ext_equal]
pub struct Walk {
    pub parts: Seq<Seq<Coord>>,
    pub cur: Seq<Coord>,
}

/// The walk with the current part finished: it becomes a part if it has two
/// coordinates or more.
pub open spec fn finished(w: Walk) -> Walk {
    Walk {
        parts: if w.cur.len() >= 2 {
            w.parts.push(w.cur)
        } else {
            w.parts
        },
        cur: Seq::empty(),
    }
}

/// The walk after one more segment: it goes on where the segment starts at
/// the last coordinate, and starts a new part elsewhere.
pub open spec fn walked(w: Walk, segment: Option<(Coord, Coord)>) -> Walk {
    match segment {
        None => finished(w),
        Some((a, b)) => if w.cur.len() > 0 && coord_eq(w.cur.last(), a) {
            Walk { cur: w.cur.push(b), ..w }
        } else {
            Walk { cur: seq![a, b], ..finished(w) }
        },
    }
}

/// The walk over the first `k` segments of a line.
pub open spec fn walk_of<E: Fn((Coord, Coord, Rect)) -> Edges, T: Fn((Coord, Coord, u64)) -> Coord>(
    line: Seq<Coord>,
    rect: Rect,
    edges: E,
    along: T,
    k: int,
) -> Walk
    decreases k,
{
    if k <= 0 {
        Walk { parts: Seq::empty(), cur: Seq::empty() }
    } else {
        walked(
            walk_of(line, rect, edges, along, k - 1),
            segment_in(line[k - 1], line[k], rect, edges, along),
        )
    }
}

/// The parts of a line inside the rectangle.
pub open spec fn line_parts<E: Fn((Coord, Coord, Rect)) -> Edges, T: Fn((Coord, Coord, u64)) -> Coord>(
    line: Seq<Coord>,
    rect: Rect,
    edges: E,
    along: T,
) -> Seq<Seq<Coord>> {
    finished(walk_of(line, rect, edges, along, line.len() - 1)).parts
}

/// Clip a linestring, splitting into parts where it leaves the rect.
pub fn clip_line<E: Fn((Coord, Coord, Rect)) -> Edges, T: Fn((Coord, Coord, u64)) -> Coord>(
    line: &Vec<Coord>,
    rect: Rect,
    edges: &E,
    along: &T,
) -> (parts: Vec<Vec<Coord>>)
    requires
        is_function(*edges),
        is_function(*along),
    ensures
        lines_of(parts@) == line_parts(line@, rect, *edges, *along),
{
    let n: usize = line.len();
    let mut parts: Vec<Vec<Coord>> = Vec::new();
    let mut cur: Vec<Coord> = Vec::new();
    let mut i: usize = 1;
    let ghost w = Walk { parts: Seq::empty(), cur: Seq::empty() };
    assert(lines_of(parts@) =~= w.parts);
    assert(cur@ =~= w.cur);
    while i < n
        invariant
            1 <= i,
            n == line@.len(),
            i == 1 || i <= n,
            is_function(*edges),
            is_function(*along),
            w == walk_of(line@, rect, *edges, *along, i - 1),
            lines_of(parts@) == w.parts,
            cur@ == w.cur,
        decreases n - i,
    {
        let ghost before = lines_of(parts@);
        let ghost was = cur@;
        match clip_segment(line[i - 1], line[i], rect, edges, along) {
            Some((a, b)) => {
                let len: usize = cur.len();
                if len > 0 && coords_eq(cur[len - 1], a) {
                    cur.push(b);
                } else {
                    // first piece, or a re-entry at a different point
                    if len >= 2 {
                        parts.push(cur);
                        assert(lines_of(parts@) =~= before.push(was));
                    }
                    cur = Vec::new();
                    cur.push(a);
                    cur.push(b);
                    assert(cur@ =~= seq![a, b]);
                }
            },
            None => {
                if cur.len() >= 2 {
                    parts.push(cur);
                    assert(lines_of(parts@) =~= before.push(was));
                }
                cur = Vec::new();
                assert(cur@ =~= Seq::<Coord>::empty());
            },
        }
        proof {
            w = walked(w, segment_in(line@[i - 1], line@[i as int], rect, *edges, *along));
            assert(lines_of(parts@) =~= w.parts);
        }
        i = i + 1;
    }
    let ghost before = lines_of(parts@);
    let ghost was = cur@;
    assert(w == walk_of(line@, rect, *edges, *along, n - 1));
    if cur.len() >= 2 {
        parts.push(cur);
        assert(lines_of(parts@) =~= before.push(was));
    }
    parts
}

/// Every coordinate of a line lies in the rectangle.
pub open spec fn line_inside(line: Seq<Coord>, rect: Rect) -> bool {
    forall|i: int| 0 <= i < line.len() ==> rect.holds((#[trigger] line[i]).x, line[i].y)
}

proof fn lemma_walk_inside<
    E: Fn((Coord, Coord, Rect)) -> Edges,
    T: Fn((Coord, Coord, u64)) -> Coord,
>(
    line: Seq<Coord>,
    rect: Rect,
    edges: E,
    along: T,
    k: int,
)
    requires
        line_inside(line, rect),
        1 <= k < line.len(),
    ensures
        walk_of(line, rect, edges, along, k) == (Walk {
            parts: Seq::empty(),
            cur: line.take(k + 1),
        }),
    decreases k,
{
    let segment = segment_in(line[k - 1], line[k], rect, edges, along);
    assert(segment == Some((line[k - 1], line[k])));
    if k > 1 {
        lemma_walk_inside(line, rect, edges, along, k - 1);
        assert(line.take(k).last() == line[k - 1]);
        assert(line.take(k).push(line[k]) =~= line.take(k + 1));
    } else {
        assert(walk_of(line, rect, edges, along, 0) == Walk {
            parts: Seq::empty(),
            cur: Seq::empty(),
        });
        assert(seq![line[0], line[1]] =~= line.take(2));
    }
}

/// A line inside the rectangle comes back as one part, unchanged, whatever the
/// arithmetic.
pub proof fn law_line_in_rect_is_one_part<
    E: Fn((Coord, Coord, Rect)) -> Edges,
    T: Fn((Coord, Coord, u64)) -> Coord,
>(
    line: Seq<Coord>,
    rect: Rect,
    edges: E,
    along: T,
)
    requires
        line_inside(line, rect),
        line.len() >= 2,
    ensures
        line_parts(line, rect, edges, along) == seq![line],
{
    lemma_walk_inside(line, rect, edges, along, line.len() - 1);
    assert(line.take(line.len() as int) =~= line);
    assert(Seq::<Seq<Coord>>::empty().push(line) =~= seq![line]);
}

/// A line is split only where it leaves the rectangle: what is left of the two
/// segments at a coordinate inside meets in this very coordinate.
pub proof fn law_line_goes_on_inside<
    E: Fn((Coord, Coord, Rect)) -> Edges,
    T: Fn((Coord, Coord, u64)) -> Coord,
>(
    a: Coord,
    b: Coord,
    c: Coord,
    rect: Rect,
    edges: E,
    along: T,
)
    requires
        rect.holds(b.x, b.y),
    ensures
        segment_in(a, b, rect, edges, along) matches Some((_, end)) ==> end == b,
        segment_in(b, c, rect, edges, along) matches Some((start, _)) ==> start == b,
        coord_eq(b, b),
{
}

/// A side of the rectangle.
#[derive(Debug, Clone, Copy, PartialEq, Eq, Structural)]
pub enum Side {
    West,
    East,
    North,
    South,
}

/// The coordinate lies on the inner side of one edge of the rectangle.
pub open spec fn is_inside(side: Side, rect: Rect, c: Coord) -> bool {
    match side {
        Side::West => num_le(rect.min_x, c.x),
        Side::East => num_le(c.x, rect.max_x),
        Side::North => num_le(rect.min_y, c.y),
        Side::South => num_le(c.y, rect.max_y),
    }
}

/// A coordinate with its numbers exchanged.
pub open spec fn mirrored(c: Coord) -> Coord {
    Coord { x: c.y, y: c.x }
}

/// Where the line through two coordinates crosses an edge.
pub open spec fn crossing<
    L: Fn((Coord, Coord, u64)) -> u64,
>(
    side: Side,
    rect: Rect,
    a: Coord,
    b: Coord,
    lerp: L,
) -> Coord {
    match side {
        Side::West => Coord { x: rect.min_x, y: value_of(lerp, (a, b, rect.min_x)) },
        Side::East => Coord { x: rect.max_x, y: value_of(lerp, (a, b, rect.max_x)) },
        Side::North => Coord {
            x: value_of(lerp, (mirrored(a), mirrored(b), rect.min_y)),
            y: rect.min_y,
        },
        Side::South => Coord {
            x: value_of(lerp, (mirrored(a), mirrored(b), rect.max_y)),
            y: rect.max_y,
        },
    }
}

fn inside(side: Side, rect: Rect, c: Coord) -> (r: bool)
    ensures
        r == is_inside(side, rect, c),
{
    match side {
        Side::West => numbers_le(rect.min_x, c.x),
        Side::East => numbers_le(c.x, rect.max_x),
        Side::North => numbers_le(rect.min_y, c.y),
        Side::South => numbers_le(c.y, rect.max_y),
    }
}

fn intersect<
    L: Fn((Coord, Coord, u64)) -> u64,
>(
    side: Side,
    rect: Rect,
    a: Coord,
    b: Coord,
    lerp: &L,
) -> (r: Coord)
    requires
        is_function(*lerp),
    ensures
        r == crossing(side, rect, a, b, *lerp),
{
    let ma: Coord = Coord { x: a.y, y: a.x };
    let mb: Coord = Coord { x: b.y, y: b.x };
    match side {
        Side::West => {
            let y: u64 = lerp((a, b, rect.min_x));
            assert(call_ensures(*lerp, ((a, b, rect.min_x),), y));
            Coord { x: rect.min_x, y }
        },
        Side::East => {
            let y: u64 = lerp((a, b, rect.max_x));
            assert(call_ensures(*lerp, ((a, b, rect.max_x),), y));
            Coord { x: rect.max_x, y }
        },
        Side::North => {
            let x: u64 = lerp((ma, mb, rect.min_y));
            assert(call_ensures(*lerp, ((ma, mb, rect.min_y),), x));
            Coord { x, y: rect.min_y }
        },
        Side::South => {
            let x: u64 = lerp((ma, mb, rect.max_y));
            assert(call_ensures(*lerp, ((ma, mb, rect.max_y),), x));
            Coord { x, y: rect.max_y }
        },
    }
}

/// What one vertex of a ring and the one before it leave inside an edge: the
/// vertex itself, if it is inside, and the crossing between the two, if
/// they lie on different sides.
pub open spec fn vertex_out<
    L: Fn((Coord, Coord, u64)) -> u64,
>(
    side: Side,
    rect: Rect,
    prev: Coord,
    cur: Coord,
    lerp: L,
) -> Seq<
    Coord,
> {
    let cross = crossing(side, rect, prev, cur, lerp);
    if is_inside(side, rect, cur) {
        if is_inside(side, rect, prev) {
            seq![cur]
        } else {
            seq![cross, cur]
        }
    } else if is_inside(side, rect, prev) {
        seq![cross]
    } else {
        Seq::empty()
    }
}

/// What the first `k` vertices of a ring leave inside an edge.
pub open spec fn ring_out<
    L: Fn((Coord, Coord, u64)) -> u64,
>(
    ring: Seq<Coord>,
    side: Side,
    rect: Rect,
    lerp: L,
    k: int,
) -> Seq<Coord>
    decreases k,
{
    if k <= 0 {
        Seq::empty()
    } else {
        let prev = if k == 1 {
            ring.last()
        } else {
            ring[k - 2]
        };
        ring_out(ring, side, rect, lerp, k - 1) + vertex_out(side, rect, prev, ring[k - 1], lerp)
    }
}

/// Sutherland–Hodgman clip of a ring against one half-plane.
fn clip_ring_edge<
    L: Fn((Coord, Coord, u64)) -> u64,
>(
    ring: &Vec<Coord>,
    side: Side,
    rect: Rect,
    lerp: &L,
) -> (out: Vec<Coord>)
    requires
        is_function(*lerp),
    ensures
        out@ == ring_out(ring@, side, rect, *lerp, ring@.len() as int),
{
    let mut out: Vec<Coord> = Vec::new();
    let n: usize = ring.len();
    let mut i: usize = 0;
    while i < n
        invariant
            i <= n,
            n == ring@.len(),
            is_function(*lerp),
            out@ == ring_out(ring@, side, rect, *lerp, i as int),
        decreases n - i,
    {
        let ghost before = out@;
        let cur: Coord = ring[i];
        let prev: Coord = if i == 0 {
            ring[n - 1]
        } else {
            ring[i - 1]
        };
        let cur_in: bool = inside(side, rect, cur);
        let prev_in: bool = inside(side, rect, prev);
        if cur_in {
            if !prev_in {
                out.push(intersect(side, rect, prev, cur, lerp));
            }
            out.push(cur);
        } else if prev_in {
            out.push(intersect(side, rect, prev, cur, lerp));
        }
        i = i + 1;
        assert(out@ =~= before + vertex_out(side, rect, prev, cur, *lerp));
    }
    out
}

/// A ring clipped against all edges, one after the other.
pub open spec fn ring_in<
    L: Fn((Coord, Coord, u64)) -> u64,
>(
    ring: Seq<Coord>,
    rect: Rect,
    lerp: L,
) -> Seq<Coord> {
    let r1 = ring_out(ring, Side::West, rect, lerp, ring.len() as int);
    let r2 = ring_out(r1, Side::East, rect, lerp, r1.len() as int);
    let r3 = ring_out(r2, Side::North, rect, lerp, r2.len() as int);
    ring_out(r3, Side::South, rect, lerp, r3.len() as int)
}

/// Sutherland–Hodgman clip of a ring (open representation, no closing dup)
/// against the rect.
pub fn clip_ring<
    L: Fn((Coord, Coord, u64)) -> u64,
>(
    ring: &Vec<Coord>,
    rect: Rect,
    lerp: &L,
) -> (out: Vec<Coord>)
    requires
        is_function(*lerp),
    ensures
        out@ == ring_in(ring@, rect, *lerp),
{
    let r1: Vec<Coord> = clip_ring_edge(ring, Side::West, rect, lerp);
    let r2: Vec<Coord> = clip_ring_edge(&r1, Side::East, rect, lerp);
    let r3: Vec<Coord> = clip_ring_edge(&r2, Side::North, rect, lerp);
    clip_ring_edge(&r3, Side::South, rect, lerp)
}

/// A closed ring of some coordinates, if there are enough of them: three to
/// begin with, and four in the closed ring.
pub open spec fn ring_of(coords: Seq<Coord>) -> Option<Seq<Coord>> {
    if coords.len() < 3 || closed(coords).len() < 4 {
        None
    } else {
        Some(closed(coords))
    }
}

fn close_ring(coords: Vec<Coord>) -> (r: Option<Vec<Coord>>)
    ensures
        match r {
            Some(ring) => ring_of(coords@) == Some(ring@),
            None => ring_of(coords@) is None,
        },
{
    if coords.len() < 3 {
        return None;
    }
    let ring: Vec<Coord> = close(coords);
    if ring.len() < 4 {
        return None;
    }
    Some(ring)
}

/// A ring without its closing duplicate.
pub open spec fn opened_ring(ring: Seq<Coord>) -> Seq<Coord> {
    if ring.len() >= 2 && coord_eq(ring.first(), ring.last()) {
        ring.drop_last()
    } else {
        ring
    }
}

/// A ring clipped to the rectangle, if enough of it is left.
pub open spec fn clipped_ring<
    L: Fn((Coord, Coord, u64)) -> u64,
>(
    ring: Seq<Coord>,
    rect: Rect,
    lerp: L,
) -> Option<Seq<Coord>> {
    ring_of(ring_in(opened_ring(ring), rect, lerp))
}

fn clip_closed_ring<
    L: Fn((Coord, Coord, u64)) -> u64,
>(
    ring: &Vec<Coord>,
    rect: Rect,
    lerp: &L,
) -> (r: Option<Vec<Coord>>)
    requires
        is_function(*lerp),
    ensures
        match r {
            Some(out) => clipped_ring(ring@, rect, *lerp) == Some(out@),
            None => clipped_ring(ring@, rect, *lerp) is None,
        },
{
    // open representation: drop the closing duplicate before S-H
    let mut open: Vec<Coord> = copy_line(ring);
    let n: usize = open.len();
    if n >= 2 && coords_eq(open[0], open[n - 1]) {
        open.pop();
        assert(open@ =~= ring@.drop_last());
    }
    close_ring(clip_ring(&open, rect, lerp))
}

/// The clipped rings that are left.
pub open spec fn clipped_rings<
    L: Fn((Coord, Coord, u64)) -> u64,
>(
    rings: Seq<Seq<Coord>>,
    rect: Rect,
    lerp: L,
) -> Seq<Seq<Coord>>
    decreases rings.len(),
{
    if rings.len() == 0 {
        Seq::empty()
    } else {
        let init = clipped_rings(rings.drop_last(), rect, lerp);
        match clipped_ring(rings.last(), rect, lerp) {
            Some(r) => init.push(r),
            None => init,
        }
    }
}

/// A polygon clipped to the rectangle; `None` where its exterior is gone.
pub open spec fn clipped_polygon<
    L: Fn((Coord, Coord, u64)) -> u64,
>(
    p: PolygonModel,
    rect: Rect,
    lerp: L,
) -> Option<PolygonModel> {
    match clipped_ring(p.exterior, rect, lerp) {
        Some(exterior) => Some(closed_polygon(exterior, clipped_rings(p.interiors, rect, lerp))),
        None => None,
    }
}

pub fn clip_polygon<
    L: Fn((Coord, Coord, u64)) -> u64,
>(
    p: &Polygon,
    rect: Rect,
    lerp: &L,
) -> (r: Option<Polygon>)
    requires
        is_function(*lerp),
    ensures
        match r {
            Some(q) => clipped_polygon(p@, rect, *lerp) == Some(q@),
            None => clipped_polygon(p@, rect, *lerp) is None,
        },
{
    let exterior: Vec<Coord> = match clip_closed_ring(&p.exterior, rect, lerp) {
        None => {
            return None;
        },
        Some(r) => r,
    };
    let n: usize = p.interiors.len();
    let ghost models = lines_of(p.interiors@);
    let mut interiors: Vec<Vec<Coord>> = Vec::new();
    let mut i: usize = 0;
    assert(models.take(0) =~= Seq::<Seq<Coord>>::empty());
    assert(lines_of(interiors@) =~= Seq::<Seq<Coord>>::empty());
    while i < n
        invariant
            i <= n,
            n == p.interiors@.len(),
            is_function(*lerp),
            models == lines_of(p.interiors@),
            lines_of(interiors@) == clipped_rings(models.take(i as int), rect, *lerp),
        decreases n - i,
    {
        proof {
            let now = models.take(i + 1);
            assert(now.drop_last() =~= models.take(i as int));
            assert(now.last() == p.interiors@[i as int]@);
        }
        let ghost before = lines_of(interiors@);
        if let Some(r) = clip_closed_ring(&p.interiors[i], rect, lerp) {
            let ghost added = r@;
            interiors.push(r);
            assert(lines_of(interiors@) =~= before.push(added));
        }
        i = i + 1;
    }
    assert(models.take(n as int) =~= models);
    Some(Polygon::new(exterior, interiors))
}

/// The points inside the rectangle, in their order.
pub open spec fn points_in(points: Seq<Coord>, rect: Rect) -> Seq<Coord>
    decreases points.len(),
{
    if points.len() == 0 {
        Seq::empty()
    } else {
        let init = points_in(points.drop_last(), rect);
        if rect.holds(points.last().x, points.last().y) {
            init.push(points.last())
        } else {
            init
        }
    }
}

/// The parts of lines inside the rectangle, line after line.
pub open spec fn lines_parts<E: Fn((Coord, Coord, Rect)) -> Edges, T: Fn((Coord, Coord, u64)) -> Coord>(
    lines: Seq<Seq<Coord>>,
    rect: Rect,
    edges: E,
    along: T,
) -> Seq<Seq<Coord>>
    decreases lines.len(),
{
    if lines.len() == 0 {
        Seq::empty()
    } else {
        lines_parts(lines.drop_last(), rect, edges, along) + line_parts(
            lines.last(),
            rect,
            edges,
            along,
        )
    }
}

/// The clipped polygons that are left.
pub open spec fn clipped_polygons<
    L: Fn((Coord, Coord, u64)) -> u64,
>(
    ps: Seq<PolygonModel>,
    rect: Rect,
    lerp: L,
) -> Seq<PolygonModel>
    decreases ps.len(),
{
    if ps.len() == 0 {
        Seq::empty()
    } else {
        let init = clipped_polygons(ps.drop_last(), rect, lerp);
        match clipped_polygon(ps.last(), rect, lerp) {
            Some(p) => init.push(p),
            None => init,
        }
    }
}

/// A geometry clipped to the rectangle; `None` if nothing remains. A line may
/// become several lines, a polygon may lose rings; shapes that no layer holds
/// stay as they are.
pub open spec fn clipped<
    E: Fn((Coord, Coord, Rect)) -> Edges,
    T: Fn((Coord, Coord, u64)) -> Coord,
    L: Fn((Coord, Coord, u64)) -> u64,
>(
    g: GeometryModel,
    rect: Rect,
    edges: E,
    along: T,
    lerp: L,
) -> Option<
    GeometryModel,
>
    decreases g,
{
    match g {
        GeometryModel::Point(c) => if rect.holds(c.x, c.y) {
            Some(g)
        } else {
            None
        },
        GeometryModel::MultiPoint(s) => {
            let points = points_in(s, rect);
            if points.len() > 0 {
                Some(GeometryModel::MultiPoint(points))
            } else {
                None
            }
        },
        GeometryModel::LineString(line) => {
            let parts = line_parts(line, rect, edges, along);
            if parts.len() == 0 {
                None
            } else if parts.len() == 1 {
                Some(GeometryModel::LineString(parts[0]))
            } else {
                Some(GeometryModel::MultiLineString(parts))
            }
        },
        GeometryModel::MultiLineString(lines) => {
            let parts = lines_parts(lines, rect, edges, along);
            if parts.len() > 0 {
                Some(GeometryModel::MultiLineString(parts))
            } else {
                None
            }
        },
        GeometryModel::Polygon(p) => match clipped_polygon(p, rect, lerp) {
            Some(p) => Some(GeometryModel::Polygon(p)),
            None => None,
        },
        GeometryModel::MultiPolygon(ps) => {
            let polys = clipped_polygons(ps, rect, lerp);
            if polys.len() > 0 {
                Some(GeometryModel::MultiPolygon(polys))
            } else {
                None
            }
        },
        GeometryModel::GeometryCollection(gs) => {
            let geoms = clipped_all(gs, rect, edges, along, lerp);
            if geoms.len() > 0 {
                Some(GeometryModel::GeometryCollection(geoms))
            } else {
                None
            }
        },
        other => Some(other),
    }
}

/// The clipped geometries that are left.
pub open spec fn clipped_all<
    E: Fn((Coord, Coord, Rect)) -> Edges,
    T: Fn((Coord, Coord, u64)) -> Coord,
    L: Fn((Coord, Coord, u64)) -> u64,
>(
    gs: Seq<GeometryModel>,
    rect: Rect,
    edges: E,
    along: T,
    lerp: L,
) -> Seq<
    GeometryModel,
>
    decreases gs,
{
    if gs.len() == 0 {
        Seq::empty()
    } else {
        let init = clipped_all(gs.drop_last(), rect, edges, along, lerp);
        match clipped(gs.last(), rect, edges, along, lerp) {
            Some(g) => init.push(g),
            None => init,
        }
    }
}

fn clip_points(points: &Vec<Coord>, rect: Rect) -> (out: Vec<Coord>)
    ensures
        out@ == points_in(points@, rect),
{
    let n: usize = points.len();
    let mut out: Vec<Coord> = Vec::new();
    let mut i: usize = 0;
    assert(points@.take(0) =~= Seq::<Coord>::empty());
    while i < n
        invariant
            i <= n,
            n == points@.len(),
            out@ == points_in(points@.take(i as int), rect),
        decreases n - i,
    {
        proof {
            assert(points@.take(i + 1).drop_last() =~= points@.take(i as int));
        }
        let c: Coord = points[i];
        if rect.contains(c.x, c.y) {
            out.push(c);
        }
        i = i + 1;
    }
    assert(points@.take(n as int) =~= points@);
    out
}

/// Clip any geometry to `rect`. Returns `None` if nothing remains.
/// LineStrings may become MultiLineStrings; Polygons may lose rings.
pub fn clip_geometry<
    E: Fn((Coord, Coord, Rect)) -> Edges,
    T: Fn((Coord, Coord, u64)) -> Coord,
    L: Fn((Coord, Coord, u64)) -> u64,
>(
    geom: &Geometry,
    rect: Rect,
    edges: &E,
    along: &T,
    lerp: &L,
) -> (r: Option<
    Geometry,
>)
    requires
        is_function(*edges),
        is_function(*along),
        is_function(*lerp),
    ensures
        match r {
            Some(c) => clipped(geom@, rect, *edges, *along, *lerp) == Some(c@),
            None => clipped(geom@, rect, *edges, *along, *lerp) is None,
        },
    decreases *geom,
{
    match geom {
        Geometry::Point(c) => if rect.contains(c.x, c.y) {
            Some(copy_geometry(geom))
        } else {
            None
        },
        Geometry::MultiPoint(v) => {
            let points: Vec<Coord> = clip_points(v, rect);
            if points.len() > 0 {
                Some(Geometry::MultiPoint(points))
            } else {
                None
            }
        },
        Geometry::LineString(v) => {
            let parts: Vec<Vec<Coord>> = clip_line(v, rect, edges, along);
            assert(lines_of(parts@).len() == parts@.len());
            if parts.len() == 0 {
                None
            } else if parts.len() == 1 {
                assert(lines_of(parts@)[0] == parts@[0]@);
                Some(Geometry::LineString(copy_line(&parts[0])))
            } else {
                Some(Geometry::MultiLineString(parts))
            }
        },
        Geometry::MultiLineString(v) => {
            let n: usize = v.len();
            let ghost models = lines_of(v@);
            let mut out: Vec<Vec<Coord>> = Vec::new();
            let mut i: usize = 0;
            assert(models.take(0) =~= Seq::<Seq<Coord>>::empty());
            assert(lines_of(out@) =~= Seq::<Seq<Coord>>::empty());
            while i < n
                invariant
                    i <= n,
                    n == v@.len(),
                    is_function(*edges),
                    is_function(*along),
                    models == lines_of(v@),
                    lines_of(out@) == lines_parts(models.take(i as int), rect, *edges, *along),
                decreases n - i,
            {
                proof {
                    let now = models.take(i + 1);
                    assert(now.drop_last() =~= models.take(i as int));
                    assert(now.last() == v@[i as int]@);
                }
                let mut parts: Vec<Vec<Coord>> = clip_line(&v[i], rect, edges, along);
                let ghost before = lines_of(out@);
                let ghost added = lines_of(parts@);
                out.append(&mut parts);
                assert(lines_of(out@) =~= before + added);
                i = i + 1;
            }
            assert(models.take(n as int) =~= models);
            assert(lines_of(out@).len() == out@.len());
            if out.len() > 0 {
                Some(Geometry::MultiLineString(out))
            } else {
                None
            }
        },
        Geometry::Polygon(p) => match clip_polygon(p, rect, lerp) {
            Some(q) => Some(Geometry::Polygon(q)),
            None => None,
        },
        Geometry::MultiPolygon(v) => {
            let n: usize = v.len();
            let ghost models = polygons_of(v@);
            let mut out: Vec<Polygon> = Vec::new();
            let mut i: usize = 0;
            assert(models.take(0) =~= Seq::<PolygonModel>::empty());
            assert(polygons_of(out@) =~= Seq::<PolygonModel>::empty());
            while i < n
                invariant
                    i <= n,
                    n == v@.len(),
                    is_function(*lerp),
                    models == polygons_of(v@),
                    polygons_of(out@) == clipped_polygons(models.take(i as int), rect, *lerp),
                decreases n - i,
            {
                proof {
                    let now = models.take(i + 1);
                    assert(now.drop_last() =~= models.take(i as int));
                    assert(now.last() == v@[i as int]@);
                }
                let ghost before = polygons_of(out@);
                if let Some(q) = clip_polygon(&v[i], rect, lerp) {
                    let ghost added = q@;
                    out.push(q);
                    assert(polygons_of(out@) =~= before.push(added));
                }
                i = i + 1;
            }
            assert(models.take(n as int) =~= models);
            assert(polygons_of(out@).len() == out@.len());
            if out.len() > 0 {
                Some(Geometry::MultiPolygon(out))
            } else {
                None
            }
        },
        Geometry::GeometryCollection(v) => {
            let n: usize = v.len();
            let ghost models = geometries_of(v@);
            proof {
                lemma_collection_view(*geom, *v);
            }
            let mut out: Vec<Geometry> = Vec::new();
            let mut i: usize = 0;
            assert(models.take(0) =~= Seq::<GeometryModel>::empty());
            assert(geometries_of(out@) =~= Seq::<GeometryModel>::empty());
            while i < n
                invariant
                    i <= n,
                    n == v@.len(),
                    *geom == Geometry::GeometryCollection(*v),
                    is_function(*edges),
                    is_function(*along),
                    is_function(*lerp),
                    models == geometries_of(v@),
                    geometries_of(out@) == clipped_all(
                        models.take(i as int),
                        rect,
                        *edges,
                        *along,
                        *lerp,
                    ),
                decreases n - i,
            {
                proof {
                    let now = models.take(i + 1);
                    assert(now.drop_last() =~= models.take(i as int));
                    assert(now.last() == v@[i as int]@);
                    assert(decreases_to!(*geom => geom->GeometryCollection_0@[i as int]));
                }
                let ghost before = geometries_of(out@);
                if let Some(c) = clip_geometry(&v[i], rect, edges, along, lerp) {
                    let ghost added = c@;
                    out.push(c);
                    assert(geometries_of(out@) =~= before.push(added));
                }
                i = i + 1;
            }
            assert(models.take(n as int) =~= models);
            assert(geometries_of(out@).len() == out@.len());
            if out.len() > 0 {
                let ghost parts = out;
                let r: Geometry = Geometry::GeometryCollection(out);
                proof {
                    lemma_collection_view(r, parts);
                }
                Some(r)
            } else {
                None
            }
        },
        Geometry::Line(_, _) => Some(copy_geometry(geom)),
        Geometry::Rect(_, _) => Some(copy_geometry(geom)),
        Geometry::Triangle(_, _, _) => Some(copy_geometry(geom)),
    }
}

/// All coordinates lie on the inner side of an edge.
pub open spec fn all_inside(ring: Seq<Coord>, side: Side, rect: Rect) -> bool {
    forall|i: int| 0 <= i < ring.len() ==> is_inside(side, rect, #[trigger] ring[i])
}

/// The numbers of the rectangle are numbers.
pub open spec fn is_rect(rect: Rect) -> bool {
    place(rect.min_x) is Some && place(rect.min_y) is Some && place(rect.max_x) is Some && place(
        rect.max_y,
    ) is Some
}

/// Clipping against an edge leaves nothing outside of it.
pub proof fn law_clipped_ring_is_inside<
    L: Fn((Coord, Coord, u64)) -> u64,
>(
    ring: Seq<Coord>,
    side: Side,
    rect: Rect,
    lerp: L,
    k: int,
)
    requires
        is_rect(rect),
        0 <= k <= ring.len(),
    ensures
        all_inside(ring_out(ring, side, rect, lerp, k), side, rect),
    decreases k,
{
    if k > 0 {
        law_clipped_ring_is_inside(ring, side, rect, lerp, k - 1);
        let prev = if k == 1 {
            ring.last()
        } else {
            ring[k - 2]
        };
        let more = vertex_out(side, rect, prev, ring[k - 1], lerp);
        assert(is_inside(side, rect, crossing(side, rect, prev, ring[k - 1], lerp)));
        let init = ring_out(ring, side, rect, lerp, k - 1);
        let out = ring_out(ring, side, rect, lerp, k);
        assert forall|i: int| 0 <= i < out.len() implies is_inside(side, rect, #[trigger] out[i]) by {
            if i < init.len() {
                assert(out[i] == init[i]);
            } else {
                assert(out[i] == more[i - init.len()]);
            }
        }
    }
}

/// A ring that lies inside an edge is not changed by it.
proof fn lemma_inside_unchanged<
    L: Fn((Coord, Coord, u64)) -> u64,
>(
    ring: Seq<Coord>,
    side: Side,
    rect: Rect,
    lerp: L,
    k: int,
)
    requires
        all_inside(ring, side, rect),
        0 <= k <= ring.len(),
    ensures
        ring_out(ring, side, rect, lerp, k) == ring.take(k),
    decreases k,
{
    if k > 0 {
        lemma_inside_unchanged(ring, side, rect, lerp, k - 1);
        let prev = if k == 1 {
            ring[ring.len() - 1]
        } else {
            ring[k - 2]
        };
        assert(is_inside(side, rect, prev) && is_inside(side, rect, ring[k - 1]));
        assert(ring.take(k - 1) + seq![ring[k - 1]] =~= ring.take(k));
    } else {
        assert(ring_out(ring, side, rect, lerp, k) =~= ring.take(k));
    }
}

/// A ring that lies in the rectangle comes out unchanged.
pub proof fn law_ring_in_rect_is_unchanged<
    L: Fn((Coord, Coord, u64)) -> u64,
>(
    ring: Seq<Coord>,
    rect: Rect,
    lerp: L,
)
    requires
        forall|i: int| 0 <= i < ring.len() ==> rect.holds((#[trigger] ring[i]).x, ring[i].y),
    ensures
        ring_in(ring, rect, lerp) == ring,
{
    let n = ring.len() as int;
    assert(ring.take(n) =~= ring);
    lemma_inside_unchanged(ring, Side::West, rect, lerp, n);
    lemma_inside_unchanged(ring, Side::East, rect, lerp, n);
    lemma_inside_unchanged(ring, Side::North, rect, lerp, n);
    lemma_inside_unchanged(ring, Side::South, rect, lerp, n);
}

/// A closed ring in the rectangle, with nothing repeated at its seam but the
/// closing coordinate, is the same after clipping.
pub proof fn law_closed_ring_in_rect_is_unchanged<
    L: Fn((Coord, Coord, u64)) -> u64,
>(
    ring: Seq<Coord>,
    rect: Rect,
    lerp: L,
)
    requires
        ring.len() >= 4,
        ring.first() == ring.last(),
        !coord_eq(ring.first(), ring[ring.len() - 2]),
        forall|i: int| 0 <= i < ring.len() ==> rect.holds((#[trigger] ring[i]).x, ring[i].y),
    ensures
        clipped_ring(ring, rect, lerp) == Some(ring),
{
    let open = ring.drop_last();
    assert(rect.holds(ring[0].x, ring[0].y));
    assert(opened_ring(ring) == open);
    assert forall|i: int| 0 <= i < open.len() implies rect.holds(
        (#[trigger] open[i]).x,
        open[i].y,
    ) by {
        assert(open[i] == ring[i]);
    }
    law_ring_in_rect_is_unchanged(open, rect, lerp);
    assert(closed(open) =~= ring);
}

/// A ring that lies outside an edge as a whole is gone.
pub proof fn law_ring_outside_edge_vanishes<L: Fn((Coord, Coord, u64)) -> u64>(
    ring: Seq<Coord>,
    side: Side,
    rect: Rect,
    lerp: L,
    k: int,
)
    requires
        forall|i: int| 0 <= i < ring.len() ==> !is_inside(side, rect, #[trigger] ring[i]),
        0 <= k <= ring.len(),
    ensures
        ring_out(ring, side, rect, lerp, k).len() == 0,
    decreases k,
{
    if k > 0 {
        law_ring_outside_edge_vanishes(ring, side, rect, lerp, k - 1);
        let prev = if k == 1 {
            ring[ring.len() - 1]
        } else {
            ring[k - 2]
        };
        assert(!is_inside(side, rect, prev) && !is_inside(side, rect, ring[k - 1]));
    }
}

/// The points that clipping leaves are in the rectangle.
pub proof fn law_clipped_points_are_inside(points: Seq<Coord>, rect: Rect)
    ensures
        forall|i: int|
            0 <= i < points_in(points, rect).len() ==> rect.holds(
                (#[trigger] points_in(points, rect)[i]).x,
                points_in(points, rect)[i].y,
            ),
    decreases points.len(),
{
    if points.len() > 0 {
        law_clipped_points_are_inside(points.drop_last(), rect);
        let init = points_in(points.drop_last(), rect);
        let all = points_in(points, rect);
        assert forall|i: int| 0 <= i < all.len() implies rect.holds(
            (#[trigger] all[i]).x,
            all[i].y,
        ) by {
            if i < init.len() {
                assert(all[i] == init[i]);
            }
        }
    }
}

// ---- segments -----------------------------------------------------------------

/// The rectangle holds its border, and nothing beyond it on any side.
pub proof fn law_rect_holds_its_border(rect: Rect, x: u64, y: u64)
    requires
        is_rect(rect),
    ensures
        rect.holds(x, y) ==> !num_lt(x, rect.min_x) && !num_lt(rect.max_x, x) && !num_lt(
            y,
            rect.min_y,
        ) && !num_lt(rect.max_y, y),
        place(x) is Some && place(y) is Some && !rect.holds(x, y) ==> num_lt(x, rect.min_x)
            || num_lt(rect.max_x, x) || num_lt(y, rect.min_y) || num_lt(rect.max_y, y),
        place(x) is None || place(y) is None ==> !rect.holds(x, y),
        rect.holds(x, y) <==> is_inside(Side::West, rect, Coord { x, y }) && is_inside(
            Side::East,
            rect,
            Coord { x, y },
        ) && is_inside(Side::North, rect, Coord { x, y }) && is_inside(
            Side::South,
            rect,
            Coord { x, y },
        ),
{
}

/// The parameter `t` of a segment lies on the inner side of an edge: at or
/// behind the crossing where the segment comes in, at or before it where the
/// segment goes out; parallel to the edge, the segment as a whole does or does
/// not.
pub open spec fn edge_allows(e: Edge, t: u64) -> bool {
    if num_eq(e.p, ZERO) {
        !num_lt(e.q, ZERO)
    } else if num_lt(e.p, ZERO) {
        num_le(e.t, t)
    } else {
        num_le(t, e.t)
    }
}

/// The parameter lies on the segment and on the inner side of all edges.
pub open spec fn is_allowed(e: Edges, t: u64) -> bool {
    &&& num_le(0, t) && num_le(t, 0x3ff0_0000_0000_0000)
    &&& edge_allows(e.west, t) && edge_allows(e.east, t)
    &&& edge_allows(e.north, t) && edge_allows(e.south, t)
}

/// The crossings are numbers.
pub open spec fn has_crossings(e: Edges) -> bool {
    &&& place(e.west.t) is Some && place(e.east.t) is Some
    &&& place(e.north.t) is Some && place(e.south.t) is Some
}

/// The parameter lies in a part of a segment.
spec fn in_part(part: Option<(u64, u64)>, t: u64) -> bool {
    part matches Some((t0, t1)) && num_le(t0, t) && num_le(t, t1)
}

/// The ends of a part are those of the segment, or lie between them.
spec fn has_ends(part: Option<(u64, u64)>) -> bool {
    on_segment(part) && (part matches Some((t0, t1)) ==> (t0 == ZERO || num_lt(ZERO, t0)) && (t1
        == ONE || num_lt(t1, ONE)))
}

/// An edge cuts off what it does not allow, and nothing else.
proof fn lemma_edge_cuts(part: Option<(u64, u64)>, e: Edge)
    requires
        has_ends(part),
        place(e.t) is Some,
    ensures
        has_ends(after_edge(part, e)),
        forall|t: u64| #[trigger]
            in_part(after_edge(part, e), t) <==> in_part(part, t) && edge_allows(e, t),
{
    lemma_after_edge(part, e);
    assert forall|t: u64| #[trigger]
        in_part(after_edge(part, e), t) <==> in_part(part, t) && edge_allows(e, t) by {}
}

proof fn lemma_span_allows(e: Edges, t: u64)
    requires
        has_crossings(e),
    ensures
        is_allowed(e, t) <==> in_part(segment_span(e), t),
        has_ends(segment_span(e)),
{
    let s0 = Some((ZERO, ONE));
    let s1 = after_edge(s0, e.west);
    let s2 = after_edge(s1, e.east);
    let s3 = after_edge(s2, e.north);
    lemma_edge_cuts(s0, e.west);
    lemma_edge_cuts(s1, e.east);
    lemma_edge_cuts(s2, e.north);
    lemma_edge_cuts(s3, e.south);
    assert(in_part(s0, t) <==> num_le(0, t) && num_le(t, 0x3ff0_0000_0000_0000));
    assert(in_part(s1, t) <==> in_part(s0, t) && edge_allows(e.west, t));
    assert(in_part(s2, t) <==> in_part(s1, t) && edge_allows(e.east, t));
    assert(in_part(s3, t) <==> in_part(s2, t) && edge_allows(e.north, t));
}

/// The part of a segment that is left is the part inside: it has exactly the
/// parameters that all four edges allow, and nothing is left only where there
/// is none.
pub proof fn law_span_is_what_the_edges_allow(e: Edges, t: u64)
    requires
        has_crossings(e),
    ensures
        is_allowed(e, t) <==> (segment_span(e) matches Some((t0, t1)) && num_le(t0, t) && num_le(
            t,
            t1,
        )),
        segment_span(e) matches Some((t0, t1)) ==> is_allowed(e, t0) && is_allowed(e, t1),
        segment_span(e) matches Some((t0, t1)) ==> (t0 == 0 <==> is_allowed(e, 0)),
        segment_span(e) matches Some((t0, t1)) ==> (t1 == 0x3ff0_0000_0000_0000 <==> is_allowed(
            e,
            0x3ff0_0000_0000_0000,
        )),
{
    lemma_span_allows(e, t);
    if let Some((t0, t1)) = segment_span(e) {
        lemma_span_allows(e, t0);
        lemma_span_allows(e, t1);
        lemma_span_allows(e, 0);
        lemma_span_allows(e, 0x3ff0_0000_0000_0000);
    }
}

/// Clipping a segment leaves the part inside: a segment between two
/// coordinates inside stays whole; otherwise something is left exactly if the
/// edges allow some parameter, and it runs from the first parameter that they
/// allow to the last one. An end that is inside, or allowed, stays the
/// coordinate itself.
pub proof fn law_segment_is_clipped_to_the_inside<
    E: Fn((Coord, Coord, Rect)) -> Edges,
    T: Fn((Coord, Coord, u64)) -> Coord,
>(
    a: Coord,
    b: Coord,
    rect: Rect,
    edges: E,
    along: T,
    t: u64,
)
    requires
        has_crossings(value_of(edges, (a, b, rect))),
    ensures
        ({
            let e = value_of(edges, (a, b, rect));
            let a_in = rect.holds(a.x, a.y);
            let b_in = rect.holds(b.x, b.y);
            let left = segment_in(a, b, rect, edges, along);
            &&& a_in && b_in ==> left == Some((a, b))
            &&& is_allowed(e, t) ==> left is Some
            &&& !(a_in && b_in) ==> (left matches Some((from, to)) ==> {
                &&& a_in || is_allowed(e, 0) ==> from == a
                &&& !a_in && !is_allowed(e, 0) ==> exists|t0: u64|
                    {
                        &&& #[trigger] is_allowed(e, t0)
                        &&& is_allowed(e, t) ==> num_le(t0, t)
                        &&& from == value_of(along, (a, b, t0))
                    }
                &&& b_in || is_allowed(e, 0x3ff0_0000_0000_0000) ==> to == b
                &&& !b_in && !is_allowed(e, 0x3ff0_0000_0000_0000) ==> exists|t1: u64|
                    {
                        &&& #[trigger] is_allowed(e, t1)
                        &&& is_allowed(e, t) ==> num_le(t, t1)
                        &&& to == value_of(along, (a, b, t1))
                    }
            })
        }),
{
    let e = value_of(edges, (a, b, rect));
    law_span_is_what_the_edges_allow(e, t);
    if let Some((t0, t1)) = segment_span(e) {
        assert(is_allowed(e, t0) && is_allowed(e, t1));
    }
}

// ---- lines ---------------------------------------------------------------------

/// How a walk stands after some segments: nothing is being walked where the
/// last one left nothing, and otherwise a part that ends where that one ends.
proof fn lemma_walk_stands<
    E: Fn((Coord, Coord, Rect)) -> Edges,
    T: Fn((Coord, Coord, u64)) -> Coord,
>(
    line: Seq<Coord>,
    rect: Rect,
    edges: E,
    along: T,
    k: int,
)
    requires
        1 <= k < line.len(),
    ensures
        ({
            let w = walk_of(line, rect, edges, along, k);
            match segment_in(line[k - 1], line[k], rect, edges, along) {
                None => w.cur.len() == 0,
                Some((_, b)) => w.cur.len() >= 2 && w.cur.last() == b,
            }
        }),
    decreases k,
{
    if k > 1 {
        lemma_walk_stands(line, rect, edges, along, k - 1);
    } else {
        assert(walk_of(line, rect, edges, along, 0).cur.len() == 0);
    }
}

proof fn lemma_walk_prefix<
    E: Fn((Coord, Coord, Rect)) -> Edges,
    T: Fn((Coord, Coord, u64)) -> Coord,
>(
    line: Seq<Coord>,
    c: Coord,
    rect: Rect,
    edges: E,
    along: T,
    k: int,
)
    requires
        k < line.len(),
    ensures
        walk_of(line.push(c), rect, edges, along, k) == walk_of(line, rect, edges, along, k),
    decreases k,
{
    if k > 0 {
        lemma_walk_prefix(line, c, rect, edges, along, k - 1);
    }
}

/// Clipping a line goes on from segment to segment: a segment of which nothing
/// is left adds nothing; one that goes on where what is left of the segment
/// before it ends makes the last part longer; any other one starts a new part.
pub proof fn law_clipped_line_grows<
    E: Fn((Coord, Coord, Rect)) -> Edges,
    T: Fn((Coord, Coord, u64)) -> Coord,
>(
    line: Seq<Coord>,
    c: Coord,
    rect: Rect,
    edges: E,
    along: T,
)
    requires
        line.len() > 0,
    ensures
        ({
            let n = line.len() as int;
            let before = line_parts(line, rect, edges, along);
            let after = line_parts(line.push(c), rect, edges, along);
            match segment_in(line[n - 1], c, rect, edges, along) {
                None => after == before,
                Some((a, b)) => {
                    let goes_on = n >= 2 && (segment_in(
                        line[n - 2],
                        line[n - 1],
                        rect,
                        edges,
                        along,
                    ) matches Some((_, end)) && coord_eq(end, a));
                    if goes_on {
                        &&& before.len() > 0
                        &&& after == before.drop_last().push(before.last().push(b))
                    } else {
                        after == before.push(seq![a, b])
                    }
                },
            }
        }),
        line_parts(seq![c], rect, edges, along).len() == 0,
        line_parts(Seq::empty(), rect, edges, along).len() == 0,
{
    let n = line.len() as int;
    let all = line.push(c);
    lemma_walk_prefix(line, c, rect, edges, along, n - 1);
    let w = walk_of(line, rect, edges, along, n - 1);
    let before = line_parts(line, rect, edges, along);
    let after = line_parts(all, rect, edges, along);
    if n >= 2 {
        lemma_walk_stands(line, rect, edges, along, n - 1);
    } else {
        assert(w.cur.len() == 0);
    }
    if let Some((a, b)) = segment_in(line[n - 1], c, rect, edges, along) {
        if w.cur.len() > 0 && coord_eq(w.cur.last(), a) {
            assert(after =~= before.drop_last().push(before.last().push(b)));
        } else {
            assert(after =~= before.push(seq![a, b]));
        }
    }
}

// ---- members ---------------------------------------------------------------------

/// What is left of points are those inside, in their order.
pub proof fn law_clipped_points<
    E: Fn((Coord, Coord, Rect)) -> Edges,
    T: Fn((Coord, Coord, u64)) -> Coord,
    L: Fn((Coord, Coord, u64)) -> u64,
>(
    c: Coord,
    points: Seq<Coord>,
    rect: Rect,
    edges: E,
    along: T,
    lerp: L,
)
    ensures
        clipped(GeometryModel::Point(c), rect, edges, along, lerp) == if rect.holds(c.x, c.y) {
            Some(GeometryModel::Point(c))
        } else {
            None
        },
        ({
            let left = clipped(GeometryModel::MultiPoint(points), rect, edges, along, lerp);
            &&& points_left(left) == points.filter(|p: Coord| rect.holds(p.x, p.y))
            &&& left is Some <==> points_left(left).len() > 0
            &&& left matches Some(g) ==> g is MultiPoint
        }),
{
    lemma_points_filter(points, rect);
    let left = clipped(GeometryModel::MultiPoint(points), rect, edges, along, lerp);
    assert(points_left(left) =~= points_in(points, rect));
}

proof fn lemma_points_filter(points: Seq<Coord>, rect: Rect)
    ensures
        points_in(points, rect) == points.filter(|p: Coord| rect.holds(p.x, p.y)),
    decreases points.len(),
{
    reveal(Seq::filter);
    if points.len() > 0 {
        lemma_points_filter(points.drop_last(), rect);
    } else {
        assert(points_in(points, rect) =~= points);
    }
}

/// Clipping a line gives its parts, as one line or as several; clipping lines
/// gives what clipping each of them gives, one after the other. Nothing is
/// left only where nothing is left of any.
pub proof fn law_clipped_lines<
    E: Fn((Coord, Coord, Rect)) -> Edges,
    T: Fn((Coord, Coord, u64)) -> Coord,
    L: Fn((Coord, Coord, u64)) -> u64,
>(
    lines: Seq<Seq<Coord>>,
    line: Seq<Coord>,
    rect: Rect,
    edges: E,
    along: T,
    lerp: L,
)
    ensures
        ({
            let left = clipped(GeometryModel::LineString(line), rect, edges, along, lerp);
            &&& lines_left(left) == line_parts(line, rect, edges, along)
            &&& left is Some <==> lines_left(left).len() > 0
            &&& left matches Some(g) ==> (g is LineString || g is MultiLineString)
            &&& left matches Some(GeometryModel::MultiLineString(parts)) ==> parts.len() > 1
        }),
        ({
            let before = clipped(GeometryModel::MultiLineString(lines), rect, edges, along, lerp);
            let all = clipped(
                GeometryModel::MultiLineString(lines.push(line)),
                rect,
                edges,
                along,
                lerp,
            );
            let last = clipped(GeometryModel::LineString(line), rect, edges, along, lerp);
            &&& lines_left(all) == lines_left(before) + lines_left(last)
            &&& all is Some <==> lines_left(all).len() > 0
            &&& all matches Some(g) ==> g is MultiLineString
        }),
        clipped(GeometryModel::MultiLineString(Seq::empty()), rect, edges, along, lerp) is None,
{
    assert(lines.push(line).drop_last() =~= lines);
    let left = clipped(GeometryModel::LineString(line), rect, edges, along, lerp);
    let before = clipped(GeometryModel::MultiLineString(lines), rect, edges, along, lerp);
    let all = clipped(GeometryModel::MultiLineString(lines.push(line)), rect, edges, along, lerp);
    assert(lines_left(left) =~= line_parts(line, rect, edges, along));
    assert(lines_left(before) =~= lines_parts(lines, rect, edges, along));
    assert(lines_left(all) =~= lines_parts(lines.push(line), rect, edges, along));
}

/// Clipping a polygon clips its rings one by one: the exterior is what is left
/// of it as a polygon without holes, and nothing is left of the polygon where
/// nothing is left of that; a hole becomes what is left of it as a polygon
/// without holes, and is gone where nothing is. Holes keep their order.
pub proof fn law_clipped_polygon<
    E: Fn((Coord, Coord, Rect)) -> Edges,
    T: Fn((Coord, Coord, u64)) -> Coord,
    L: Fn((Coord, Coord, u64)) -> u64,
>(
    exterior: Seq<Coord>,
    holes: Seq<Seq<Coord>>,
    hole: Seq<Coord>,
    rect: Rect,
    edges: E,
    along: T,
    lerp: L,
)
    ensures
        ({
            let bare = PolygonModel { exterior, interiors: Seq::empty() };
            clipped(GeometryModel::Polygon(bare), rect, edges, along, lerp) matches Some(g) ==> (
            g matches GeometryModel::Polygon(q) && q.interiors.len() == 0)
        }),
        ({
            let some = PolygonModel { exterior, interiors: holes };
            let more = PolygonModel { exterior, interiors: holes.push(hole) };
            let alone = PolygonModel { exterior: hole, interiors: Seq::empty() };
            let before = clipped(GeometryModel::Polygon(some), rect, edges, along, lerp);
            let all = clipped(GeometryModel::Polygon(more), rect, edges, along, lerp);
            let last = clipped(GeometryModel::Polygon(alone), rect, edges, along, lerp);
            match before {
                None => all is None,
                Some(GeometryModel::Polygon(b)) => all == Some(
                    GeometryModel::Polygon(
                        PolygonModel {
                            exterior: b.exterior,
                            interiors: match last {
                                Some(GeometryModel::Polygon(h)) => b.interiors.push(h.exterior),
                                _ => b.interiors,
                            },
                        },
                    ),
                ),
                _ => false,
            }
        }),
{
    assert(holes.push(hole).drop_last() =~= holes);
    let some = clipped_polygon(PolygonModel { exterior, interiors: holes }, rect, lerp);
    let more = clipped_polygon(PolygonModel { exterior, interiors: holes.push(hole) }, rect, lerp);
    if some is Some {
        match clipped_ring(hole, rect, lerp) {
            Some(r) => {
                assert(more->0.interiors =~= some->0.interiors.push(closed(r)));
            },
            None => {
                assert(more->0.interiors =~= some->0.interiors);
            },
        }
    }
}

proof fn lemma_clipped_polygons<
    E: Fn((Coord, Coord, Rect)) -> Edges,
    T: Fn((Coord, Coord, u64)) -> Coord,
    L: Fn((Coord, Coord, u64)) -> u64,
>(
    ps: Seq<PolygonModel>,
    p: PolygonModel,
    rect: Rect,
    edges: E,
    along: T,
    lerp: L,
)
    ensures
        ({
            let before = clipped(GeometryModel::MultiPolygon(ps), rect, edges, along, lerp);
            let all = clipped(GeometryModel::MultiPolygon(ps.push(p)), rect, edges, along, lerp);
            let last = clipped(GeometryModel::Polygon(p), rect, edges, along, lerp);
            &&& polygons_left(all) == polygons_left(before) + polygons_left(last)
            &&& all is Some <==> polygons_left(all).len() > 0
            &&& all matches Some(r) ==> r is MultiPolygon
            &&& last matches Some(r) ==> r is Polygon
        }),
{
    assert(ps.push(p).drop_last() =~= ps);
    let before = clipped(GeometryModel::MultiPolygon(ps), rect, edges, along, lerp);
    let all = clipped(GeometryModel::MultiPolygon(ps.push(p)), rect, edges, along, lerp);
    let last = clipped(GeometryModel::Polygon(p), rect, edges, along, lerp);
    assert(polygons_left(before) =~= clipped_polygons(ps, rect, lerp));
    assert(polygons_left(all) =~= clipped_polygons(ps.push(p), rect, lerp));
    assert(polygons_left(all) =~= polygons_left(before) + polygons_left(last));
}

proof fn lemma_clipped_collection<
    E: Fn((Coord, Coord, Rect)) -> Edges,
    T: Fn((Coord, Coord, u64)) -> Coord,
    L: Fn((Coord, Coord, u64)) -> u64,
>(
    gs: Seq<GeometryModel>,
    g: GeometryModel,
    rect: Rect,
    edges: E,
    along: T,
    lerp: L,
)
    ensures
        ({
            let before = clipped(GeometryModel::GeometryCollection(gs), rect, edges, along, lerp);
            let all = clipped(
                GeometryModel::GeometryCollection(gs.push(g)),
                rect,
                edges,
                along,
                lerp,
            );
            &&& geometries_left(all) == match clipped(g, rect, edges, along, lerp) {
                Some(r) => geometries_left(before).push(r),
                None => geometries_left(before),
            }
            &&& all is Some <==> geometries_left(all).len() > 0
            &&& all matches Some(r) ==> r is GeometryCollection
        }),
{
    assert(gs.push(g).drop_last() =~= gs);
    assert(clipped_all(gs.push(g), rect, edges, along, lerp) == match clipped(
        g,
        rect,
        edges,
        along,
        lerp,
    ) {
        Some(r) => clipped_all(gs, rect, edges, along, lerp).push(r),
        None => clipped_all(gs, rect, edges, along, lerp),
    });
    let some = clipped(GeometryModel::GeometryCollection(gs), rect, edges, along, lerp);
    let more = clipped(GeometryModel::GeometryCollection(gs.push(g)), rect, edges, along, lerp);
    assert(geometries_left(some) =~= clipped_all(gs, rect, edges, along, lerp));
    assert(geometries_left(more) =~= clipped_all(gs.push(g), rect, edges, along, lerp));
}

/// Clipping polygons, and clipping a collection, gives what clipping each
/// member gives, one after the other, with all its parts; nothing is left only
/// where nothing is left of any.
pub proof fn law_clipped_members<
    E: Fn((Coord, Coord, Rect)) -> Edges,
    T: Fn((Coord, Coord, u64)) -> Coord,
    L: Fn((Coord, Coord, u64)) -> u64,
>(
    ps: Seq<PolygonModel>,
    p: PolygonModel,
    gs: Seq<GeometryModel>,
    g: GeometryModel,
    rect: Rect,
    edges: E,
    along: T,
    lerp: L,
)
    ensures
        ({
            let before = clipped(GeometryModel::MultiPolygon(ps), rect, edges, along, lerp);
            let all = clipped(GeometryModel::MultiPolygon(ps.push(p)), rect, edges, along, lerp);
            let last = clipped(GeometryModel::Polygon(p), rect, edges, along, lerp);
            &&& polygons_left(all) == polygons_left(before) + polygons_left(last)
            &&& all is Some <==> polygons_left(all).len() > 0
            &&& all matches Some(r) ==> r is MultiPolygon
            &&& last matches Some(r) ==> r is Polygon
        }),
        ({
            let before = clipped(GeometryModel::GeometryCollection(gs), rect, edges, along, lerp);
            let all = clipped(
                GeometryModel::GeometryCollection(gs.push(g)),
                rect,
                edges,
                along,
                lerp,
            );
            &&& geometries_left(all) == match clipped(g, rect, edges, along, lerp) {
                Some(r) => geometries_left(before).push(r),
                None => geometries_left(before),
            }
            &&& all is Some <==> geometries_left(all).len() > 0
            &&& all matches Some(r) ==> r is GeometryCollection
        }),
        clipped(GeometryModel::MultiPolygon(Seq::empty()), rect, edges, along, lerp) is None,
        clipped(GeometryModel::GeometryCollection(Seq::empty()), rect, edges, along, lerp) is None,
{
    lemma_clipped_polygons(ps, p, rect, edges, along, lerp);
    lemma_clipped_collection(gs, g, rect, edges, along, lerp);
    let none = Seq::<GeometryModel>::empty();
    assert(clipped_all(none, rect, edges, along, lerp).len() == 0);
}

// ---- rings -----------------------------------------------------------------------

/// `c` lies on the border of one side, where the line from `a` to `b` crosses
/// it: one of its numbers is that of the border, the other one that of the
/// line there.
pub open spec fn crosses_at<
    L: Fn((Coord, Coord, u64)) -> u64,
>(
    side: Side,
    rect: Rect,
    a: Coord,
    b: Coord,
    c: Coord,
    lerp: L,
) -> bool {
    let turned_a = Coord { x: a.y, y: a.x };
    let turned_b = Coord { x: b.y, y: b.x };
    match side {
        Side::West => c.x == rect.min_x && c.y == value_of(lerp, (a, b, rect.min_x)),
        Side::East => c.x == rect.max_x && c.y == value_of(lerp, (a, b, rect.max_x)),
        Side::North => c.y == rect.min_y && c.x == value_of(
            lerp,
            (turned_a, turned_b, rect.min_y),
        ),
        Side::South => c.y == rect.max_y && c.x == value_of(
            lerp,
            (turned_a, turned_b, rect.max_y),
        ),
    }
}

/// Clipping a ring against one side goes around it, edge by edge. A vertex
/// inside is kept; where an edge of the ring goes from one side of the border
/// to the other, the crossing comes in, before the vertex that is inside or
/// behind it; and nothing else comes out.
pub proof fn law_ring_is_cut_at_the_border<
    L: Fn((Coord, Coord, u64)) -> u64,
>(
    ring: Seq<Coord>,
    side: Side,
    rect: Rect,
    lerp: L,
    k: int,
)
    requires
        0 <= k < ring.len(),
    ensures
        ({
            let n = ring.len() as int;
            let prev = if k == 0 {
                ring[n - 1]
            } else {
                ring[k - 1]
            };
            let cur_in = is_inside(side, rect, ring[k]);
            let prev_in = is_inside(side, rect, prev);
            let from = ring_out(ring, side, rect, lerp, k).len() as int;
            let to = ring_out(ring, side, rect, lerp, k + 1).len() as int;
            let all = ring_out(ring, side, rect, lerp, n);
            &&& 0 <= from <= to <= all.len()
            &&& cur_in && prev_in ==> to == from + 1 && all[from] == ring[k]
            &&& cur_in && !prev_in ==> to == from + 2 && all[from + 1] == ring[k] && crosses_at(
                side,
                rect,
                prev,
                ring[k],
                all[from],
                lerp,
            )
            &&& !cur_in && prev_in ==> to == from + 1 && crosses_at(
                side,
                rect,
                prev,
                ring[k],
                all[from],
                lerp,
            )
            &&& !cur_in && !prev_in ==> to == from
        }),
        ring_out(ring, side, rect, lerp, 0).len() == 0,
{
    lemma_ring_prefix(ring, side, rect, lerp, k + 1, ring.len() as int);
    let part = ring_out(ring, side, rect, lerp, k + 1);
    let all = ring_out(ring, side, rect, lerp, ring.len() as int);
    assert(part == all.take(part.len() as int));
    assert forall|i: int| 0 <= i < part.len() implies all[i] == part[i] by {
        assert(all.take(part.len() as int)[i] == all[i]);
    }
}

proof fn lemma_ring_prefix<
    L: Fn((Coord, Coord, u64)) -> u64,
>(
    ring: Seq<Coord>,
    side: Side,
    rect: Rect,
    lerp: L,
    k: int,
    n: int,
)
    requires
        0 <= k <= n,
    ensures
        ({
            let part = ring_out(ring, side, rect, lerp, k);
            let all = ring_out(ring, side, rect, lerp, n);
            part.len() <= all.len() && part == all.take(part.len() as int)
        }),
    decreases n - k,
{
    let part = ring_out(ring, side, rect, lerp, k);
    if k < n {
        lemma_ring_prefix(ring, side, rect, lerp, k, n - 1);
        let init = ring_out(ring, side, rect, lerp, n - 1);
        let all = ring_out(ring, side, rect, lerp, n);
        assert(all.take(part.len() as int) =~= init.take(part.len() as int));
    } else {
        assert(part.take(part.len() as int) =~= part);
    }
}

/// The clip of a ring is a closed ring of four coordinates or more, made of
/// what is left of it when the closing coordinate is taken off and put on
/// again; nothing is left where that has too few coordinates.
pub proof fn law_clipped_ring_is_closed<
    L: Fn((Coord, Coord, u64)) -> u64,
>(
    ring: Seq<Coord>,
    rect: Rect,
    lerp: L,
)
    ensures
        ({
            let open = if ring.len() >= 2 && coord_eq(ring[0], ring[ring.len() - 1]) {
                ring.drop_last()
            } else {
                ring
            };
            let left = ring_in(open, rect, lerp);
            let whole = left.len() >= 3 && !coord_eq(left[0], left[left.len() - 1]);
            match clipped_ring(ring, rect, lerp) {
                Some(r) => {
                    &&& r.len() >= 4
                    &&& whole ==> r == left.push(left[0])
                    &&& !whole ==> r == left
                },
                None => left.len() < 3 || !whole && left.len() < 4,
            }
        }),
{
}

/// The numbers of all coordinates are numbers.
pub open spec fn all_numbers(ring: Seq<Coord>) -> bool {
    forall|i: int|
        0 <= i < ring.len() ==> place((#[trigger] ring[i]).x) is Some && place(ring[i].y) is Some
}

/// The number lies between two others, whichever is the greater.
pub open spec fn lies_between(a: u64, x: u64, b: u64) -> bool {
    num_le(a, x) && num_le(x, b) || num_le(b, x) && num_le(x, a)
}

/// Between two coordinates, `lerp` gives a number between theirs.
pub open spec fn stays_between<
    L: Fn((Coord, Coord, u64)) -> u64,
>(lerp: L) -> bool {
    forall|a: Coord, b: Coord, x: u64|
        lies_between(a.x, x, b.x) && place(a.y) is Some && place(b.y) is Some ==> lies_between(
            a.y,
            #[trigger] value_of(lerp, (a, b, x)),
            b.y,
        )
}

/// The rectangle is not turned inside out.
pub open spec fn is_upright(rect: Rect) -> bool {
    num_le(rect.min_x, rect.max_x) && num_le(rect.min_y, rect.max_y)
}

proof fn lemma_crossing_numbers<
    L: Fn((Coord, Coord, u64)) -> u64,
>(
    side: Side,
    rect: Rect,
    a: Coord,
    b: Coord,
    lerp: L,
)
    requires
        is_upright(rect),
        stays_between(lerp),
        place(a.x) is Some && place(a.y) is Some && place(b.x) is Some && place(b.y) is Some,
        is_inside(side, rect, a) != is_inside(side, rect, b),
    ensures
        ({
            let c = crossing(side, rect, a, b, lerp);
            &&& place(c.x) is Some && place(c.y) is Some
            &&& is_inside(side, rect, c)
            &&& lies_between(a.x, c.x, b.x)
            &&& lies_between(a.y, c.y, b.y)
        }),
{
    let (ma, mb) = (mirrored(a), mirrored(b));
    match side {
        Side::West => {
            assert(lies_between(a.x, rect.min_x, b.x));
            assert(lies_between(a.y, value_of(lerp, (a, b, rect.min_x)), b.y));
        },
        Side::East => {
            assert(lies_between(a.x, rect.max_x, b.x));
            assert(lies_between(a.y, value_of(lerp, (a, b, rect.max_x)), b.y));
        },
        Side::North => {
            assert(lies_between(ma.x, rect.min_y, mb.x));
            assert(lies_between(ma.y, value_of(lerp, (ma, mb, rect.min_y)), mb.y));
        },
        Side::South => {
            assert(lies_between(ma.x, rect.max_y, mb.x));
            assert(lies_between(ma.y, value_of(lerp, (ma, mb, rect.max_y)), mb.y));
        },
    }
}

proof fn lemma_between_is_inside(side: Side, rect: Rect, a: Coord, c: Coord, b: Coord)
    requires
        is_inside(side, rect, a),
        is_inside(side, rect, b),
        lies_between(a.x, c.x, b.x),
        lies_between(a.y, c.y, b.y),
    ensures
        is_inside(side, rect, c),
{
}

proof fn lemma_crossing_stays<
    L: Fn((Coord, Coord, u64)) -> u64,
>(
    side: Side,
    other: Side,
    rect: Rect,
    a: Coord,
    b: Coord,
    lerp: L,
)
    requires
        is_upright(rect),
        stays_between(lerp),
        place(a.x) is Some && place(a.y) is Some && place(b.x) is Some && place(b.y) is Some,
        is_inside(other, rect, a),
        is_inside(other, rect, b),
        is_inside(side, rect, a) != is_inside(side, rect, b),
    ensures
        ({
            let c = crossing(side, rect, a, b, lerp);
            &&& place(c.x) is Some && place(c.y) is Some
            &&& is_inside(other, rect, c)
            &&& is_inside(side, rect, c)
        }),
{
    lemma_crossing_numbers(side, rect, a, b, lerp);
    lemma_between_is_inside(other, rect, a, crossing(side, rect, a, b, lerp), b);
}

/// Clipping against one side leaves a ring on the inner side of it, and on
/// that of any other side where it was before.
proof fn lemma_side_keeps<
    L: Fn((Coord, Coord, u64)) -> u64,
>(
    ring: Seq<Coord>,
    side: Side,
    other: Side,
    rect: Rect,
    lerp: L,
    k: int,
)
    requires
        is_upright(rect),
        stays_between(lerp),
        all_numbers(ring),
        side != other ==> all_inside(ring, other, rect),
        0 <= k <= ring.len(),
    ensures
        all_numbers(ring_out(ring, side, rect, lerp, k)),
        all_inside(ring_out(ring, side, rect, lerp, k), other, rect),
    decreases k,
{
    if k > 0 {
        lemma_side_keeps(ring, side, other, rect, lerp, k - 1);
        let cur = ring[k - 1];
        let prev = if k == 1 {
            ring[ring.len() - 1]
        } else {
            ring[k - 2]
        };
        let init = ring_out(ring, side, rect, lerp, k - 1);
        let more = vertex_out(side, rect, prev, cur, lerp);
        let out = ring_out(ring, side, rect, lerp, k);
        if is_inside(side, rect, prev) != is_inside(side, rect, cur) {
            if side != other {
                lemma_crossing_stays(side, other, rect, prev, cur, lerp);
            } else {
                lemma_crossing_numbers(side, rect, prev, cur, lerp);
            }
        }
        assert forall|i: int| 0 <= i < out.len() implies place((#[trigger] out[i]).x) is Some
            && place(out[i].y) is Some && is_inside(other, rect, out[i]) by {
            if i < init.len() {
                assert(out[i] == init[i]);
            } else {
                assert(out[i] == more[i - init.len()]);
            }
        }
    }
}

/// All that is left of a ring lies in the rectangle, if `lerp` stays between
/// the coordinates that it is given.
pub proof fn law_clipped_ring_lies_in_rect<
    L: Fn((Coord, Coord, u64)) -> u64,
>(
    ring: Seq<Coord>,
    rect: Rect,
    lerp: L,
)
    requires
        is_upright(rect),
        stays_between(lerp),
        all_numbers(ring),
    ensures
        line_inside(ring_in(ring, rect, lerp), rect),
{
    let r1 = ring_out(ring, Side::West, rect, lerp, ring.len() as int);
    let r2 = ring_out(r1, Side::East, rect, lerp, r1.len() as int);
    let r3 = ring_out(r2, Side::North, rect, lerp, r2.len() as int);
    let r4 = ring_in(ring, rect, lerp);
    lemma_side_keeps(ring, Side::West, Side::West, rect, lerp, ring.len() as int);
    lemma_side_keeps(r1, Side::East, Side::West, rect, lerp, r1.len() as int);
    lemma_side_keeps(r1, Side::East, Side::East, rect, lerp, r1.len() as int);
    lemma_side_keeps(r2, Side::North, Side::West, rect, lerp, r2.len() as int);
    lemma_side_keeps(r2, Side::North, Side::East, rect, lerp, r2.len() as int);
    lemma_side_keeps(r2, Side::North, Side::North, rect, lerp, r2.len() as int);
    lemma_side_keeps(r3, Side::South, Side::West, rect, lerp, r3.len() as int);
    lemma_side_keeps(r3, Side::South, Side::East, rect, lerp, r3.len() as int);
    lemma_side_keeps(r3, Side::South, Side::North, rect, lerp, r3.len() as int);
    lemma_side_keeps(r3, Side::South, Side::South, rect, lerp, r3.len() as int);
    assert forall|i: int| 0 <= i < r4.len() implies rect.holds((#[trigger] r4[i]).x, r4[i].y) by {
        assert(is_inside(Side::West, rect, r4[i]) && is_inside(Side::East, rect, r4[i]));
        assert(is_inside(Side::North, rect, r4[i]) && is_inside(Side::South, rect, r4[i]));
    }
}

// ---- what is left lies in the rectangle, and what lies in it is left ----------

/// Along a segment, the parameters that the edges allow are those of places
/// in the rectangle.
pub open spec fn stays_inside<
    E: Fn((Coord, Coord, Rect)) -> Edges,
    T: Fn((Coord, Coord, u64)) -> Coord,
>(rect: Rect, edges: E, along: T) -> bool {
    forall|a: Coord, b: Coord|
        {
            let e = #[trigger] value_of(edges, (a, b, rect));
            &&& has_crossings(e)
            &&& is_allowed(e, 0) ==> rect.holds(a.x, a.y)
            &&& is_allowed(e, 0x3ff0_0000_0000_0000) ==> rect.holds(b.x, b.y)
            &&& forall|t: u64| #[trigger]
                is_allowed(e, t) ==> rect.holds(
                    value_of(along, (a, b, t)).x,
                    value_of(along, (a, b, t)).y,
                )
        }
}

proof fn lemma_segment_inside<
    E: Fn((Coord, Coord, Rect)) -> Edges,
    T: Fn((Coord, Coord, u64)) -> Coord,
>(
    a: Coord,
    b: Coord,
    rect: Rect,
    edges: E,
    along: T,
)
    requires
        stays_inside(rect, edges, along),
    ensures
        segment_in(a, b, rect, edges, along) matches Some((from, to)) ==> rect.holds(from.x, from.y)
            && rect.holds(to.x, to.y),
{
    let e = value_of(edges, (a, b, rect));
    if let Some((t0, t1)) = segment_span(e) {
        law_span_is_what_the_edges_allow(e, t0);
        assert(is_allowed(e, t0) && is_allowed(e, t1));
    }
}

/// All coordinates of all lines lie in the rectangle.
pub open spec fn lines_inside(lines: Seq<Seq<Coord>>, rect: Rect) -> bool {
    forall|i: int| 0 <= i < lines.len() ==> line_inside(#[trigger] lines[i], rect)
}

proof fn lemma_walk_lies_inside<
    E: Fn((Coord, Coord, Rect)) -> Edges,
    T: Fn((Coord, Coord, u64)) -> Coord,
>(
    line: Seq<Coord>,
    rect: Rect,
    edges: E,
    along: T,
    k: int,
)
    requires
        stays_inside(rect, edges, along),
    ensures
        lines_inside(walk_of(line, rect, edges, along, k).parts, rect),
        line_inside(walk_of(line, rect, edges, along, k).cur, rect),
    decreases k,
{
    if k > 0 {
        lemma_walk_lies_inside(line, rect, edges, along, k - 1);
        lemma_segment_inside(line[k - 1], line[k], rect, edges, along);
    }
}

proof fn lemma_chained_inside(lines: Seq<Seq<Coord>>, rect: Rect)
    requires
        lines_inside(lines, rect),
    ensures
        line_inside(chained(lines), rect),
    decreases lines.len(),
{
    if lines.len() > 0 {
        let init = lines.drop_last();
        assert forall|i: int| 0 <= i < init.len() implies line_inside(
            #[trigger] init[i],
            rect,
        ) by {
            assert(init[i] == lines[i]);
        }
        lemma_chained_inside(init, rect);
        assert(line_inside(lines[lines.len() - 1], rect));
    }
}

proof fn lemma_lines_inside<
    E: Fn((Coord, Coord, Rect)) -> Edges,
    T: Fn((Coord, Coord, u64)) -> Coord,
>(
    lines: Seq<Seq<Coord>>,
    rect: Rect,
    edges: E,
    along: T,
)
    requires
        stays_inside(rect, edges, along),
    ensures
        lines_inside(lines_parts(lines, rect, edges, along), rect),
    decreases lines.len(),
{
    if lines.len() > 0 {
        lemma_lines_inside(lines.drop_last(), rect, edges, along);
        let line = lines.last();
        lemma_walk_lies_inside(line, rect, edges, along, line.len() - 1);
    }
}

/// All coordinates of a polygon are numbers.
pub open spec fn polygon_numbers(p: PolygonModel) -> bool {
    all_numbers(p.exterior) && forall|i: int|
        0 <= i < p.interiors.len() ==> all_numbers(#[trigger] p.interiors[i])
}

/// A geometry of the kinds that are clipped, and polygons of numbers.
pub open spec fn is_clippable(g: GeometryModel) -> bool
    decreases g,
{
    match g {
        GeometryModel::Polygon(p) => polygon_numbers(p),
        GeometryModel::MultiPolygon(ps) => forall|i: int|
            0 <= i < ps.len() ==> polygon_numbers(#[trigger] ps[i]),
        GeometryModel::GeometryCollection(gs) => all_clippable(gs),
        GeometryModel::Line(_, _) => false,
        GeometryModel::Rect(_, _) => false,
        GeometryModel::Triangle(_, _, _) => false,
        _ => true,
    }
}

/// All geometries are clippable.
pub open spec fn all_clippable(gs: Seq<GeometryModel>) -> bool
    decreases gs,
{
    gs.len() > 0 ==> all_clippable(gs.drop_last()) && is_clippable(gs.last())
}

proof fn lemma_ring_lies_inside<
    L: Fn((Coord, Coord, u64)) -> u64,
>(
    ring: Seq<Coord>,
    rect: Rect,
    lerp: L,
)
    requires
        is_upright(rect),
        stays_between(lerp),
        all_numbers(ring),
    ensures
        clipped_ring(ring, rect, lerp) matches Some(r) ==> line_inside(closed(r), rect),
{
    let open = opened_ring(ring);
    assert forall|i: int| 0 <= i < open.len() implies place((#[trigger] open[i]).x) is Some
        && place(open[i].y) is Some by {
        assert(open[i] == ring[i]);
    }
    law_clipped_ring_lies_in_rect(open, rect, lerp);
    let left = ring_in(open, rect, lerp);
    if left.len() > 0 {
        assert(rect.holds(left[0].x, left[0].y));
    }
}

proof fn lemma_rings_lie_inside<
    L: Fn((Coord, Coord, u64)) -> u64,
>(
    rings: Seq<Seq<Coord>>,
    rect: Rect,
    lerp: L,
)
    requires
        is_upright(rect),
        stays_between(lerp),
        forall|i: int| 0 <= i < rings.len() ==> all_numbers(#[trigger] rings[i]),
    ensures
        forall|i: int|
            0 <= i < clipped_rings(rings, rect, lerp).len() ==> line_inside(
                closed(#[trigger] clipped_rings(rings, rect, lerp)[i]),
                rect,
            ),
    decreases rings.len(),
{
    if rings.len() > 0 {
        let init = rings.drop_last();
        assert forall|i: int| 0 <= i < init.len() implies all_numbers(#[trigger] init[i]) by {
            assert(init[i] == rings[i]);
        }
        lemma_rings_lie_inside(init, rect, lerp);
        assert(all_numbers(rings[rings.len() - 1]));
        lemma_ring_lies_inside(rings.last(), rect, lerp);
        let before = clipped_rings(init, rect, lerp);
        let all = clipped_rings(rings, rect, lerp);
        assert forall|i: int| 0 <= i < all.len() implies line_inside(
            closed(#[trigger] all[i]),
            rect,
        ) by {
            if i < before.len() {
                assert(all[i] == before[i]);
            }
        }
    }
}

proof fn lemma_polygon_lies_inside<
    L: Fn((Coord, Coord, u64)) -> u64,
>(
    p: PolygonModel,
    rect: Rect,
    lerp: L,
)
    requires
        is_upright(rect),
        stays_between(lerp),
        polygon_numbers(p),
    ensures
        clipped_polygon(p, rect, lerp) matches Some(q) ==> line_inside(polygon_coords(q), rect),
{
    lemma_ring_lies_inside(p.exterior, rect, lerp);
    lemma_rings_lie_inside(p.interiors, rect, lerp);
    if let Some(q) = clipped_polygon(p, rect, lerp) {
        let rings = clipped_rings(p.interiors, rect, lerp);
        assert forall|i: int| 0 <= i < q.interiors.len() implies line_inside(
            #[trigger] q.interiors[i],
            rect,
        ) by {
            assert(q.interiors[i] == closed(rings[i]));
        }
        lemma_chained_inside(q.interiors, rect);
    }
}

proof fn lemma_polygons_lie_inside<
    L: Fn((Coord, Coord, u64)) -> u64,
>(
    ps: Seq<PolygonModel>,
    rect: Rect,
    lerp: L,
)
    requires
        is_upright(rect),
        stays_between(lerp),
        forall|i: int| 0 <= i < ps.len() ==> polygon_numbers(#[trigger] ps[i]),
    ensures
        line_inside(polygons_coords(clipped_polygons(ps, rect, lerp)), rect),
    decreases ps.len(),
{
    if ps.len() > 0 {
        let init = ps.drop_last();
        assert forall|i: int| 0 <= i < init.len() implies polygon_numbers(#[trigger] init[i]) by {
            assert(init[i] == ps[i]);
        }
        lemma_polygons_lie_inside(init, rect, lerp);
        assert(polygon_numbers(ps[ps.len() - 1]));
        lemma_polygon_lies_inside(ps.last(), rect, lerp);
        let before = clipped_polygons(init, rect, lerp);
        if let Some(q) = clipped_polygon(ps.last(), rect, lerp) {
            assert(before.push(q).drop_last() =~= before);
        }
    }
}

proof fn lemma_all_lie_inside<
    E: Fn((Coord, Coord, Rect)) -> Edges,
    T: Fn((Coord, Coord, u64)) -> Coord,
    L: Fn((Coord, Coord, u64)) -> u64,
>(
    gs: Seq<GeometryModel>,
    rect: Rect,
    edges: E,
    along: T,
    lerp: L,
)
    requires
        is_upright(rect),
        stays_inside(rect, edges, along),
        stays_between(lerp),
        all_clippable(gs),
    ensures
        line_inside(geometries_coords(clipped_all(gs, rect, edges, along, lerp)), rect),
    decreases gs,
{
    if gs.len() > 0 {
        let init = gs.drop_last();
        lemma_all_lie_inside(init, rect, edges, along, lerp);
        law_clipped_lies_in_rect(gs.last(), rect, edges, along, lerp);
        let before = clipped_all(init, rect, edges, along, lerp);
        if let Some(c) = clipped(gs.last(), rect, edges, along, lerp) {
            assert(before.push(c).drop_last() =~= before);
        }
    }
}

/// All that clipping leaves of a geometry lies in the rectangle, if the
/// arithmetic on coordinates stays where it should.
pub proof fn law_clipped_lies_in_rect<
    E: Fn((Coord, Coord, Rect)) -> Edges,
    T: Fn((Coord, Coord, u64)) -> Coord,
    L: Fn((Coord, Coord, u64)) -> u64,
>(
    g: GeometryModel,
    rect: Rect,
    edges: E,
    along: T,
    lerp: L,
)
    requires
        is_upright(rect),
        stays_inside(rect, edges, along),
        stays_between(lerp),
        is_clippable(g),
    ensures
        clipped(g, rect, edges, along, lerp) matches Some(c) ==> line_inside(
            geometry_coords(c),
            rect,
        ),
    decreases g,
{
    match g {
        GeometryModel::MultiPoint(s) => {
            law_clipped_points_are_inside(s, rect);
        },
        GeometryModel::LineString(line) => {
            lemma_walk_lies_inside(line, rect, edges, along, line.len() - 1);
            let parts = line_parts(line, rect, edges, along);
            assert(lines_inside(parts, rect));
            lemma_chained_inside(parts, rect);
        },
        GeometryModel::MultiLineString(lines) => {
            lemma_lines_inside(lines, rect, edges, along);
            lemma_chained_inside(lines_parts(lines, rect, edges, along), rect);
        },
        GeometryModel::Polygon(p) => {
            lemma_polygon_lies_inside(p, rect, lerp);
        },
        GeometryModel::MultiPolygon(ps) => {
            lemma_polygons_lie_inside(ps, rect, lerp);
        },
        GeometryModel::GeometryCollection(gs) => {
            lemma_all_lie_inside(gs, rect, edges, along, lerp);
        },
        _ => {},
    }
}

/// A closed ring with nothing repeated at its seam but the closing coordinate.
pub open spec fn is_seamless(ring: Seq<Coord>) -> bool {
    &&& ring.len() >= 4
    &&& ring[0] == ring[ring.len() - 1]
    &&& !coord_eq(ring[0], ring[ring.len() - 2])
}

/// All rings of a polygon are closed without a repeated seam.
pub open spec fn is_seamless_polygon(p: PolygonModel) -> bool {
    is_seamless(p.exterior) && forall|i: int|
        0 <= i < p.interiors.len() ==> is_seamless(#[trigger] p.interiors[i])
}

/// A geometry with nothing degenerate in it that clipping would mend.
pub open spec fn is_sound(g: GeometryModel) -> bool
    decreases g,
{
    match g {
        GeometryModel::MultiPoint(s) => s.len() > 0,
        GeometryModel::LineString(line) => line.len() >= 2,
        GeometryModel::MultiLineString(lines) => lines.len() > 0 && forall|i: int|
            0 <= i < lines.len() ==> (#[trigger] lines[i]).len() >= 2,
        GeometryModel::Polygon(p) => is_seamless_polygon(p),
        GeometryModel::MultiPolygon(ps) => ps.len() > 0 && forall|i: int|
            0 <= i < ps.len() ==> is_seamless_polygon(#[trigger] ps[i]),
        GeometryModel::GeometryCollection(gs) => gs.len() > 0 && all_sound(gs),
        _ => true,
    }
}

/// All geometries are sound.
pub open spec fn all_sound(gs: Seq<GeometryModel>) -> bool
    decreases gs,
{
    gs.len() > 0 ==> all_sound(gs.drop_last()) && is_sound(gs.last())
}

proof fn lemma_inside_split(a: Seq<Coord>, b: Seq<Coord>, rect: Rect)
    requires
        line_inside(a + b, rect),
    ensures
        line_inside(a, rect),
        line_inside(b, rect),
{
    assert forall|i: int| 0 <= i < a.len() implies rect.holds((#[trigger] a[i]).x, a[i].y) by {
        assert((a + b)[i] == a[i]);
    }
    assert forall|i: int| 0 <= i < b.len() implies rect.holds((#[trigger] b[i]).x, b[i].y) by {
        assert((a + b)[a.len() + i] == b[i]);
    }
}

proof fn lemma_points_all_in(points: Seq<Coord>, rect: Rect)
    requires
        line_inside(points, rect),
    ensures
        points_in(points, rect) == points,
    decreases points.len(),
{
    if points.len() > 0 {
        let init = points.drop_last();
        assert(init + seq![points.last()] =~= points);
        lemma_inside_split(init, seq![points.last()], rect);
        lemma_points_all_in(init, rect);
        assert(rect.holds(points[points.len() - 1].x, points[points.len() - 1].y));
        assert(init.push(points.last()) =~= points);
    } else {
        assert(points_in(points, rect) =~= points);
    }
}

proof fn lemma_lines_all_in<
    E: Fn((Coord, Coord, Rect)) -> Edges,
    T: Fn((Coord, Coord, u64)) -> Coord,
>(
    lines: Seq<Seq<Coord>>,
    rect: Rect,
    edges: E,
    along: T,
)
    requires
        forall|i: int| 0 <= i < lines.len() ==> (#[trigger] lines[i]).len() >= 2,
        line_inside(chained(lines), rect),
    ensures
        lines_parts(lines, rect, edges, along) == lines,
    decreases lines.len(),
{
    if lines.len() > 0 {
        let init = lines.drop_last();
        lemma_inside_split(chained(init), lines.last(), rect);
        lemma_lines_all_in(init, rect, edges, along);
        assert(lines[lines.len() - 1].len() >= 2);
        law_line_in_rect_is_one_part(lines.last(), rect, edges, along);
        assert(init + seq![lines.last()] =~= lines);
    } else {
        assert(lines_parts(lines, rect, edges, along) =~= lines);
    }
}

proof fn lemma_rings_all_in<
    L: Fn((Coord, Coord, u64)) -> u64,
>(
    rings: Seq<Seq<Coord>>,
    rect: Rect,
    lerp: L,
)
    requires
        forall|i: int| 0 <= i < rings.len() ==> is_seamless(#[trigger] rings[i]),
        line_inside(chained(rings), rect),
    ensures
        clipped_rings(rings, rect, lerp) == rings,
        forall|i: int| 0 <= i < rings.len() ==> closed(#[trigger] rings[i]) == rings[i],
    decreases rings.len(),
{
    if rings.len() > 0 {
        let init = rings.drop_last();
        let ring = rings.last();
        lemma_inside_split(chained(init), ring, rect);
        lemma_rings_all_in(init, rect, lerp);
        assert(is_seamless(rings[rings.len() - 1]));
        law_closed_ring_in_rect_is_unchanged(ring, rect, lerp);
        assert(rect.holds(ring[0].x, ring[0].y));
        assert(init.push(ring) =~= rings);
        assert forall|i: int| 0 <= i < rings.len() implies closed(#[trigger] rings[i])
            == rings[i] by {
            if i < init.len() {
                assert(rings[i] == init[i]);
            }
        }
    } else {
        assert(clipped_rings(rings, rect, lerp) =~= rings);
    }
}

proof fn lemma_polygon_all_in<
    L: Fn((Coord, Coord, u64)) -> u64,
>(
    p: PolygonModel,
    rect: Rect,
    lerp: L,
)
    requires
        is_seamless_polygon(p),
        line_inside(polygon_coords(p), rect),
    ensures
        clipped_polygon(p, rect, lerp) == Some(p),
{
    lemma_inside_split(p.exterior, chained(p.interiors), rect);
    law_closed_ring_in_rect_is_unchanged(p.exterior, rect, lerp);
    assert(rect.holds(p.exterior[0].x, p.exterior[0].y));
    lemma_rings_all_in(p.interiors, rect, lerp);
    assert(clipped_polygon(p, rect, lerp)->0.interiors =~= p.interiors);
}

proof fn lemma_polygons_all_in<
    L: Fn((Coord, Coord, u64)) -> u64,
>(
    ps: Seq<PolygonModel>,
    rect: Rect,
    lerp: L,
)
    requires
        forall|i: int| 0 <= i < ps.len() ==> is_seamless_polygon(#[trigger] ps[i]),
        line_inside(polygons_coords(ps), rect),
    ensures
        clipped_polygons(ps, rect, lerp) == ps,
    decreases ps.len(),
{
    if ps.len() > 0 {
        let init = ps.drop_last();
        lemma_inside_split(polygons_coords(init), polygon_coords(ps.last()), rect);
        lemma_polygons_all_in(init, rect, lerp);
        assert(is_seamless_polygon(ps[ps.len() - 1]));
        lemma_polygon_all_in(ps.last(), rect, lerp);
        assert(init.push(ps.last()) =~= ps);
    } else {
        assert(clipped_polygons(ps, rect, lerp) =~= ps);
    }
}

proof fn lemma_all_in<
    E: Fn((Coord, Coord, Rect)) -> Edges,
    T: Fn((Coord, Coord, u64)) -> Coord,
    L: Fn((Coord, Coord, u64)) -> u64,
>(
    gs: Seq<GeometryModel>,
    rect: Rect,
    edges: E,
    along: T,
    lerp: L,
)
    requires
        all_sound(gs),
        line_inside(geometries_coords(gs), rect),
    ensures
        clipped_all(gs, rect, edges, along, lerp) == gs,
    decreases gs,
{
    if gs.len() > 0 {
        let init = gs.drop_last();
        lemma_inside_split(geometries_coords(init), geometry_coords(gs.last()), rect);
        lemma_all_in(init, rect, edges, along, lerp);
        law_geometry_in_rect_is_unchanged(gs.last(), rect, edges, along, lerp);
        assert(init.push(gs.last()) =~= gs);
    } else {
        assert(clipped_all(gs, rect, edges, along, lerp) =~= gs);
    }
}

/// A geometry of any kind that lies in the rectangle comes back as it is, with
/// all its parts and holes, whatever the arithmetic.
pub proof fn law_geometry_in_rect_is_unchanged<
    E: Fn((Coord, Coord, Rect)) -> Edges,
    T: Fn((Coord, Coord, u64)) -> Coord,
    L: Fn((Coord, Coord, u64)) -> u64,
>(
    g: GeometryModel,
    rect: Rect,
    edges: E,
    along: T,
    lerp: L,
)
    requires
        is_sound(g),
        line_inside(geometry_coords(g), rect),
    ensures
        clipped(g, rect, edges, along, lerp) == Some(g),
    decreases g,
{
    match g {
        GeometryModel::Point(c) => {
            assert(geometry_coords(g)[0] == c);
        },
        GeometryModel::MultiPoint(s) => {
            lemma_points_all_in(s, rect);
        },
        GeometryModel::LineString(line) => {
            law_line_in_rect_is_one_part(line, rect, edges, along);
        },
        GeometryModel::MultiLineString(lines) => {
            lemma_lines_all_in(lines, rect, edges, along);
        },
        GeometryModel::Polygon(p) => {
            lemma_polygon_all_in(p, rect, lerp);
        },
        GeometryModel::MultiPolygon(ps) => {
            lemma_polygons_all_in(ps, rect, lerp);
        },
        GeometryModel::GeometryCollection(gs) => {
            lemma_all_in(gs, rect, edges, along, lerp);
        },
        _ => {},
    }
}

/// Shapes that no layer holds are not clipped.
pub proof fn law_other_shapes_stay<
    E: Fn((Coord, Coord, Rect)) -> Edges,
    T: Fn((Coord, Coord, u64)) -> Coord,
    L: Fn((Coord, Coord, u64)) -> u64,
>(
    g: GeometryModel,
    rect: Rect,
    edges: E,
    along: T,
    lerp: L,
)
    requires
        g is Line || g is Rect || g is Triangle,
    ensures
        clipped(g, rect, edges, along, lerp) == Some(g),
{
}

} // verus!
