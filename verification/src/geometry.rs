//! Planar geometries.
//!
//! Coordinates are double-precision numbers, held as their IEEE 754 bit
//! patterns: the library moves, compares and counts them, and leaves the
//! arithmetic on them to functions that its callers hand in.

use crate::function::{is_function, value_of};
use vstd::prelude::*;
use vstd::slice::slice_to_vec;

verus! {

/// A coordinate pair, each number as its bit pattern.
#[derive(Debug, Clone, Copy, PartialEq, Eq, Structural)]
pub struct Coord {
    pub x: u64,
    pub y: u64,
}

/// The place of a double-precision number among all of them, by its bit
/// pattern: the patterns of one sign ascend with their magnitude, and both
/// zeros share one place. `None` for the patterns that are not a number.
pub open spec fn place(bits: u64) -> Option<int> {
    let magnitude = if bits < 0x8000_0000_0000_0000 {
        bits as int
    } else {
        bits - 0x8000_0000_0000_0000
    };
    if magnitude > 0x7ff0_0000_0000_0000 {
        None
    } else if bits < 0x8000_0000_0000_0000 {
        Some(magnitude)
    } else {
        Some(-magnitude)
    }
}

/// `a == b` as numbers.
pub open spec fn num_eq(a: u64, b: u64) -> bool {
    match (place(a), place(b)) {
        (Some(p), Some(q)) => p == q,
        _ => false,
    }
}

/// `a < b` as numbers.
pub open spec fn num_lt(a: u64, b: u64) -> bool {
    match (place(a), place(b)) {
        (Some(p), Some(q)) => p < q,
        _ => false,
    }
}

/// `a <= b` as numbers.
pub open spec fn num_le(a: u64, b: u64) -> bool {
    num_lt(a, b) || num_eq(a, b)
}

/// Both numbers of the pairs are equal.
pub open spec fn coord_eq(a: Coord, b: Coord) -> bool {
    num_eq(a.x, b.x) && num_eq(a.y, b.y)
}

fn place_of(bits: u64) -> (r: Option<i64>)
    ensures
        match r {
            Some(p) => place(bits) == Some(p as int),
            None => place(bits) is None,
        },
{
    if bits < 0x8000_0000_0000_0000 {
        if bits > 0x7ff0_0000_0000_0000 {
            None
        } else {
            Some(bits as i64)
        }
    } else {
        let magnitude: u64 = bits - 0x8000_0000_0000_0000;
        if magnitude > 0x7ff0_0000_0000_0000 {
            None
        } else {
            Some(-(magnitude as i64))
        }
    }
}

/// Whether two bit patterns are equal as numbers.
pub fn numbers_eq(a: u64, b: u64) -> (r: bool)
    ensures
        r == num_eq(a, b),
{
    match (place_of(a), place_of(b)) {
        (Some(p), Some(q)) => p == q,
        _ => false,
    }
}

/// Whether one bit pattern is less than another as numbers.
pub fn numbers_lt(a: u64, b: u64) -> (r: bool)
    ensures
        r == num_lt(a, b),
{
    match (place_of(a), place_of(b)) {
        (Some(p), Some(q)) => p < q,
        _ => false,
    }
}

/// Whether one bit pattern is at most another as numbers.
pub fn numbers_le(a: u64, b: u64) -> (r: bool)
    ensures
        r == num_le(a, b),
{
    match (place_of(a), place_of(b)) {
        (Some(p), Some(q)) => p <= q,
        _ => false,
    }
}

/// Whether two pairs are equal as numbers.
pub fn coords_eq(a: Coord, b: Coord) -> (r: bool)
    ensures
        r == coord_eq(a, b),
{
    numbers_eq(a.x, b.x) && numbers_eq(a.y, b.y)
}

/// A polygon: an exterior ring and interior rings.
#[derive(Debug, Clone, PartialEq)]
pub struct Polygon {
    pub exterior: Vec<Coord>,
    pub interiors: Vec<Vec<Coord>>,
}

/// A geometry of any kind.
#[derive(Debug, PartialEq)]
pub enum Geometry {
    Point(Coord),
    MultiPoint(Vec<Coord>),
    Line(Coord, Coord),
    LineString(Vec<Coord>),
    MultiLineString(Vec<Vec<Coord>>),
    Polygon(Polygon),
    MultiPolygon(Vec<Polygon>),
    GeometryCollection(Vec<Geometry>),
    /// Two opposite corners.
    Rect(Coord, Coord),
    Triangle(Coord, Coord, Coord),
}

/// A polygon as a mathematical value.
#[verifier::ext_equal]
pub struct PolygonModel {
    pub exterior: Seq<Coord>,
    pub interiors: Seq<Seq<Coord>>,
}

/// A geometry as a mathematical value.
#[verifier::ext_equal]
pub enum GeometryModel {
    Point(Coord),
    MultiPoint(Seq<Coord>),
    Line(Coord, Coord),
    LineString(Seq<Coord>),
    MultiLineString(Seq<Seq<Coord>>),
    Polygon(PolygonModel),
    MultiPolygon(Seq<PolygonModel>),
    GeometryCollection(Seq<GeometryModel>),
    Rect(Coord, Coord),
    Triangle(Coord, Coord, Coord),
}

/// Lines as mathematical values.
pub open spec fn lines_of(lines: Seq<Vec<Coord>>) -> Seq<Seq<Coord>> {
    Seq::new(lines.len(), |i: int| lines[i]@)
}

impl View for Polygon {
    type V = PolygonModel;

    open spec fn view(&self) -> PolygonModel {
        PolygonModel { exterior: self.exterior@, interiors: lines_of(self.interiors@) }
    }
}

/// Polygons as mathematical values.
pub open spec fn polygons_of(polygons: Seq<Polygon>) -> Seq<PolygonModel> {
    Seq::new(polygons.len(), |i: int| polygons[i]@)
}

/// A geometry as a mathematical value.
pub open spec fn geometry_model(g: Geometry) -> GeometryModel
    decreases g,
{
    match g {
        Geometry::Point(c) => GeometryModel::Point(c),
        Geometry::MultiPoint(v) => GeometryModel::MultiPoint(v@),
        Geometry::Line(a, b) => GeometryModel::Line(a, b),
        Geometry::LineString(v) => GeometryModel::LineString(v@),
        Geometry::MultiLineString(v) => GeometryModel::MultiLineString(lines_of(v@)),
        Geometry::Polygon(p) => GeometryModel::Polygon(p@),
        Geometry::MultiPolygon(v) => GeometryModel::MultiPolygon(polygons_of(v@)),
        Geometry::GeometryCollection(v) => GeometryModel::GeometryCollection(
            Seq::new(
                v@.len(),
                |i: int|
                    if 0 <= i < v@.len() {
                        geometry_model(v@[i])
                    } else {
                        arbitrary()
                    },
            ),
        ),
        Geometry::Rect(a, b) => GeometryModel::Rect(a, b),
        Geometry::Triangle(a, b, c) => GeometryModel::Triangle(a, b, c),
    }
}

impl View for Geometry {
    type V = GeometryModel;

    open spec fn view(&self) -> GeometryModel {
        geometry_model(*self)
    }
}

/// Geometries as mathematical values.
pub open spec fn geometries_of(gs: Seq<Geometry>) -> Seq<GeometryModel> {
    Seq::new(gs.len(), |i: int| gs[i]@)
}

/// Lines one after the other.
pub open spec fn chained(lines: Seq<Seq<Coord>>) -> Seq<Coord>
    decreases lines.len(),
{
    if lines.len() == 0 {
        Seq::empty()
    } else {
        chained(lines.drop_last()) + lines.last()
    }
}

/// The coordinates of a polygon: the exterior ring, then the interior ones.
pub open spec fn polygon_coords(p: PolygonModel) -> Seq<Coord> {
    p.exterior + chained(p.interiors)
}

/// The coordinates of polygons, one after the other.
pub open spec fn polygons_coords(ps: Seq<PolygonModel>) -> Seq<Coord>
    decreases ps.len(),
{
    if ps.len() == 0 {
        Seq::empty()
    } else {
        polygons_coords(ps.drop_last()) + polygon_coords(ps.last())
    }
}

/// The coordinates of a geometry in traversal order: parts in order, the
/// exterior ring of a polygon before its interior rings. Rectangles and
/// triangles, which no layer holds, are not traversed.
pub open spec fn geometry_coords(g: GeometryModel) -> Seq<Coord>
    decreases g,
{
    match g {
        GeometryModel::Point(c) => seq![c],
        GeometryModel::MultiPoint(s) => s,
        GeometryModel::Line(a, b) => seq![a, b],
        GeometryModel::LineString(s) => s,
        GeometryModel::MultiLineString(ls) => chained(ls),
        GeometryModel::Polygon(p) => polygon_coords(p),
        GeometryModel::MultiPolygon(ps) => polygons_coords(ps),
        GeometryModel::GeometryCollection(gs) => geometries_coords(gs),
        GeometryModel::Rect(_, _) => Seq::empty(),
        GeometryModel::Triangle(_, _, _) => Seq::empty(),
    }
}

/// The coordinates of geometries, one after the other.
pub open spec fn geometries_coords(gs: Seq<GeometryModel>) -> Seq<Coord>
    decreases gs,
{
    if gs.len() == 0 {
        Seq::empty()
    } else {
        geometries_coords(gs.drop_last()) + geometry_coords(gs.last())
    }
}

/// A ring with its first coordinate repeated at the end, unless both are
/// equal already. An empty ring stays as it is.
pub open spec fn closed(ring: Seq<Coord>) -> Seq<Coord> {
    if ring.len() > 0 && !coord_eq(ring.first(), ring.last()) {
        ring.push(ring.first())
    } else {
        ring
    }
}

/// A polygon of closed rings.
pub open spec fn closed_polygon(exterior: Seq<Coord>, interiors: Seq<Seq<Coord>>) -> PolygonModel {
    PolygonModel {
        exterior: closed(exterior),
        interiors: interiors.map_values(|r: Seq<Coord>| closed(r)),
    }
}

/// Closes a ring.
pub fn close(ring: Vec<Coord>) -> (r: Vec<Coord>)
    ensures
        r@ == closed(ring@),
{
    let mut ring: Vec<Coord> = ring;
    let n: usize = ring.len();
    if n > 0 && !coords_eq(ring[0], ring[n - 1]) {
        let first: Coord = ring[0];
        ring.push(first);
    }
    ring
}

impl Polygon {
    /// A polygon from its rings, which are closed if they are not.
    pub fn new(exterior: Vec<Coord>, interiors: Vec<Vec<Coord>>) -> (p: Polygon)
        ensures
            p@ == closed_polygon(exterior@, lines_of(interiors@)),
    {
        let n: usize = interiors.len();
        let mut rings: Vec<Vec<Coord>> = Vec::new();
        let mut i: usize = 0;
        while i < n
            invariant
                i <= n,
                n == interiors@.len(),
                rings@.len() == i,
                forall|j: int| 0 <= j < i ==> (#[trigger] rings@[j])@ == closed(interiors@[j]@),
            decreases n - i,
        {
            rings.push(close(copy_line(&interiors[i])));
            i = i + 1;
        }
        let p: Polygon = Polygon { exterior: close(exterior), interiors: rings };
        assert(p@.interiors =~= closed_polygon(exterior@, lines_of(interiors@)).interiors);
        p
    }
}

/// A copy of a line.
pub fn copy_line(line: &Vec<Coord>) -> (r: Vec<Coord>)
    ensures
        r@ == line@,
{
    slice_to_vec(line.as_slice())
}

/// A copy of some lines.
pub fn copy_lines(lines: &Vec<Vec<Coord>>) -> (r: Vec<Vec<Coord>>)
    ensures
        lines_of(r@) == lines_of(lines@),
{
    let n: usize = lines.len();
    let mut out: Vec<Vec<Coord>> = Vec::new();
    let mut i: usize = 0;
    while i < n
        invariant
            i <= n,
            n == lines@.len(),
            out@.len() == i,
            forall|j: int| 0 <= j < i ==> (#[trigger] out@[j])@ == lines@[j]@,
        decreases n - i,
    {
        out.push(copy_line(&lines[i]));
        i = i + 1;
    }
    assert(lines_of(out@) =~= lines_of(lines@));
    out
}

/// A copy of a polygon.
pub fn copy_polygon(p: &Polygon) -> (r: Polygon)
    ensures
        r@ == p@,
{
    Polygon { exterior: copy_line(&p.exterior), interiors: copy_lines(&p.interiors) }
}

/// A copy of a geometry.
pub fn copy_geometry(g: &Geometry) -> (r: Geometry)
    ensures
        r@ == g@,
    decreases *g,
{
    match g {
        Geometry::Point(c) => Geometry::Point(*c),
        Geometry::MultiPoint(v) => Geometry::MultiPoint(copy_line(v)),
        Geometry::Line(a, b) => Geometry::Line(*a, *b),
        Geometry::LineString(v) => Geometry::LineString(copy_line(v)),
        Geometry::MultiLineString(v) => Geometry::MultiLineString(copy_lines(v)),
        Geometry::Polygon(p) => Geometry::Polygon(copy_polygon(p)),
        Geometry::MultiPolygon(v) => {
            let n: usize = v.len();
            let mut out: Vec<Polygon> = Vec::new();
            let mut i: usize = 0;
            while i < n
                invariant
                    i <= n,
                    n == v@.len(),
                    out@.len() == i,
                    forall|j: int| 0 <= j < i ==> (#[trigger] out@[j])@ == v@[j]@,
                decreases n - i,
            {
                out.push(copy_polygon(&v[i]));
                i = i + 1;
            }
            assert(polygons_of(out@) =~= polygons_of(v@));
            Geometry::MultiPolygon(out)
        },
        Geometry::GeometryCollection(v) => {
            let n: usize = v.len();
            let mut out: Vec<Geometry> = Vec::new();
            let mut i: usize = 0;
            while i < n
                invariant
                    i <= n,
                    n == v@.len(),
                    *g == Geometry::GeometryCollection(*v),
                    out@.len() == i,
                    forall|j: int| 0 <= j < i ==> (#[trigger] out@[j])@ == v@[j]@,
                decreases n - i,
            {
                assert(decreases_to!(*g => g->GeometryCollection_0@[i as int]));
                out.push(copy_geometry(&v[i]));
                i = i + 1;
            }
            let r: Geometry = Geometry::GeometryCollection(out);
            assert(r@->GeometryCollection_0 =~= g@->GeometryCollection_0);
            r
        },
        Geometry::Rect(a, b) => Geometry::Rect(*a, *b),
        Geometry::Triangle(a, b, c) => Geometry::Triangle(*a, *b, *c),
    }
}

/// Appends the coordinates of some lines.
fn collect_lines(lines: &Vec<Vec<Coord>>, out: &mut Vec<Coord>)
    ensures
        final(out)@ == old(out)@ + chained(lines_of(lines@)),
{
    let n: usize = lines.len();
    let ghost models = lines_of(lines@);
    let mut i: usize = 0;
    assert(models.take(0) =~= Seq::<Seq<Coord>>::empty());
    assert(out@ =~= old(out)@ + chained(models.take(0)));
    while i < n
        invariant
            i <= n,
            n == lines@.len(),
            models == lines_of(lines@),
            out@ == old(out)@ + chained(models.take(i as int)),
        decreases n - i,
    {
        out.extend_from_slice(lines[i].as_slice());
        proof {
            let now = models.take(i + 1);
            assert(now.drop_last() =~= models.take(i as int));
            assert(now.last() == lines@[i as int]@);
            assert(out@ =~= old(out)@ + chained(now));
        }
        i = i + 1;
    }
    assert(models.take(n as int) =~= models);
}

/// Appends the coordinates of a polygon.
fn collect_polygon(p: &Polygon, out: &mut Vec<Coord>)
    ensures
        final(out)@ == old(out)@ + polygon_coords(p@),
{
    out.extend_from_slice(p.exterior.as_slice());
    collect_lines(&p.interiors, out);
    assert(out@ =~= old(out)@ + polygon_coords(p@));
}

/// Appends the coordinates of a geometry in traversal order.
pub fn visit_coords(g: &Geometry, out: &mut Vec<Coord>)
    ensures
        final(out)@ == old(out)@ + geometry_coords(g@),
    decreases *g,
{
    match g {
        Geometry::Point(c) => {
            out.push(*c);
            assert(out@ =~= old(out)@ + geometry_coords(g@));
        },
        Geometry::MultiPoint(v) => {
            out.extend_from_slice(v.as_slice());
            assert(out@ =~= old(out)@ + geometry_coords(g@));
        },
        Geometry::Line(a, b) => {
            out.push(*a);
            out.push(*b);
            assert(out@ =~= old(out)@ + geometry_coords(g@));
        },
        Geometry::LineString(v) => {
            out.extend_from_slice(v.as_slice());
            assert(out@ =~= old(out)@ + geometry_coords(g@));
        },
        Geometry::MultiLineString(v) => {
            collect_lines(v, out);
        },
        Geometry::Polygon(p) => {
            collect_polygon(p, out);
        },
        Geometry::MultiPolygon(v) => {
            let n: usize = v.len();
            let ghost models = polygons_of(v@);
            let mut i: usize = 0;
            assert(models.take(0) =~= Seq::<PolygonModel>::empty());
            assert(out@ =~= old(out)@ + polygons_coords(models.take(0)));
            while i < n
                invariant
                    i <= n,
                    n == v@.len(),
                    models == polygons_of(v@),
                    out@ == old(out)@ + polygons_coords(models.take(i as int)),
                decreases n - i,
            {
                collect_polygon(&v[i], out);
                proof {
                    let now = models.take(i + 1);
                    assert(now.drop_last() =~= models.take(i as int));
                    assert(now.last() == v@[i as int]@);
                    assert(out@ =~= old(out)@ + polygons_coords(now));
                }
                i = i + 1;
            }
            assert(models.take(n as int) =~= models);
        },
        Geometry::GeometryCollection(v) => {
            let n: usize = v.len();
            let ghost models = geometries_of(v@);
            let mut i: usize = 0;
            proof {
                lemma_collection_view(*g, *v);
            }
            assert(models.take(0) =~= Seq::<GeometryModel>::empty());
            assert(out@ =~= old(out)@ + geometries_coords(models.take(0)));
            while i < n
                invariant
                    i <= n,
                    n == v@.len(),
                    *g == Geometry::GeometryCollection(*v),
                    models == geometries_of(v@),
                    out@ == old(out)@ + geometries_coords(models.take(i as int)),
                decreases n - i,
            {
                assert(decreases_to!(*g => g->GeometryCollection_0@[i as int]));
                visit_coords(&v[i], out);
                proof {
                    let now = models.take(i + 1);
                    assert(now.drop_last() =~= models.take(i as int));
                    assert(now.last() == v@[i as int]@);
                    assert(out@ =~= old(out)@ + geometries_coords(now));
                }
                i = i + 1;
            }
            assert(models.take(n as int) =~= models);
        },
        Geometry::Rect(_, _) => {
            assert(out@ =~= old(out)@ + geometry_coords(g@));
        },
        Geometry::Triangle(_, _, _) => {
            assert(out@ =~= old(out)@ + geometry_coords(g@));
        },
    }
}

/// A collection holds the geometries of its parts.
pub proof fn lemma_collection_view(g: Geometry, v: Vec<Geometry>)
    requires
        g == Geometry::GeometryCollection(v),
    ensures
        g@ == GeometryModel::GeometryCollection(geometries_of(v@)),
{
    assert(g@->GeometryCollection_0 =~= geometries_of(v@));
}

/// Count coordinates of a geometry (must match importance array length).
pub fn coord_count(g: &Geometry) -> (n: usize)
    ensures
        n == geometry_coords(g@).len(),
{
    let mut all: Vec<Coord> = Vec::new();
    visit_coords(g, &mut all);
    assert(all@ =~= geometry_coords(g@));
    all.len()
}

/// A line with `f` applied to each coordinate.
pub open spec fn mapped_line<F: Fn(Coord) -> Coord>(line: Seq<Coord>, f: F) -> Seq<Coord> {
    Seq::new(line.len(), |i: int| value_of(f, line[i]))
}

/// Lines with `f` applied to each coordinate.
pub open spec fn mapped_lines<F: Fn(Coord) -> Coord>(lines: Seq<Seq<Coord>>, f: F) -> Seq<
    Seq<Coord>,
> {
    Seq::new(lines.len(), |i: int| mapped_line(lines[i], f))
}

/// A polygon with `f` applied to each coordinate.
pub open spec fn mapped_polygon<F: Fn(Coord) -> Coord>(p: PolygonModel, f: F) -> PolygonModel {
    PolygonModel {
        exterior: mapped_line(p.exterior, f),
        interiors: mapped_lines(p.interiors, f),
    }
}

/// A geometry with `f` applied to each coordinate.
pub open spec fn mapped<F: Fn(Coord) -> Coord>(g: GeometryModel, f: F) -> GeometryModel
    decreases g,
{
    match g {
        GeometryModel::Point(c) => GeometryModel::Point(value_of(f, c)),
        GeometryModel::MultiPoint(s) => GeometryModel::MultiPoint(mapped_line(s, f)),
        GeometryModel::Line(a, b) => GeometryModel::Line(value_of(f, a), value_of(f, b)),
        GeometryModel::LineString(s) => GeometryModel::LineString(mapped_line(s, f)),
        GeometryModel::MultiLineString(ls) => GeometryModel::MultiLineString(mapped_lines(ls, f)),
        GeometryModel::Polygon(p) => GeometryModel::Polygon(mapped_polygon(p, f)),
        GeometryModel::MultiPolygon(ps) => GeometryModel::MultiPolygon(
            Seq::new(ps.len(), |i: int| mapped_polygon(ps[i], f)),
        ),
        GeometryModel::GeometryCollection(gs) => GeometryModel::GeometryCollection(
            Seq::new(
                gs.len(),
                |i: int|
                    if 0 <= i < gs.len() {
                        mapped(gs[i], f)
                    } else {
                        arbitrary()
                    },
            ),
        ),
        GeometryModel::Rect(a, b) => GeometryModel::Rect(value_of(f, a), value_of(f, b)),
        GeometryModel::Triangle(a, b, c) => GeometryModel::Triangle(
            value_of(f, a),
            value_of(f, b),
            value_of(f, c),
        ),
    }
}

fn map_line<F: Fn(Coord) -> Coord>(line: &Vec<Coord>, f: &F) -> (r: Vec<Coord>)
    requires
        is_function(*f),
    ensures
        r@ == mapped_line(line@, *f),
{
    let n: usize = line.len();
    let mut out: Vec<Coord> = Vec::new();
    let mut i: usize = 0;
    while i < n
        invariant
            i <= n,
            n == line@.len(),
            is_function(*f),
            out@.len() == i,
            forall|j: int| 0 <= j < i ==> #[trigger] out@[j] == value_of(*f, line@[j]),
        decreases n - i,
    {
        let c: Coord = f(line[i]);
        assert(call_ensures(*f, (line@[i as int],), c));
        out.push(c);
        i = i + 1;
    }
    assert(out@ =~= mapped_line(line@, *f));
    out
}

fn map_lines<F: Fn(Coord) -> Coord>(lines: &Vec<Vec<Coord>>, f: &F) -> (r: Vec<Vec<Coord>>)
    requires
        is_function(*f),
    ensures
        lines_of(r@) == mapped_lines(lines_of(lines@), *f),
{
    let n: usize = lines.len();
    let mut out: Vec<Vec<Coord>> = Vec::new();
    let mut i: usize = 0;
    while i < n
        invariant
            i <= n,
            n == lines@.len(),
            is_function(*f),
            out@.len() == i,
            forall|j: int| 0 <= j < i ==> (#[trigger] out@[j])@ == mapped_line(lines@[j]@, *f),
        decreases n - i,
    {
        out.push(map_line(&lines[i], f));
        i = i + 1;
    }
    assert(lines_of(out@) =~= mapped_lines(lines_of(lines@), *f));
    out
}

fn map_polygon<F: Fn(Coord) -> Coord>(p: &Polygon, f: &F) -> (r: Polygon)
    requires
        is_function(*f),
    ensures
        r@ == mapped_polygon(p@, *f),
{
    Polygon { exterior: map_line(&p.exterior, f), interiors: map_lines(&p.interiors, f) }
}

/// A copy of a geometry with `f` applied to each coordinate.
pub fn map_coords<F: Fn(Coord) -> Coord>(g: &Geometry, f: &F) -> (r: Geometry)
    requires
        is_function(*f),
    ensures
        r@ == mapped(g@, *f),
    decreases *g,
{
    match g {
        Geometry::Point(c) => {
            let p: Coord = f(*c);
            assert(call_ensures(*f, (*c,), p));
            Geometry::Point(p)
        },
        Geometry::MultiPoint(v) => Geometry::MultiPoint(map_line(v, f)),
        Geometry::Line(a, b) => {
            let p: Coord = f(*a);
            let q: Coord = f(*b);
            assert(call_ensures(*f, (*a,), p) && call_ensures(*f, (*b,), q));
            Geometry::Line(p, q)
        },
        Geometry::LineString(v) => Geometry::LineString(map_line(v, f)),
        Geometry::MultiLineString(v) => Geometry::MultiLineString(map_lines(v, f)),
        Geometry::Polygon(p) => Geometry::Polygon(map_polygon(p, f)),
        Geometry::MultiPolygon(v) => {
            let n: usize = v.len();
            let mut out: Vec<Polygon> = Vec::new();
            let mut i: usize = 0;
            while i < n
                invariant
                    i <= n,
                    n == v@.len(),
                    is_function(*f),
                    out@.len() == i,
                    forall|j: int| 0 <= j < i ==> (#[trigger] out@[j])@ == mapped_polygon(v@[j]@, *f),
                decreases n - i,
            {
                out.push(map_polygon(&v[i], f));
                i = i + 1;
            }
            let r: Geometry = Geometry::MultiPolygon(out);
            assert(r@->MultiPolygon_0 =~= mapped(g@, *f)->MultiPolygon_0);
            r
        },
        Geometry::GeometryCollection(v) => {
            let n: usize = v.len();
            let mut out: Vec<Geometry> = Vec::new();
            let mut i: usize = 0;
            while i < n
                invariant
                    i <= n,
                    n == v@.len(),
                    *g == Geometry::GeometryCollection(*v),
                    is_function(*f),
                    out@.len() == i,
                    forall|j: int| 0 <= j < i ==> (#[trigger] out@[j])@ == mapped(v@[j]@, *f),
                decreases n - i,
            {
                assert(decreases_to!(*g => g->GeometryCollection_0@[i as int]));
                out.push(map_coords(&v[i], f));
                i = i + 1;
            }
            proof {
                lemma_collection_view(*g, *v);
            }
            let ghost parts = out;
            let r: Geometry = Geometry::GeometryCollection(out);
            proof {
                lemma_collection_view(r, parts);
            }
            assert(r@->GeometryCollection_0 =~= mapped(g@, *f)->GeometryCollection_0);
            r
        },
        Geometry::Rect(a, b) => {
            let p: Coord = f(*a);
            let q: Coord = f(*b);
            assert(call_ensures(*f, (*a,), p) && call_ensures(*f, (*b,), q));
            Geometry::Rect(p, q)
        },
        Geometry::Triangle(a, b, c) => {
            let p: Coord = f(*a);
            let q: Coord = f(*b);
            let r: Coord = f(*c);
            assert(call_ensures(*f, (*a,), p) && call_ensures(*f, (*b,), q) && call_ensures(
                *f,
                (*c,),
                r,
            ));
            Geometry::Triangle(p, q, r)
        },
    }
}

/// Mapping a geometry maps its coordinates in traversal order.
pub proof fn law_mapped_coords<F: Fn(Coord) -> Coord>(g: GeometryModel, f: F)
    ensures
        geometry_coords(mapped(g, f)) == mapped_line(geometry_coords(g), f),
    decreases g,
{
    match g {
        GeometryModel::MultiLineString(ls) => {
            lemma_mapped_chained(ls, f);
        },
        GeometryModel::Polygon(p) => {
            lemma_mapped_chained(p.interiors, f);
            assert(geometry_coords(mapped(g, f)) =~= mapped_line(geometry_coords(g), f));
        },
        GeometryModel::MultiPolygon(ps) => {
            lemma_mapped_polygons(ps, f);
        },
        GeometryModel::GeometryCollection(gs) => {
            lemma_mapped_geometries(gs, f);
            assert(mapped(g, f)->GeometryCollection_0 =~= Seq::new(
                gs.len(),
                |i: int| mapped(gs[i], f),
            ));
        },
        _ => {
            assert(geometry_coords(mapped(g, f)) =~= mapped_line(geometry_coords(g), f));
        },
    }
}

proof fn lemma_mapped_chained<F: Fn(Coord) -> Coord>(lines: Seq<Seq<Coord>>, f: F)
    ensures
        chained(mapped_lines(lines, f)) == mapped_line(chained(lines), f),
    decreases lines.len(),
{
    if lines.len() > 0 {
        lemma_mapped_chained(lines.drop_last(), f);
        assert(mapped_lines(lines, f).drop_last() =~= mapped_lines(lines.drop_last(), f));
    }
    assert(chained(mapped_lines(lines, f)) =~= mapped_line(chained(lines), f));
}

proof fn lemma_mapped_polygons<F: Fn(Coord) -> Coord>(ps: Seq<PolygonModel>, f: F)
    ensures
        polygons_coords(Seq::new(ps.len(), |i: int| mapped_polygon(ps[i], f))) == mapped_line(
            polygons_coords(ps),
            f,
        ),
    decreases ps.len(),
{
    let all = Seq::new(ps.len(), |i: int| mapped_polygon(ps[i], f));
    if ps.len() > 0 {
        let init = ps.drop_last();
        lemma_mapped_polygons(init, f);
        lemma_mapped_chained(ps.last().interiors, f);
        assert(all.drop_last() =~= Seq::new(init.len(), |i: int| mapped_polygon(init[i], f)));
    }
    assert(polygons_coords(all) =~= mapped_line(polygons_coords(ps), f));
}

proof fn lemma_mapped_geometries<F: Fn(Coord) -> Coord>(gs: Seq<GeometryModel>, f: F)
    ensures
        geometries_coords(Seq::new(gs.len(), |i: int| mapped(gs[i], f))) == mapped_line(
            geometries_coords(gs),
            f,
        ),
    decreases gs,
{
    let all = Seq::new(gs.len(), |i: int| mapped(gs[i], f));
    if gs.len() > 0 {
        let init = gs.drop_last();
        lemma_mapped_geometries(init, f);
        law_mapped_coords(gs.last(), f);
        assert(all.drop_last() =~= Seq::new(init.len(), |i: int| mapped(init[i], f)));
    }
    assert(geometries_coords(all) =~= mapped_line(geometries_coords(gs), f));
}

// ---- parts of a result ------------------------------------------------------

/// The points of what is left of a geometry of points.
pub open spec fn points_left(g: Option<GeometryModel>) -> Seq<Coord> {
    match g {
        Some(GeometryModel::Point(c)) => seq![c],
        Some(GeometryModel::MultiPoint(s)) => s,
        _ => Seq::empty(),
    }
}

/// The lines of what is left of a geometry of lines.
pub open spec fn lines_left(g: Option<GeometryModel>) -> Seq<Seq<Coord>> {
    match g {
        Some(GeometryModel::LineString(line)) => seq![line],
        Some(GeometryModel::MultiLineString(lines)) => lines,
        _ => Seq::empty(),
    }
}

/// The polygons of what is left of a geometry of polygons.
pub open spec fn polygons_left(g: Option<GeometryModel>) -> Seq<PolygonModel> {
    match g {
        Some(GeometryModel::Polygon(p)) => seq![p],
        Some(GeometryModel::MultiPolygon(ps)) => ps,
        _ => Seq::empty(),
    }
}

/// The geometries of what is left of a collection.
pub open spec fn geometries_left(g: Option<GeometryModel>) -> Seq<GeometryModel> {
    match g {
        Some(GeometryModel::GeometryCollection(gs)) => gs,
        _ => Seq::empty(),
    }
}

// ---- laws ---------------------------------------------------------------------

/// Bit patterns compare as the numbers do that they stand for: patterns
/// without the sign bit ascend, those with it descend and lie below; the two
/// zeros are equal; a pattern beyond infinity is no number and compares with
/// nothing, not even with itself.
pub proof fn law_patterns_compare_as_numbers(a: u64, b: u64)
    ensures
        ({
            let sign: u64 = 0x8000_0000_0000_0000;
            let infinity: u64 = 0x7ff0_0000_0000_0000;
            &&& a <= infinity && b <= infinity ==> (num_lt(a, b) <==> a < b)
            &&& a <= infinity && b <= infinity ==> (num_lt((a + sign) as u64, (b + sign) as u64)
                <==> b < a)
            &&& a <= infinity && b <= infinity && (a > 0 || b > 0) ==> num_lt((a + sign) as u64, b)
            &&& num_eq(0, sign)
            &&& num_eq(a, a) <==> (a <= infinity || sign <= a <= sign + infinity)
            &&& num_eq(a, b) <==> num_eq(a, a) && num_eq(b, b) && !num_lt(a, b) && !num_lt(b, a)
            &&& num_le(a, b) <==> num_lt(a, b) || num_eq(a, b)
            &&& num_lt(a, b) ==> num_eq(a, a) && num_eq(b, b) && !num_lt(b, a)
        }),
{
}

/// Closing a ring keeps its coordinates and adds one at most: afterwards the
/// last coordinate equals the first, if they are numbers, and a ring whose
/// ends are equal is not changed.
pub proof fn law_closed_ring(ring: Seq<Coord>)
    ensures
        closed(ring).len() <= ring.len() + 1,
        closed(ring).take(ring.len() as int) == ring,
        ring.len() > 0 && coord_eq(ring[0], ring[0]) ==> coord_eq(
            closed(ring)[0],
            closed(ring)[closed(ring).len() - 1],
        ),
        ring.len() > 0 && coord_eq(ring[0], ring[ring.len() - 1]) ==> closed(ring) == ring,
        ring.len() > 0 && !coord_eq(ring[0], ring[ring.len() - 1]) ==> closed(ring) == ring
            + seq![ring[0]],
        ring.len() == 0 ==> closed(ring) == ring,
{
    assert(closed(ring).take(ring.len() as int) =~= ring);
    if ring.len() > 0 {
        assert(ring.push(ring[0]) =~= ring + seq![ring[0]]);
    }
}

/// The coordinates of a geometry are those of its parts, one after the other,
/// the exterior of a polygon before its holes.
pub proof fn law_coords_of_parts(
    a: Coord,
    b: Coord,
    points: Seq<Coord>,
    line: Seq<Coord>,
    lines: Seq<Seq<Coord>>,
    p: PolygonModel,
    ps: Seq<PolygonModel>,
    g: GeometryModel,
    gs: Seq<GeometryModel>,
)
    ensures
        geometry_coords(GeometryModel::Point(a)) == seq![a],
        geometry_coords(GeometryModel::MultiPoint(points)) == points,
        geometry_coords(GeometryModel::Line(a, b)) == seq![a, b],
        geometry_coords(GeometryModel::LineString(line)) == line,
        geometry_coords(GeometryModel::MultiLineString(Seq::empty())).len() == 0,
        geometry_coords(GeometryModel::MultiLineString(lines.push(line))) == geometry_coords(
            GeometryModel::MultiLineString(lines),
        ) + line,
        geometry_coords(GeometryModel::Polygon(p)) == p.exterior + geometry_coords(
            GeometryModel::MultiLineString(p.interiors),
        ),
        geometry_coords(GeometryModel::MultiPolygon(Seq::empty())).len() == 0,
        geometry_coords(GeometryModel::MultiPolygon(ps.push(p))) == geometry_coords(
            GeometryModel::MultiPolygon(ps),
        ) + geometry_coords(GeometryModel::Polygon(p)),
        geometry_coords(GeometryModel::GeometryCollection(Seq::empty())).len() == 0,
        geometry_coords(GeometryModel::GeometryCollection(gs.push(g))) == geometry_coords(
            GeometryModel::GeometryCollection(gs),
        ) + geometry_coords(g),
{
    reveal_with_fuel(geometry_coords, 3);
    reveal_with_fuel(geometries_coords, 2);
    assert(lines.push(line).drop_last() =~= lines);
    assert(ps.push(p).drop_last() =~= ps);
    assert(gs.push(g).drop_last() =~= gs);
}

/// `back` undoes `f`.
pub open spec fn undoes<F: Fn(Coord) -> Coord, B: Fn(Coord) -> Coord>(f: F, back: B) -> bool {
    forall|c: Coord| value_of(back, #[trigger] value_of(f, c)) == c
}

proof fn lemma_lines_undone<F: Fn(Coord) -> Coord, B: Fn(Coord) -> Coord>(
    lines: Seq<Seq<Coord>>,
    f: F,
    back: B,
)
    requires
        undoes(f, back),
    ensures
        mapped_lines(mapped_lines(lines, f), back) == lines,
{
    let there = mapped_lines(lines, f);
    assert forall|i: int| 0 <= i < lines.len() implies mapped_line(there[i], back) == lines[i] by {
        assert(mapped_line(there[i], back) =~= lines[i]);
    }
    assert(mapped_lines(there, back) =~= lines);
}

proof fn lemma_polygon_undone<F: Fn(Coord) -> Coord, B: Fn(Coord) -> Coord>(
    p: PolygonModel,
    f: F,
    back: B,
)
    requires
        undoes(f, back),
    ensures
        mapped_polygon(mapped_polygon(p, f), back) == p,
{
    lemma_lines_undone(p.interiors, f, back);
    assert(mapped_line(mapped_line(p.exterior, f), back) =~= p.exterior);
}

/// Mapping changes the coordinates and nothing else: mapping back gives the
/// geometry again, with all its parts.
pub proof fn law_mapping_back<F: Fn(Coord) -> Coord, B: Fn(Coord) -> Coord>(
    g: GeometryModel,
    f: F,
    back: B,
)
    requires
        undoes(f, back),
    ensures
        mapped(mapped(g, f), back) == g,
    decreases g,
{
    match g {
        GeometryModel::MultiPoint(s) => {
            assert(mapped_line(mapped_line(s, f), back) =~= s);
        },
        GeometryModel::LineString(s) => {
            assert(mapped_line(mapped_line(s, f), back) =~= s);
        },
        GeometryModel::MultiLineString(ls) => {
            lemma_lines_undone(ls, f, back);
        },
        GeometryModel::Polygon(p) => {
            lemma_polygon_undone(p, f, back);
        },
        GeometryModel::MultiPolygon(ps) => {
            let there = mapped(g, f)->MultiPolygon_0;
            let again = mapped(mapped(g, f), back)->MultiPolygon_0;
            assert forall|i: int| 0 <= i < ps.len() implies again[i] == ps[i] by {
                lemma_polygon_undone(ps[i], f, back);
            }
            assert(again =~= ps);
        },
        GeometryModel::GeometryCollection(gs) => {
            let there = mapped(g, f)->GeometryCollection_0;
            let again = mapped(mapped(g, f), back)->GeometryCollection_0;
            assert forall|i: int| 0 <= i < gs.len() implies again[i] == gs[i] by {
                law_mapping_back(gs[i], f, back);
                assert(there[i] == mapped(gs[i], f));
            }
            assert(again =~= gs);
        },
        _ => {},
    }
}

} // verus!
