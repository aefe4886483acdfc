//! Apply a per-vertex importance filter to a geometry: the O(n) replacement
//! for running Douglas–Peucker per request.
//!
//! The importance array must be in the same coordinate traversal order as
//! [`crate::importance::geometry_importance`] produced it (which matches
//! FlatGeobuf traversal).

use crate::geometry::{
    chained, closed, closed_polygon, geometries_coords, geometries_of, geometry_coords,
    lemma_collection_view, lines_of, polygon_coords, polygons_coords, polygons_of,
};
use crate::function::{is_function, value_of};
use crate::geometry::{
    coord_eq, geometries_left, lines_left, num_le, polygons_left,
};
use crate::geometry::{copy_geometry, numbers_eq, numbers_lt, visit_coords};
use crate::geometry::{law_mapped_coords, mapped, mapped_line, mapped_lines, mapped_polygon};
use crate::geometry::{num_lt, place, Coord, Geometry, GeometryModel, Polygon, PolygonModel};
use crate::importance::{
    all_storable, geometries_values, geometry_values, law_importance_matches_coords,
    lemma_mapped_storable, line_values, lines_values, polygon_values, polygons_values, storable,
};
use vstd::prelude::*;

verus! {

/// The coordinates of a line that reach the threshold, in their order. The
/// importance of the first one stands at `pos`; coordinates for which the
/// array has no entry are left out.
pub open spec fn kept(line: Seq<Coord>, imp: Seq<u16>, pos: int, q: u16) -> Seq<Coord>
    decreases line.len(),
{
    if line.len() == 0 {
        Seq::empty()
    } else {
        let init = kept(line.drop_last(), imp, pos, q);
        let at = pos + line.len() - 1;
        if at < imp.len() && imp[at] >= q {
            init.push(line.last())
        } else {
            init
        }
    }
}

/// The filtered lines that still have `least` coordinates or more.
pub open spec fn kept_lines(
    lines: Seq<Seq<Coord>>,
    imp: Seq<u16>,
    pos: int,
    q: u16,
    least: nat,
) -> Seq<Seq<Coord>>
    decreases lines.len(),
{
    if lines.len() == 0 {
        Seq::empty()
    } else {
        let init = kept_lines(lines.drop_last(), imp, pos, q, least);
        let line = kept(lines.last(), imp, pos + chained(lines.drop_last()).len(), q);
        if line.len() >= least {
            init.push(line)
        } else {
            init
        }
    }
}

/// The filtered polygon. A closed ring needs at least four coordinates
/// (three distinct and the closing one); interior rings that have fewer are
/// dropped, and the polygon is where its exterior has.
pub open spec fn kept_polygon(p: PolygonModel, imp: Seq<u16>, pos: int, q: u16) -> Option<
    PolygonModel,
> {
    let exterior = kept(p.exterior, imp, pos, q);
    if exterior.len() >= 4 {
        Some(
            closed_polygon(
                exterior,
                kept_lines(p.interiors, imp, pos + p.exterior.len(), q, 4),
            ),
        )
    } else {
        None
    }
}

/// The filtered polygons that remain.
pub open spec fn kept_polygons(ps: Seq<PolygonModel>, imp: Seq<u16>, pos: int, q: u16) -> Seq<
    PolygonModel,
>
    decreases ps.len(),
{
    if ps.len() == 0 {
        Seq::empty()
    } else {
        let init = kept_polygons(ps.drop_last(), imp, pos, q);
        match kept_polygon(ps.last(), imp, pos + polygons_coords(ps.drop_last()).len(), q) {
            Some(p) => init.push(p),
            None => init,
        }
    }
}

/// The geometry with the coordinates that reach the threshold; `None` when
/// it degenerates. Points, and shapes that no layer holds, stay as they are.
pub open spec fn kept_geometry(g: GeometryModel, imp: Seq<u16>, pos: int, q: u16) -> Option<
    GeometryModel,
>
    decreases g,
{
    match g {
        GeometryModel::LineString(line) => {
            let f = kept(line, imp, pos, q);
            if f.len() >= 2 {
                Some(GeometryModel::LineString(f))
            } else {
                None
            }
        },
        GeometryModel::MultiLineString(lines) => {
            let parts = kept_lines(lines, imp, pos, q, 2);
            if parts.len() > 0 {
                Some(GeometryModel::MultiLineString(parts))
            } else {
                None
            }
        },
        GeometryModel::Polygon(p) => match kept_polygon(p, imp, pos, q) {
            Some(p) => Some(GeometryModel::Polygon(p)),
            None => None,
        },
        GeometryModel::MultiPolygon(ps) => {
            let polys = kept_polygons(ps, imp, pos, q);
            if polys.len() > 0 {
                Some(GeometryModel::MultiPolygon(polys))
            } else {
                None
            }
        },
        GeometryModel::GeometryCollection(gs) => {
            let geoms = kept_geometries(gs, imp, pos, q);
            if geoms.len() > 0 {
                Some(GeometryModel::GeometryCollection(geoms))
            } else {
                None
            }
        },
        other => Some(other),
    }
}

/// The filtered geometries that remain.
pub open spec fn kept_geometries(gs: Seq<GeometryModel>, imp: Seq<u16>, pos: int, q: u16) -> Seq<
    GeometryModel,
>
    decreases gs,
{
    if gs.len() == 0 {
        Seq::empty()
    } else {
        let init = kept_geometries(gs.drop_last(), imp, pos, q);
        match kept_geometry(gs.last(), imp, pos + geometries_coords(gs.drop_last()).len(), q) {
            Some(g) => init.push(g),
            None => init,
        }
    }
}

/// None of some lines begins behind the end of an array with `n` entries, of
/// which the first that counts for them stands at `pos`.
pub open spec fn lines_begin(lines: Seq<Seq<Coord>>, pos: int, n: int) -> bool
    decreases lines.len(),
{
    lines.len() > 0 ==> lines_begin(lines.drop_last(), pos, n) && pos + chained(
        lines.drop_last(),
    ).len() <= n
}

/// No ring of a polygon begins behind the end of the array.
pub open spec fn polygon_begins(p: PolygonModel, pos: int, n: int) -> bool {
    pos <= n && lines_begin(p.interiors, pos + p.exterior.len(), n)
}

/// No ring of some polygons begins behind the end of the array.
pub open spec fn polygons_begin(ps: Seq<PolygonModel>, pos: int, n: int) -> bool
    decreases ps.len(),
{
    ps.len() > 0 ==> polygons_begin(ps.drop_last(), pos, n) && polygon_begins(
        ps.last(),
        pos + polygons_coords(ps.drop_last()).len(),
        n,
    )
}

/// No part of a geometry begins behind the end of an importance array with
/// `n` entries. The array may still end inside a part.
pub open spec fn begins(g: GeometryModel, pos: int, n: int) -> bool
    decreases g,
{
    match g {
        GeometryModel::Point(_) => pos <= n,
        GeometryModel::MultiPoint(_) => pos <= n,
        GeometryModel::LineString(_) => pos <= n,
        GeometryModel::MultiLineString(lines) => lines_begin(lines, pos, n),
        GeometryModel::Polygon(p) => polygon_begins(p, pos, n),
        GeometryModel::MultiPolygon(ps) => polygons_begin(ps, pos, n),
        GeometryModel::GeometryCollection(gs) => all_begin(gs, pos, n),
        _ => true,
    }
}

/// No part of some geometries begins behind the end of the array.
pub open spec fn all_begin(gs: Seq<GeometryModel>, pos: int, n: int) -> bool
    decreases gs,
{
    gs.len() > 0 ==> all_begin(gs.drop_last(), pos, n) && begins(
        gs.last(),
        pos + geometries_coords(gs.drop_last()).len(),
        n,
    )
}

proof fn lemma_lines_begin(lines: Seq<Seq<Coord>>, pos: int, n: int)
    requires
        pos + chained(lines).len() <= n,
    ensures
        lines_begin(lines, pos, n),
    decreases lines.len(),
{
    if lines.len() > 0 {
        lemma_lines_begin(lines.drop_last(), pos, n);
    }
}

proof fn lemma_polygons_begin(ps: Seq<PolygonModel>, pos: int, n: int)
    requires
        pos + polygons_coords(ps).len() <= n,
    ensures
        polygons_begin(ps, pos, n),
    decreases ps.len(),
{
    if ps.len() > 0 {
        let at = pos + polygons_coords(ps.drop_last()).len();
        lemma_polygons_begin(ps.drop_last(), pos, n);
        lemma_lines_begin(ps.last().interiors, at + ps.last().exterior.len(), n);
    }
}

proof fn lemma_all_begin(gs: Seq<GeometryModel>, pos: int, n: int)
    requires
        pos + geometries_coords(gs).len() <= n,
    ensures
        all_begin(gs, pos, n),
    decreases gs,
{
    if gs.len() > 0 {
        lemma_all_begin(gs.drop_last(), pos, n);
        law_full_array_suffices(gs.last(), pos + geometries_coords(gs.drop_last()).len(), n);
    }
}

/// In an array with an entry for each coordinate every part begins.
pub proof fn law_full_array_suffices(g: GeometryModel, pos: int, n: int)
    requires
        pos + geometry_coords(g).len() <= n,
    ensures
        begins(g, pos, n),
    decreases g,
{
    match g {
        GeometryModel::MultiLineString(lines) => {
            lemma_lines_begin(lines, pos, n);
        },
        GeometryModel::Polygon(p) => {
            lemma_lines_begin(p.interiors, pos + p.exterior.len(), n);
        },
        GeometryModel::MultiPolygon(ps) => {
            lemma_polygons_begin(ps, pos, n);
        },
        GeometryModel::GeometryCollection(gs) => {
            lemma_all_begin(gs, pos, n);
        },
        _ => {},
    }
}

/// Streaming cursor over an importance array.
struct ImpCursor<'a> {
    imp: &'a [u16],
    /// Entries that were passed.
    pos: usize,
    /// The cursor was moved behind the end of the array.
    past: bool,
    /// No part began behind the end.
    fits: bool,
    /// Coordinates that were passed.
    at: Ghost<int>,
}

impl<'a> ImpCursor<'a> {
    spec fn wf(self) -> bool {
        &&& 0 <= self.at@
        &&& self.past == (self.at@ > self.imp@.len())
        &&& self.pos == if self.past {
            self.imp@.len() as int
        } else {
            self.at@
        }
    }

    /// Moves over `n` coordinates.
    fn skip(&mut self, n: usize)
        requires
            old(self).wf(),
        ensures
            final(self).wf(),
            final(self).imp == old(self).imp,
            final(self).fits == old(self).fits,
            final(self).at@ == old(self).at@ + n,
    {
        let end: usize = self.imp.len();
        if n > end - self.pos {
            self.past = true;
            self.pos = end;
        } else {
            self.pos = self.pos + n;
        }
        self.at = Ghost(self.at@ + n);
    }

    /// Moves over a part with `n` coordinates; gives the position of the
    /// first.
    fn take(&mut self, n: usize) -> (pos: usize)
        requires
            old(self).wf(),
        ensures
            final(self).wf(),
            final(self).imp == old(self).imp,
            final(self).fits == (old(self).fits && old(self).at@ <= old(self).imp@.len()),
            final(self).at@ == old(self).at@ + n,
            pos == old(self).pos,
    {
        if self.past {
            self.fits = false;
        }
        let pos: usize = self.pos;
        self.skip(n);
        pos
    }
}

/// Filters a line and moves the cursor behind it.
fn filter_line(line: &Vec<Coord>, cur: &mut ImpCursor<'_>, q: u16) -> (r: Vec<Coord>)
    requires
        old(cur).wf(),
    ensures
        final(cur).wf(),
        final(cur).imp == old(cur).imp,
        final(cur).fits == (old(cur).fits && old(cur).at@ <= old(cur).imp@.len()),
        final(cur).at@ == old(cur).at@ + line@.len(),
        r@ == kept(line@, old(cur).imp@, old(cur).at@, q),
{
    let n: usize = line.len();
    let pos: usize = cur.take(n);
    let end: usize = cur.imp.len();
    let mut out: Vec<Coord> = Vec::new();
    let mut i: usize = 0;
    assert(line@.take(0) =~= Seq::<Coord>::empty());
    while i < n
        invariant
            i <= n,
            n == line@.len(),
            cur.imp == old(cur).imp,
            end == cur.imp@.len(),
            old(cur).wf(),
            pos == old(cur).pos,
            out@ == kept(line@.take(i as int), cur.imp@, old(cur).at@, q),
        decreases n - i,
    {
        proof {
            assert(line@.take(i + 1).drop_last() =~= line@.take(i as int));
        }
        if i < end - pos && cur.imp[pos + i] >= q {
            out.push(line[i]);
        }
        i = i + 1;
    }
    assert(line@.take(n as int) =~= line@);
    out
}

/// Filters lines, dropping those that get shorter than `least`.
fn filter_lines(lines: &Vec<Vec<Coord>>, cur: &mut ImpCursor<'_>, q: u16, least: usize) -> (r: Vec<
    Vec<Coord>,
>)
    requires
        old(cur).wf(),
    ensures
        final(cur).wf(),
        final(cur).imp == old(cur).imp,
        final(cur).fits == (old(cur).fits && lines_begin(
            lines_of(lines@),
            old(cur).at@,
            old(cur).imp@.len() as int,
        )),
        final(cur).at@ == old(cur).at@ + chained(lines_of(lines@)).len(),
        lines_of(r@) == kept_lines(
            lines_of(lines@),
            old(cur).imp@,
            old(cur).at@,
            q,
            least as nat,
        ),
{
    let n: usize = lines.len();
    let ghost models = lines_of(lines@);
    let ghost start = cur.at@;
    let ghost imp = cur.imp@;
    let mut out: Vec<Vec<Coord>> = Vec::new();
    let mut i: usize = 0;
    assert(models.take(0) =~= Seq::<Seq<Coord>>::empty());
    assert(lines_of(out@) =~= Seq::<Seq<Coord>>::empty());
    while i < n
        invariant
            i <= n,
            n == lines@.len(),
            models == lines_of(lines@),
            imp == old(cur).imp@,
            start == old(cur).at@,
            cur.wf(),
            cur.imp == old(cur).imp,
            cur.fits == (old(cur).fits && lines_begin(
                models.take(i as int),
                start,
                imp.len() as int,
            )),
            cur.at@ == start + chained(models.take(i as int)).len(),
            lines_of(out@) == kept_lines(models.take(i as int), imp, start, q, least as nat),
        decreases n - i,
    {
        proof {
            let now = models.take(i + 1);
            assert(now.drop_last() =~= models.take(i as int));
            assert(now.last() == lines@[i as int]@);
        }
        let line: Vec<Coord> = filter_line(&lines[i], cur, q);
        let ghost before = lines_of(out@);
        if line.len() >= least {
            let ghost added = line@;
            out.push(line);
            assert(lines_of(out@) =~= before.push(added));
        }
        i = i + 1;
    }
    assert(models.take(n as int) =~= models);
    out
}

/// Filters a polygon.
fn filter_polygon(p: &Polygon, cur: &mut ImpCursor<'_>, q: u16) -> (r: Option<Polygon>)
    requires
        old(cur).wf(),
    ensures
        final(cur).wf(),
        final(cur).imp == old(cur).imp,
        final(cur).fits == (old(cur).fits && polygon_begins(
            p@,
            old(cur).at@,
            old(cur).imp@.len() as int,
        )),
        final(cur).at@ == old(cur).at@ + polygon_coords(p@).len(),
        match r {
            Some(f) => kept_polygon(p@, old(cur).imp@, old(cur).at@, q) == Some(f@),
            None => kept_polygon(p@, old(cur).imp@, old(cur).at@, q) is None,
        },
{
    let exterior: Vec<Coord> = filter_line(&p.exterior, cur, q);
    let interiors: Vec<Vec<Coord>> = filter_lines(&p.interiors, cur, q, 4);
    // exterior collapse drops the whole polygon (cursor already advanced)
    if exterior.len() >= 4 {
        Some(Polygon::new(exterior, interiors))
    } else {
        None
    }
}

/// Filters a geometry and moves the cursor behind it.
fn filter_inner(g: &Geometry, cur: &mut ImpCursor<'_>, q: u16) -> (r: Option<Geometry>)
    requires
        old(cur).wf(),
    ensures
        final(cur).wf(),
        final(cur).imp == old(cur).imp,
        final(cur).fits == (old(cur).fits && begins(
            g@,
            old(cur).at@,
            old(cur).imp@.len() as int,
        )),
        final(cur).at@ == old(cur).at@ + geometry_coords(g@).len(),
        match r {
            Some(f) => kept_geometry(g@, old(cur).imp@, old(cur).at@, q) == Some(f@),
            None => kept_geometry(g@, old(cur).imp@, old(cur).at@, q) is None,
        },
    decreases *g,
{
    match g {
        Geometry::Point(_) => {
            cur.take(1);
            Some(copy_geometry(g))
        },
        Geometry::MultiPoint(v) => {
            cur.take(v.len());
            Some(copy_geometry(g))
        },
        Geometry::Line(_, _) => {
            cur.skip(2);
            Some(copy_geometry(g))
        },
        Geometry::LineString(v) => {
            let f: Vec<Coord> = filter_line(v, cur, q);
            if f.len() >= 2 {
                Some(Geometry::LineString(f))
            } else {
                None
            }
        },
        Geometry::MultiLineString(v) => {
            let parts: Vec<Vec<Coord>> = filter_lines(v, cur, q, 2);
            assert(lines_of(parts@).len() == parts@.len());
            if parts.len() > 0 {
                Some(Geometry::MultiLineString(parts))
            } else {
                None
            }
        },
        Geometry::Polygon(p) => match filter_polygon(p, cur, q) {
            Some(f) => Some(Geometry::Polygon(f)),
            None => None,
        },
        Geometry::MultiPolygon(v) => {
            let n: usize = v.len();
            let ghost models = polygons_of(v@);
            let ghost start = cur.at@;
            let ghost imp = cur.imp@;
            let mut out: Vec<Polygon> = Vec::new();
            let mut i: usize = 0;
            assert(models.take(0) =~= Seq::<PolygonModel>::empty());
            assert(polygons_of(out@) =~= Seq::<PolygonModel>::empty());
            while i < n
                invariant
                    i <= n,
                    n == v@.len(),
                    models == polygons_of(v@),
                    imp == old(cur).imp@,
                    start == old(cur).at@,
            cur.wf(),
                    cur.imp == old(cur).imp,
                    cur.fits == (old(cur).fits && polygons_begin(
                        models.take(i as int),
                        start,
                        imp.len() as int,
                    )),
                    cur.at@ == start + polygons_coords(models.take(i as int)).len(),
                    polygons_of(out@) == kept_polygons(models.take(i as int), imp, start, q),
                decreases n - i,
            {
                proof {
                    let now = models.take(i + 1);
                    assert(now.drop_last() =~= models.take(i as int));
                    assert(now.last() == v@[i as int]@);
                }
                let ghost before = polygons_of(out@);
                if let Some(f) = filter_polygon(&v[i], cur, q) {
                    let ghost added = f@;
                    out.push(f);
                    assert(polygons_of(out@) =~= before.push(added));
                }
                i = i + 1;
            }
            assert(models.take(n as int) =~= models);
            assert(polygons_of(out@).len() == out@.len());
            if out.len() > 0 {
                Some(Geometry::MultiPolygon(out))
            } else {
                None
            }
        },
        Geometry::GeometryCollection(v) => {
            let n: usize = v.len();
            let ghost models = geometries_of(v@);
            let ghost start = cur.at@;
            let ghost imp = cur.imp@;
            proof {
                lemma_collection_view(*g, *v);
            }
            let mut out: Vec<Geometry> = Vec::new();
            let mut i: usize = 0;
            assert(models.take(0) =~= Seq::<GeometryModel>::empty());
            assert(geometries_of(out@) =~= Seq::<GeometryModel>::empty());
            while i < n
                invariant
                    i <= n,
                    n == v@.len(),
                    *g == Geometry::GeometryCollection(*v),
                    models == geometries_of(v@),
                    imp == old(cur).imp@,
                    start == old(cur).at@,
            cur.wf(),
                    cur.imp == old(cur).imp,
                    cur.fits == (old(cur).fits && all_begin(
                        models.take(i as int),
                        start,
                        imp.len() as int,
                    )),
                    cur.at@ == start + geometries_coords(models.take(i as int)).len(),
                    geometries_of(out@) == kept_geometries(models.take(i as int), imp, start, q),
                decreases n - i,
            {
                proof {
                    let now = models.take(i + 1);
                    assert(now.drop_last() =~= models.take(i as int));
                    assert(now.last() == v@[i as int]@);
                    assert(decreases_to!(*g => g->GeometryCollection_0@[i as int]));
                }
                let ghost before = geometries_of(out@);
                if let Some(f) = filter_inner(&v[i], cur, q) {
                    let ghost added = f@;
                    out.push(f);
                    assert(geometries_of(out@) =~= before.push(added));
                }
                i = i + 1;
            }
            assert(models.take(n as int) =~= models);
            assert(geometries_of(out@).len() == out@.len());
            if out.len() > 0 {
                let ghost parts = out;
                let r: Geometry = Geometry::GeometryCollection(out);
                proof {
                    lemma_collection_view(r, parts);
                }
                Some(r)
            } else {
                None
            }
        },
        Geometry::Rect(_, _) => Some(copy_geometry(g)),
        Geometry::Triangle(_, _, _) => Some(copy_geometry(g)),
    }
}

/// Filter `geom` keeping vertices with `importance >= q`. Returns `None`
/// when the geometry degenerates (e.g. polygon ring collapses).
///
/// `imp` should have exactly as many entries as `geom` has coordinates. Where
/// it has fewer, the vertices at the end are left out; it must not end before
/// the last part of `geom` begins.
pub fn filter_geometry(geom: &Geometry, imp: &[u16], q: u16) -> (r: Option<Geometry>)
    requires
        begins(geom@, 0, imp@.len() as int),
    ensures
        match r {
            Some(f) => kept_geometry(geom@, imp@, 0, q) == Some(f@),
            None => kept_geometry(geom@, imp@, 0, q) is None,
        },
{
    let mut cur: ImpCursor<'_> = ImpCursor {
        imp,
        pos: 0,
        past: false,
        fits: true,
        at: Ghost(0int),
    };
    filter_inner(geom, &mut cur, q)
}

/// Filters `geom` with an array of unknown length: `None` where a part of
/// `geom` begins behind the end of the array, and otherwise what
/// [`filter_geometry`] gives.
pub fn filter_if_long_enough(geom: &Geometry, imp: &[u16], q: u16) -> (r: Option<Option<Geometry>>)
    ensures
        match r {
            Some(Some(f)) => begins(geom@, 0, imp@.len() as int) && kept_geometry(
                geom@,
                imp@,
                0,
                q,
            ) == Some(f@),
            Some(None) => begins(geom@, 0, imp@.len() as int) && kept_geometry(
                geom@,
                imp@,
                0,
                q,
            ) is None,
            None => !begins(geom@, 0, imp@.len() as int),
        },
{
    let mut cur: ImpCursor<'_> = ImpCursor {
        imp,
        pos: 0,
        past: false,
        fits: true,
        at: Ghost(0int),
    };
    let filtered: Option<Geometry> = filter_inner(geom, &mut cur, q);
    if cur.fits {
        Some(filtered)
    } else {
        None
    }
}

/// The lesser of two numbers; a pattern that is not a number counts for
/// nothing.
pub open spec fn lesser(a: u64, b: u64) -> u64 {
    if place(a) is None || num_lt(b, a) {
        b
    } else {
        a
    }
}

/// The greater of two numbers; a pattern that is not a number counts for
/// nothing.
pub open spec fn greater(a: u64, b: u64) -> u64 {
    if place(a) is None || num_lt(a, b) {
        b
    } else {
        a
    }
}

/// The bounds (min_x, min_y, max_x, max_y) of projected coordinates.
pub open spec fn bounds_of<P: Fn(Coord) -> Coord>(coords: Seq<Coord>, project: P) -> Option<
    (u64, u64, u64, u64),
>
    decreases coords.len(),
{
    if coords.len() == 0 {
        None
    } else {
        let c = value_of(project, coords.last());
        match bounds_of(coords.drop_last(), project) {
            None => Some((c.x, c.y, c.x, c.y)),
            Some((a, b, d, e)) => Some(
                (lesser(a, c.x), lesser(b, c.y), greater(d, c.x), greater(e, c.y)),
            ),
        }
    }
}

fn lesser_of(a: u64, b: u64) -> (r: u64)
    ensures
        r == lesser(a, b),
{
    if !numbers_eq(a, a) || numbers_lt(b, a) {
        b
    } else {
        a
    }
}

fn greater_of(a: u64, b: u64) -> (r: u64)
    ensures
        r == greater(a, b),
{
    if !numbers_eq(a, a) || numbers_lt(a, b) {
        b
    } else {
        a
    }
}

/// Bounding box of a geometry in unit mercator: (min_x, min_y, max_x, max_y).
/// `project` takes a coordinate to unit mercator.
pub fn mercator_bbox<P: Fn(Coord) -> Coord>(geom: &Geometry, project: &P) -> (r: Option<
    (u64, u64, u64, u64),
>)
    requires
        is_function(*project),
    ensures
        r == bounds_of(geometry_coords(geom@), *project),
{
    let mut all: Vec<Coord> = Vec::new();
    visit_coords(geom, &mut all);
    assert(all@ =~= geometry_coords(geom@));
    let n: usize = all.len();
    let mut bbox: Option<(u64, u64, u64, u64)> = None;
    let mut i: usize = 0;
    assert(all@.take(0) =~= Seq::<Coord>::empty());
    while i < n
        invariant
            i <= n,
            n == all@.len(),
            is_function(*project),
            bbox == bounds_of(all@.take(i as int), *project),
        decreases n - i,
    {
        let c: Coord = project(all[i]);
        proof {
            let now = all@.take(i + 1);
            assert(now.drop_last() =~= all@.take(i as int));
            assert(call_ensures(*project, (now.last(),), c));
        }
        bbox = match bbox {
            None => Some((c.x, c.y, c.x, c.y)),
            Some((a, b, d, e)) => Some(
                (lesser_of(a, c.x), lesser_of(b, c.y), greater_of(d, c.x), greater_of(e, c.y)),
            ),
        };
        i = i + 1;
    }
    assert(all@.take(n as int) =~= all@);
    bbox
}

/// Whether a geometry counts as too small: points never do, a geometry
/// without coordinates does, and any other where its bounds are narrower than
/// the least extent in both dimensions.
pub open spec fn too_small<P: Fn(Coord) -> Coord, N: Fn((u64, u64, u64)) -> bool>(
    g: GeometryModel,
    min_extent: u64,
    project: P,
    narrow: N,
) -> bool {
    match g {
        GeometryModel::Point(_) => false,
        GeometryModel::MultiPoint(_) => false,
        _ => match bounds_of(geometry_coords(g), project) {
            Some((min_x, min_y, max_x, max_y)) => value_of(narrow, (min_x, max_x, min_extent))
                && value_of(narrow, (min_y, max_y, min_extent)),
            None => true,
        },
    }
}

/// Drop test for feature-level thinning: true when the geometry's mercator
/// bbox is smaller than `min_extent` in both dimensions (lines/polygons only).
/// `narrow` says whether the distance between two numbers is less than a
/// third.
pub fn is_too_small<P: Fn(Coord) -> Coord, N: Fn((u64, u64, u64)) -> bool>(
    geom: &Geometry,
    min_extent: u64,
    project: &P,
    narrow: &N,
) -> (r: bool)
    requires
        is_function(*project),
        is_function(*narrow),
    ensures
        r == too_small(geom@, min_extent, *project, *narrow),
{
    match geom {
        Geometry::Point(_) => false,
        Geometry::MultiPoint(_) => false,
        _ => match mercator_bbox(geom, project) {
            Some((min_x, min_y, max_x, max_y)) => {
                let wide: bool = narrow((min_x, max_x, min_extent));
                let high: bool = narrow((min_y, max_y, min_extent));
                assert(call_ensures(*narrow, ((min_x, max_x, min_extent),), wide));
                assert(call_ensures(*narrow, ((min_y, max_y, min_extent),), high));
                wide && high
            },
            None => true,
        },
    }
}

/// `a` is `b` with some elements left out.
pub open spec fn is_part_of(a: Seq<Coord>, b: Seq<Coord>) -> bool
    decreases b.len(),
{
    if b.len() == 0 {
        a.len() == 0
    } else {
        ||| is_part_of(a, b.drop_last())
        ||| a.len() > 0 && a.last() == b.last() && is_part_of(a.drop_last(), b.drop_last())
    }
}

/// Filtering a line nests: what a higher threshold keeps, a lower one keeps
/// too, in the same order, and both keep coordinates of the line only.
pub proof fn law_kept_nests(line: Seq<Coord>, imp: Seq<u16>, pos: int, low: u16, high: u16)
    requires
        low <= high,
    ensures
        is_part_of(kept(line, imp, pos, high), kept(line, imp, pos, low)),
        is_part_of(kept(line, imp, pos, low), line),
        kept(line, imp, pos, high).len() <= kept(line, imp, pos, low).len(),
    decreases line.len(),
{
    if line.len() > 0 {
        let init = line.drop_last();
        law_kept_nests(init, imp, pos, low, high);
        let a = kept(init, imp, pos, low);
        let b = kept(init, imp, pos, high);
        assert(a.push(line.last()).drop_last() =~= a);
        assert(b.push(line.last()).drop_last() =~= b);
    }
}

/// A coordinate whose importance reaches the threshold is kept; endpoints,
/// which have the highest importance there is, always are.
pub proof fn law_important_is_kept(line: Seq<Coord>, imp: Seq<u16>, pos: int, q: u16, i: int)
    requires
        0 <= i < line.len(),
        pos + i < imp.len(),
        imp[pos + i] >= q,
    ensures
        kept(line, imp, pos, q).contains(line[i]),
    decreases line.len(),
{
    let init = line.drop_last();
    let k = kept(init, imp, pos, q);
    let all = kept(line, imp, pos, q);
    if i < init.len() {
        law_important_is_kept(init, imp, pos, q, i);
        let j = choose|j: int| 0 <= j < k.len() && k[j] == init[i];
        assert(all[j] == line[i]);
    } else {
        assert(all[all.len() - 1] == line[i]);
    }
}

/// Where every coordinate reaches the threshold, a line stays as it is.
pub proof fn law_all_important_is_unchanged(line: Seq<Coord>, imp: Seq<u16>, pos: int, q: u16)
    requires
        pos + line.len() <= imp.len(),
        forall|i: int| pos <= i < pos + line.len() ==> #[trigger] imp[i] >= q,
    ensures
        kept(line, imp, pos, q) == line,
    decreases line.len(),
{
    if line.len() > 0 {
        law_all_important_is_unchanged(line.drop_last(), imp, pos, q);
        assert(imp[pos + line.len() - 1] >= q);
        assert(line.drop_last().push(line.last()) =~= line);
    } else {
        assert(kept(line, imp, pos, q) =~= line);
    }
}

proof fn lemma_lines_monotone(
    lines: Seq<Seq<Coord>>,
    imp: Seq<u16>,
    pos: int,
    low: u16,
    high: u16,
    least: nat,
)
    requires
        low <= high,
    ensures
        kept_lines(lines, imp, pos, high, least).len() <= kept_lines(
            lines,
            imp,
            pos,
            low,
            least,
        ).len(),
    decreases lines.len(),
{
    if lines.len() > 0 {
        lemma_lines_monotone(lines.drop_last(), imp, pos, low, high, least);
        law_kept_nests(
            lines.last(),
            imp,
            pos + chained(lines.drop_last()).len(),
            low,
            high,
        );
    }
}

proof fn lemma_polygons_monotone(
    ps: Seq<PolygonModel>,
    imp: Seq<u16>,
    pos: int,
    low: u16,
    high: u16,
)
    requires
        low <= high,
    ensures
        kept_polygons(ps, imp, pos, high).len() <= kept_polygons(ps, imp, pos, low).len(),
    decreases ps.len(),
{
    if ps.len() > 0 {
        lemma_polygons_monotone(ps.drop_last(), imp, pos, low, high);
        law_kept_nests(
            ps.last().exterior,
            imp,
            pos + polygons_coords(ps.drop_last()).len(),
            low,
            high,
        );
    }
}

proof fn lemma_geometries_monotone(
    gs: Seq<GeometryModel>,
    imp: Seq<u16>,
    pos: int,
    low: u16,
    high: u16,
)
    requires
        low <= high,
    ensures
        kept_geometries(gs, imp, pos, high).len() <= kept_geometries(gs, imp, pos, low).len(),
    decreases gs,
{
    if gs.len() > 0 {
        lemma_geometries_monotone(gs.drop_last(), imp, pos, low, high);
        law_survival_is_monotone(
            gs.last(),
            imp,
            pos + geometries_coords(gs.drop_last()).len(),
            low,
            high,
        );
    }
}

/// A geometry that survives the filter at a threshold survives it at every
/// lower one.
pub proof fn law_survival_is_monotone(
    g: GeometryModel,
    imp: Seq<u16>,
    pos: int,
    low: u16,
    high: u16,
)
    requires
        low <= high,
    ensures
        kept_geometry(g, imp, pos, high) is Some ==> kept_geometry(g, imp, pos, low) is Some,
    decreases g,
{
    match g {
        GeometryModel::LineString(line) => {
            law_kept_nests(line, imp, pos, low, high);
        },
        GeometryModel::MultiLineString(lines) => {
            lemma_lines_monotone(lines, imp, pos, low, high, 2);
        },
        GeometryModel::Polygon(p) => {
            law_kept_nests(p.exterior, imp, pos, low, high);
        },
        GeometryModel::MultiPolygon(ps) => {
            lemma_polygons_monotone(ps, imp, pos, low, high);
        },
        GeometryModel::GeometryCollection(gs) => {
            lemma_geometries_monotone(gs, imp, pos, low, high);
        },
        _ => {},
    }
}

proof fn lemma_part_of_itself(a: Seq<Coord>)
    ensures
        is_part_of(a, a),
        is_part_of(Seq::empty(), a),
    decreases a.len(),
{
    if a.len() > 0 {
        lemma_part_of_itself(a.drop_last());
    }
}

proof fn lemma_parts_join(a: Seq<Coord>, b: Seq<Coord>, c: Seq<Coord>, d: Seq<Coord>)
    requires
        is_part_of(a, b),
        is_part_of(c, d),
    ensures
        is_part_of(a + c, b + d),
    decreases d.len(),
{
    if d.len() == 0 {
        assert(a + c =~= a);
        assert(b + d =~= b);
    } else {
        let init = d.drop_last();
        assert((b + d).drop_last() =~= b + init);
        if is_part_of(c, init) {
            lemma_parts_join(a, b, c, init);
        } else {
            lemma_parts_join(a, b, c.drop_last(), init);
            assert((a + c).drop_last() =~= a + c.drop_last());
        }
    }
}

/// What closing makes of a ring at the higher threshold is part of what it
/// makes of it at the lower one, unless the ring is dropped. See
/// [`law_ring_nests`].
pub open spec fn ring_nests(
    ring: Seq<Coord>,
    imp: Seq<u16>,
    pos: int,
    low: u16,
    high: u16,
) -> bool {
    kept(ring, imp, pos, high).len() >= 4 ==> is_part_of(
        closed(kept(ring, imp, pos, high)),
        closed(kept(ring, imp, pos, low)),
    )
}

/// All rings nest.
pub open spec fn rings_nest(
    rings: Seq<Seq<Coord>>,
    imp: Seq<u16>,
    pos: int,
    low: u16,
    high: u16,
) -> bool
    decreases rings.len(),
{
    rings.len() > 0 ==> rings_nest(rings.drop_last(), imp, pos, low, high) && ring_nests(
        rings.last(),
        imp,
        pos + chained(rings.drop_last()).len(),
        low,
        high,
    )
}

/// All rings of a polygon nest, unless it is dropped.
pub open spec fn polygon_nests(
    p: PolygonModel,
    imp: Seq<u16>,
    pos: int,
    low: u16,
    high: u16,
) -> bool {
    kept(p.exterior, imp, pos, high).len() >= 4 ==> ring_nests(p.exterior, imp, pos, low, high)
        && rings_nest(p.interiors, imp, pos + p.exterior.len(), low, high)
}

/// All rings of some polygons nest.
pub open spec fn polygons_nest(
    ps: Seq<PolygonModel>,
    imp: Seq<u16>,
    pos: int,
    low: u16,
    high: u16,
) -> bool
    decreases ps.len(),
{
    ps.len() > 0 ==> polygons_nest(ps.drop_last(), imp, pos, low, high) && polygon_nests(
        ps.last(),
        imp,
        pos + polygons_coords(ps.drop_last()).len(),
        low,
        high,
    )
}

/// All rings of a geometry nest.
pub open spec fn all_rings_nest(
    g: GeometryModel,
    imp: Seq<u16>,
    pos: int,
    low: u16,
    high: u16,
) -> bool
    decreases g,
{
    match g {
        GeometryModel::Polygon(p) => polygon_nests(p, imp, pos, low, high),
        GeometryModel::MultiPolygon(ps) => polygons_nest(ps, imp, pos, low, high),
        GeometryModel::GeometryCollection(gs) => geometries_nest(gs, imp, pos, low, high),
        _ => true,
    }
}

/// All rings of some geometries nest.
pub open spec fn geometries_nest(
    gs: Seq<GeometryModel>,
    imp: Seq<u16>,
    pos: int,
    low: u16,
    high: u16,
) -> bool
    decreases gs,
{
    gs.len() > 0 ==> geometries_nest(gs.drop_last(), imp, pos, low, high) && all_rings_nest(
        gs.last(),
        imp,
        pos + geometries_coords(gs.drop_last()).len(),
        low,
        high,
    )
}

/// A ring nests where closing it at the higher threshold adds nothing, or adds
/// the coordinate with which it ends at the lower one. That is so where both
/// ends of the ring reach the higher threshold; where its start is dropped,
/// closing what is left can add a coordinate that is not there otherwise.
pub proof fn law_ring_nests(ring: Seq<Coord>, imp: Seq<u16>, pos: int, low: u16, high: u16)
    requires
        low <= high,
        ({
            let a = kept(ring, imp, pos, high);
            let b = kept(ring, imp, pos, low);
            ||| closed(a) == a
            ||| closed(b).len() > 0 && closed(b).last() == a[0]
            ||| 0 < ring.len() <= imp.len() - pos && imp[pos] >= high && imp[pos + ring.len() - 1]
                >= high
        }),
    ensures
        ring_nests(ring, imp, pos, low, high),
{
    let a = kept(ring, imp, pos, high);
    let b = kept(ring, imp, pos, low);
    law_kept_nests(ring, imp, pos, low, high);
    if 0 < ring.len() <= imp.len() - pos && imp[pos] >= high && imp[pos + ring.len() - 1]
        >= high {
        lemma_ends_kept(ring, imp, pos, high);
        lemma_ends_kept(ring, imp, pos, low);
    }
    if b.len() > 0 {
        assert(b.push(b[0]).drop_last() =~= b);
    }
    if closed(a) == a {
        lemma_part_of_longer(a, b, b.first());
    } else {
        assert(a.push(a[0]).drop_last() =~= a);
    }
}

/// What is part of a sequence is part of a longer one.
proof fn lemma_part_of_longer(a: Seq<Coord>, b: Seq<Coord>, c: Coord)
    requires
        is_part_of(a, b),
    ensures
        is_part_of(a, b.push(c)),
{
    assert(b.push(c).drop_last() =~= b);
}

/// A line whose ends reach the threshold keeps them.
proof fn lemma_ends_kept(line: Seq<Coord>, imp: Seq<u16>, pos: int, q: u16)
    requires
        line.len() > 0,
        pos + line.len() <= imp.len(),
        imp[pos] >= q,
    ensures
        kept(line, imp, pos, q).len() > 0,
        kept(line, imp, pos, q)[0] == line[0],
        imp[pos + line.len() - 1] >= q ==> kept(line, imp, pos, q).last() == line.last(),
    decreases line.len(),
{
    if line.len() > 1 {
        lemma_ends_kept(line.drop_last(), imp, pos, q);
    } else {
        assert(kept(line.drop_last(), imp, pos, q) =~= Seq::<Coord>::empty());
    }
}

/// The rings, each of them closed.
spec fn closed_rings(rings: Seq<Seq<Coord>>) -> Seq<Seq<Coord>> {
    rings.map_values(|r: Seq<Coord>| closed(r))
}

proof fn lemma_chained_push(lines: Seq<Seq<Coord>>, line: Seq<Coord>)
    ensures
        chained(lines.push(line)) == chained(lines) + line,
{
    assert(lines.push(line).drop_last() =~= lines);
}

proof fn lemma_rings_nest(rings: Seq<Seq<Coord>>, imp: Seq<u16>, pos: int, low: u16, high: u16)
    requires
        low <= high,
        rings_nest(rings, imp, pos, low, high),
    ensures
        is_part_of(
            chained(closed_rings(kept_lines(rings, imp, pos, high, 4))),
            chained(closed_rings(kept_lines(rings, imp, pos, low, 4))),
        ),
    decreases rings.len(),
{
    let a = kept_lines(rings, imp, pos, high, 4);
    let b = kept_lines(rings, imp, pos, low, 4);
    if rings.len() == 0 {
        lemma_part_of_itself(chained(closed_rings(a)));
    } else {
        let init = rings.drop_last();
        let at = pos + chained(init).len();
        let ring = rings.last();
        lemma_rings_nest(init, imp, pos, low, high);
        law_kept_nests(ring, imp, at, low, high);
        let a0 = kept_lines(init, imp, pos, high, 4);
        let b0 = kept_lines(init, imp, pos, low, 4);
        let ka = kept(ring, imp, at, high);
        let kb = kept(ring, imp, at, low);
        assert(closed_rings(a0.push(ka)) =~= closed_rings(a0).push(closed(ka)));
        assert(closed_rings(b0.push(kb)) =~= closed_rings(b0).push(closed(kb)));
        lemma_chained_push(closed_rings(a0), closed(ka));
        lemma_chained_push(closed_rings(b0), closed(kb));
        let ca = chained(closed_rings(a0));
        let cb = chained(closed_rings(b0));
        if ka.len() >= 4 {
            lemma_parts_join(ca, cb, closed(ka), closed(kb));
        } else if kb.len() >= 4 {
            lemma_part_of_itself(closed(kb));
            lemma_parts_join(ca, cb, Seq::empty(), closed(kb));
            assert(ca + Seq::<Coord>::empty() =~= ca);
        }
    }
}

proof fn lemma_lines_nest(lines: Seq<Seq<Coord>>, imp: Seq<u16>, pos: int, low: u16, high: u16)
    requires
        low <= high,
    ensures
        is_part_of(
            chained(kept_lines(lines, imp, pos, high, 2)),
            chained(kept_lines(lines, imp, pos, low, 2)),
        ),
    decreases lines.len(),
{
    if lines.len() == 0 {
        lemma_part_of_itself(chained(kept_lines(lines, imp, pos, high, 2)));
    } else {
        let init = lines.drop_last();
        let at = pos + chained(init).len();
        lemma_lines_nest(init, imp, pos, low, high);
        law_kept_nests(lines.last(), imp, at, low, high);
        let a0 = kept_lines(init, imp, pos, high, 2);
        let b0 = kept_lines(init, imp, pos, low, 2);
        let ka = kept(lines.last(), imp, at, high);
        let kb = kept(lines.last(), imp, at, low);
        lemma_chained_push(a0, ka);
        lemma_chained_push(b0, kb);
        if ka.len() >= 2 {
            lemma_parts_join(chained(a0), chained(b0), ka, kb);
        } else if kb.len() >= 2 {
            lemma_part_of_itself(kb);
            lemma_parts_join(chained(a0), chained(b0), Seq::empty(), kb);
            assert(chained(a0) + Seq::<Coord>::empty() =~= chained(a0));
        }
    }
}

proof fn lemma_polygon_nests(p: PolygonModel, imp: Seq<u16>, pos: int, low: u16, high: u16)
    requires
        low <= high,
        polygon_nests(p, imp, pos, low, high),
        kept_polygon(p, imp, pos, high) is Some,
    ensures
        kept_polygon(p, imp, pos, low) is Some,
        is_part_of(
            polygon_coords(kept_polygon(p, imp, pos, high)->0),
            polygon_coords(kept_polygon(p, imp, pos, low)->0),
        ),
{
    let at = pos + p.exterior.len();
    law_kept_nests(p.exterior, imp, pos, low, high);
    lemma_rings_nest(p.interiors, imp, at, low, high);
    let a = kept_polygon(p, imp, pos, high)->0;
    let b = kept_polygon(p, imp, pos, low)->0;
    assert(a.interiors =~= closed_rings(kept_lines(p.interiors, imp, at, high, 4)));
    assert(b.interiors =~= closed_rings(kept_lines(p.interiors, imp, at, low, 4)));
    lemma_parts_join(a.exterior, b.exterior, chained(a.interiors), chained(b.interiors));
}

proof fn lemma_polygons_push(ps: Seq<PolygonModel>, p: PolygonModel)
    ensures
        polygons_coords(ps.push(p)) == polygons_coords(ps) + polygon_coords(p),
{
    assert(ps.push(p).drop_last() =~= ps);
}

proof fn lemma_polygons_nest(ps: Seq<PolygonModel>, imp: Seq<u16>, pos: int, low: u16, high: u16)
    requires
        low <= high,
        polygons_nest(ps, imp, pos, low, high),
    ensures
        is_part_of(
            polygons_coords(kept_polygons(ps, imp, pos, high)),
            polygons_coords(kept_polygons(ps, imp, pos, low)),
        ),
    decreases ps.len(),
{
    if ps.len() == 0 {
        lemma_part_of_itself(polygons_coords(kept_polygons(ps, imp, pos, high)));
    } else {
        let init = ps.drop_last();
        let at = pos + polygons_coords(init).len();
        lemma_polygons_nest(init, imp, pos, low, high);
        let a0 = kept_polygons(init, imp, pos, high);
        let b0 = kept_polygons(init, imp, pos, low);
        let ca = polygons_coords(a0);
        let cb = polygons_coords(b0);
        let a = kept_polygon(ps.last(), imp, at, high);
        let b = kept_polygon(ps.last(), imp, at, low);
        if a is Some {
            lemma_polygon_nests(ps.last(), imp, at, low, high);
            lemma_polygons_push(a0, a->0);
            lemma_polygons_push(b0, b->0);
            lemma_parts_join(ca, cb, polygon_coords(a->0), polygon_coords(b->0));
        } else if b is Some {
            lemma_polygons_push(b0, b->0);
            lemma_part_of_itself(polygon_coords(b->0));
            lemma_parts_join(ca, cb, Seq::empty(), polygon_coords(b->0));
            assert(ca + Seq::<Coord>::empty() =~= ca);
        }
    }
}

proof fn lemma_geometries_push(gs: Seq<GeometryModel>, g: GeometryModel)
    ensures
        geometries_coords(gs.push(g)) == geometries_coords(gs) + geometry_coords(g),
{
    assert(gs.push(g).drop_last() =~= gs);
}

proof fn lemma_geometries_nest(
    gs: Seq<GeometryModel>,
    imp: Seq<u16>,
    pos: int,
    low: u16,
    high: u16,
)
    requires
        low <= high,
        geometries_nest(gs, imp, pos, low, high),
    ensures
        is_part_of(
            geometries_coords(kept_geometries(gs, imp, pos, high)),
            geometries_coords(kept_geometries(gs, imp, pos, low)),
        ),
    decreases gs,
{
    if gs.len() == 0 {
        lemma_part_of_itself(geometries_coords(kept_geometries(gs, imp, pos, high)));
    } else {
        let init = gs.drop_last();
        let at = pos + geometries_coords(init).len();
        lemma_geometries_nest(init, imp, pos, low, high);
        let a0 = kept_geometries(init, imp, pos, high);
        let b0 = kept_geometries(init, imp, pos, low);
        let ca = geometries_coords(a0);
        let cb = geometries_coords(b0);
        let a = kept_geometry(gs.last(), imp, at, high);
        let b = kept_geometry(gs.last(), imp, at, low);
        if a is Some {
            law_coords_nest(gs.last(), imp, at, low, high);
            lemma_geometries_push(a0, a->0);
            lemma_geometries_push(b0, b->0);
            lemma_parts_join(ca, cb, geometry_coords(a->0), geometry_coords(b->0));
        } else if b is Some {
            lemma_geometries_push(b0, b->0);
            lemma_part_of_itself(geometry_coords(b->0));
            lemma_parts_join(ca, cb, Seq::empty(), geometry_coords(b->0));
            assert(ca + Seq::<Coord>::empty() =~= ca);
        }
    }
}

/// Filtering a whole geometry nests: what survives a threshold survives every
/// lower one, and its coordinates are among those that the lower one keeps, in
/// the same order. Each ring has to nest: see [`law_ring_nests`] for when it
/// does, and [`law_computed_coords_nest`] for importance that was computed.
pub proof fn law_coords_nest(g: GeometryModel, imp: Seq<u16>, pos: int, low: u16, high: u16)
    requires
        low <= high,
        all_rings_nest(g, imp, pos, low, high),
        kept_geometry(g, imp, pos, high) is Some,
    ensures
        kept_geometry(g, imp, pos, low) is Some,
        is_part_of(
            geometry_coords(kept_geometry(g, imp, pos, high)->0),
            geometry_coords(kept_geometry(g, imp, pos, low)->0),
        ),
    decreases g,
{
    law_survival_is_monotone(g, imp, pos, low, high);
    match g {
        GeometryModel::LineString(line) => {
            law_kept_nests(line, imp, pos, low, high);
        },
        GeometryModel::MultiLineString(lines) => {
            lemma_lines_nest(lines, imp, pos, low, high);
        },
        GeometryModel::Polygon(p) => {
            lemma_polygon_nests(p, imp, pos, low, high);
        },
        GeometryModel::MultiPolygon(ps) => {
            lemma_polygons_nest(ps, imp, pos, low, high);
        },
        GeometryModel::GeometryCollection(gs) => {
            lemma_geometries_nest(gs, imp, pos, low, high);
        },
        _ => {
            lemma_part_of_itself(geometry_coords(g));
        },
    }
}

/// The values stand in an importance array at `pos`.
spec fn values_at(imp: Seq<u16>, pos: int, values: Seq<u16>) -> bool {
    &&& 0 <= pos
    &&& pos + values.len() <= imp.len()
    &&& imp.subrange(pos, pos + values.len()) == values
}

proof fn lemma_values_split(imp: Seq<u16>, pos: int, a: Seq<u16>, b: Seq<u16>)
    requires
        values_at(imp, pos, a + b),
    ensures
        values_at(imp, pos, a),
        values_at(imp, pos + a.len(), b),
{
    let whole = imp.subrange(pos, pos + (a + b).len());
    assert(whole.subrange(0, a.len() as int) =~= a);
    assert(whole.subrange(a.len() as int, (a + b).len() as int) =~= b);
    assert(imp.subrange(pos, pos + a.len()) =~= a);
    assert(imp.subrange(pos + a.len(), pos + a.len() + b.len()) =~= b);
}

proof fn lemma_computed_ring_nests<
    F: Fn(Coord) -> Coord,
    D: Fn((Coord, Coord, Coord)) -> u64,
    Q: Fn(u64) -> u16,
>(
    ring: Seq<Coord>,
    project: F,
    dist: D,
    quantize: Q,
    imp: Seq<u16>,
    pos: int,
    low: u16,
    high: u16,
)
    requires
        low <= high,
        values_at(imp, pos, line_values(mapped_line(ring, project), dist, quantize)),
    ensures
        ring_nests(ring, imp, pos, low, high),
{
    let values = line_values(mapped_line(ring, project), dist, quantize);
    let n = values.len() as int;
    if n > 0 {
        assert(imp.subrange(pos, pos + n)[0] == values[0]);
        assert(imp.subrange(pos, pos + n)[n - 1] == values[n - 1]);
        law_ring_nests(ring, imp, pos, low, high);
    }
}

proof fn lemma_computed_rings_nest<
    F: Fn(Coord) -> Coord,
    D: Fn((Coord, Coord, Coord)) -> u64,
    Q: Fn(u64) -> u16,
>(
    rings: Seq<Seq<Coord>>,
    project: F,
    dist: D,
    quantize: Q,
    imp: Seq<u16>,
    pos: int,
    low: u16,
    high: u16,
)
    requires
        low <= high,
        values_at(imp, pos, lines_values(mapped_lines(rings, project), dist, quantize)),
    ensures
        lines_values(mapped_lines(rings, project), dist, quantize).len() == chained(rings).len(),
        rings_nest(rings, imp, pos, low, high),
    decreases rings.len(),
{
    if rings.len() > 0 {
        let all = mapped_lines(rings, project);
        let init = rings.drop_last();
        assert(all.drop_last() =~= mapped_lines(init, project));
        let a = lines_values(mapped_lines(init, project), dist, quantize);
        lemma_values_split(imp, pos, a, line_values(all.last(), dist, quantize));
        lemma_computed_rings_nest(init, project, dist, quantize, imp, pos, low, high);
        lemma_computed_ring_nests(
            rings.last(),
            project,
            dist,
            quantize,
            imp,
            pos + a.len(),
            low,
            high,
        );
    }
}

proof fn lemma_computed_polygon_nests<
    F: Fn(Coord) -> Coord,
    D: Fn((Coord, Coord, Coord)) -> u64,
    Q: Fn(u64) -> u16,
>(
    p: PolygonModel,
    project: F,
    dist: D,
    quantize: Q,
    imp: Seq<u16>,
    pos: int,
    low: u16,
    high: u16,
)
    requires
        low <= high,
        values_at(imp, pos, polygon_values(mapped_polygon(p, project), dist, quantize)),
    ensures
        polygon_values(mapped_polygon(p, project), dist, quantize).len() == polygon_coords(p).len(),
        polygon_nests(p, imp, pos, low, high),
{
    let m = mapped_polygon(p, project);
    let a = line_values(m.exterior, dist, quantize);
    lemma_values_split(imp, pos, a, lines_values(m.interiors, dist, quantize));
    lemma_computed_ring_nests(p.exterior, project, dist, quantize, imp, pos, low, high);
    lemma_computed_rings_nest(p.interiors, project, dist, quantize, imp, pos + a.len(), low, high);
}

proof fn lemma_computed_polygons_nest<
    F: Fn(Coord) -> Coord,
    D: Fn((Coord, Coord, Coord)) -> u64,
    Q: Fn(u64) -> u16,
>(
    ps: Seq<PolygonModel>,
    project: F,
    dist: D,
    quantize: Q,
    imp: Seq<u16>,
    pos: int,
    low: u16,
    high: u16,
)
    requires
        low <= high,
        values_at(
            imp,
            pos,
            polygons_values(
                Seq::new(ps.len(), |i: int| mapped_polygon(ps[i], project)),
                dist,
                quantize,
            ),
        ),
    ensures
        polygons_values(
            Seq::new(ps.len(), |i: int| mapped_polygon(ps[i], project)),
            dist,
            quantize,
        ).len() == polygons_coords(ps).len(),
        polygons_nest(ps, imp, pos, low, high),
    decreases ps.len(),
{
    if ps.len() > 0 {
        let all = Seq::new(ps.len(), |i: int| mapped_polygon(ps[i], project));
        let init = ps.drop_last();
        let before = Seq::new(init.len(), |i: int| mapped_polygon(init[i], project));
        assert(all.drop_last() =~= before);
        let a = polygons_values(before, dist, quantize);
        lemma_values_split(imp, pos, a, polygon_values(all.last(), dist, quantize));
        lemma_computed_polygons_nest(init, project, dist, quantize, imp, pos, low, high);
        lemma_computed_polygon_nests(
            ps.last(),
            project,
            dist,
            quantize,
            imp,
            pos + a.len(),
            low,
            high,
        );
    }
}

proof fn lemma_computed_geometries_nest<
    F: Fn(Coord) -> Coord,
    D: Fn((Coord, Coord, Coord)) -> u64,
    Q: Fn(u64) -> u16,
>(
    gs: Seq<GeometryModel>,
    project: F,
    dist: D,
    quantize: Q,
    imp: Seq<u16>,
    pos: int,
    low: u16,
    high: u16,
)
    requires
        low <= high,
        all_storable(gs),
        values_at(
            imp,
            pos,
            geometries_values(
                Seq::new(gs.len(), |i: int| mapped(gs[i], project)),
                dist,
                quantize,
            ),
        ),
    ensures
        geometries_values(
            Seq::new(gs.len(), |i: int| mapped(gs[i], project)),
            dist,
            quantize,
        ).len() == geometries_coords(gs).len(),
        geometries_nest(gs, imp, pos, low, high),
    decreases gs,
{
    if gs.len() > 0 {
        let all = Seq::new(gs.len(), |i: int| mapped(gs[i], project));
        let init = gs.drop_last();
        let before = Seq::new(init.len(), |i: int| mapped(init[i], project));
        assert(all.drop_last() =~= before);
        let a = geometries_values(before, dist, quantize);
        lemma_values_split(imp, pos, a, geometry_values(all.last(), dist, quantize));
        lemma_computed_geometries_nest(init, project, dist, quantize, imp, pos, low, high);
        lemma_computed_geometry_nests(
            gs.last(),
            project,
            dist,
            quantize,
            imp,
            pos + a.len(),
            low,
            high,
        );
    }
}

proof fn lemma_computed_geometry_nests<
    F: Fn(Coord) -> Coord,
    D: Fn((Coord, Coord, Coord)) -> u64,
    Q: Fn(u64) -> u16,
>(
    g: GeometryModel,
    project: F,
    dist: D,
    quantize: Q,
    imp: Seq<u16>,
    pos: int,
    low: u16,
    high: u16,
)
    requires
        low <= high,
        storable(g),
        values_at(imp, pos, geometry_values(mapped(g, project), dist, quantize)),
    ensures
        geometry_values(mapped(g, project), dist, quantize).len() == geometry_coords(g).len(),
        all_rings_nest(g, imp, pos, low, high),
    decreases g,
{
    lemma_mapped_storable(g, project);
    law_importance_matches_coords(mapped(g, project), dist, quantize);
    law_mapped_coords(g, project);
    match g {
        GeometryModel::Polygon(p) => {
            lemma_computed_polygon_nests(p, project, dist, quantize, imp, pos, low, high);
        },
        GeometryModel::MultiPolygon(ps) => {
            lemma_computed_polygons_nest(ps, project, dist, quantize, imp, pos, low, high);
        },
        GeometryModel::GeometryCollection(gs) => {
            assert(mapped(g, project)->GeometryCollection_0 =~= Seq::new(
                gs.len(),
                |i: int| mapped(gs[i], project),
            ));
            lemma_computed_geometries_nest(gs, project, dist, quantize, imp, pos, low, high);
        },
        _ => {},
    }
}

/// With the importance array that is computed for it, filtering a geometry
/// nests for any two thresholds: the ends of rings reach both.
#[verifier::spinoff_prover]
pub proof fn law_computed_coords_nest<
    F: Fn(Coord) -> Coord,
    D: Fn((Coord, Coord, Coord)) -> u64,
    Q: Fn(u64) -> u16,
>(
    g: GeometryModel,
    project: F,
    dist: D,
    quantize: Q,
    low: u16,
    high: u16,
)
    requires
        storable(g),
        low <= high,
        kept_geometry(
            g,
            geometry_values(mapped(g, project), dist, quantize),
            0,
            high,
        ) is Some,
    ensures
        ({
            let imp = geometry_values(mapped(g, project), dist, quantize);
            &&& kept_geometry(g, imp, 0, low) is Some
            &&& is_part_of(
                geometry_coords(kept_geometry(g, imp, 0, high)->0),
                geometry_coords(kept_geometry(g, imp, 0, low)->0),
            )
        }),
{
    let imp = geometry_values(mapped(g, project), dist, quantize);
    assert(imp.subrange(0, imp.len() as int) =~= imp);
    lemma_computed_geometry_nests(g, project, dist, quantize, imp, 0, low, high);
    law_coords_nest(g, imp, 0, low, high);
}

// ---- what is kept -------------------------------------------------------------

/// Which of `n` coordinates reach the threshold, by their places in the line.
pub open spec fn reaching(n: nat, imp: Seq<u16>, pos: int, q: u16) -> Seq<int> {
    Seq::new(n, |i: int| i).filter(|i: int| pos + i < imp.len() && imp[pos + i] >= q)
}

/// Filtering a line keeps exactly the coordinates whose importance reaches the
/// threshold, each once and in order.
pub proof fn law_kept_is_what_reaches(line: Seq<Coord>, imp: Seq<u16>, pos: int, q: u16)
    ensures
        kept(line, imp, pos, q).len() == reaching(line.len(), imp, pos, q).len(),
        forall|j: int|
            0 <= j < reaching(line.len(), imp, pos, q).len() ==> 0 <= #[trigger] reaching(
                line.len(),
                imp,
                pos,
                q,
            )[j] < line.len() && kept(line, imp, pos, q)[j] == line[reaching(
                line.len(),
                imp,
                pos,
                q,
            )[j]],
    decreases line.len(),
{
    reveal(Seq::filter);
    let all = Seq::new(line.len(), |i: int| i);
    let places = reaching(line.len(), imp, pos, q);
    if line.len() > 0 {
        let init = line.drop_last();
        law_kept_is_what_reaches(init, imp, pos, q);
        assert(all.drop_last() =~= Seq::new(init.len(), |i: int| i));
        let before = reaching(init.len(), imp, pos, q);
        assert forall|j: int| 0 <= j < places.len() implies 0 <= #[trigger] places[j] < line.len()
            && kept(line, imp, pos, q)[j] == line[places[j]] by {
            if j < before.len() {
                assert(places[j] == before[j]);
            }
        }
    }
}

/// A line is dropped only if fewer than two of its coordinates reach the
/// threshold; otherwise the line of those that do is left.
pub proof fn law_filtered_line(line: Seq<Coord>, imp: Seq<u16>, pos: int, q: u16)
    ensures
        ({
            let left = kept_geometry(GeometryModel::LineString(line), imp, pos, q);
            if reaching(line.len(), imp, pos, q).len() < 2 {
                left is None
            } else {
                left == Some(GeometryModel::LineString(kept(line, imp, pos, q)))
            }
        }),
{
    law_kept_is_what_reaches(line, imp, pos, q);
}

/// Filtering lines gives what filtering each of them gives, one after the
/// other; nothing is left only where nothing is left of any.
pub proof fn law_filtered_lines(
    lines: Seq<Seq<Coord>>,
    line: Seq<Coord>,
    imp: Seq<u16>,
    pos: int,
    q: u16,
)
    ensures
        ({
            let before = kept_geometry(GeometryModel::MultiLineString(lines), imp, pos, q);
            let all = kept_geometry(GeometryModel::MultiLineString(lines.push(line)), imp, pos, q);
            let at = pos + chained(lines).len();
            let last = kept_geometry(GeometryModel::LineString(line), imp, at, q);
            &&& lines_left(all) == lines_left(before) + lines_left(last)
            &&& all is Some <==> lines_left(all).len() > 0
            &&& all matches Some(g) ==> g is MultiLineString
        }),
        kept_geometry(GeometryModel::MultiLineString(Seq::empty()), imp, pos, q) is None,
{
    assert(lines.push(line).drop_last() =~= lines);
    let at = pos + chained(lines).len();
    let before = kept_geometry(GeometryModel::MultiLineString(lines), imp, pos, q);
    let all = kept_geometry(GeometryModel::MultiLineString(lines.push(line)), imp, pos, q);
    let last = kept_geometry(GeometryModel::LineString(line), imp, at, q);
    assert(lines_left(before) =~= kept_lines(lines, imp, pos, q, 2));
    assert(lines_left(all) =~= kept_lines(lines.push(line), imp, pos, q, 2));
    assert(lines_left(all) =~= lines_left(before) + lines_left(last));
}

/// A polygon is dropped only if fewer than four coordinates of its exterior
/// reach the threshold. Otherwise the exterior of those that do is left,
/// closed, and of the holes those that have four or more left, closed, in
/// their order.
pub proof fn law_filtered_polygon(
    exterior: Seq<Coord>,
    holes: Seq<Seq<Coord>>,
    hole: Seq<Coord>,
    imp: Seq<u16>,
    pos: int,
    q: u16,
)
    ensures
        ({
            let bare = PolygonModel { exterior, interiors: Seq::empty() };
            let left = kept_geometry(GeometryModel::Polygon(bare), imp, pos, q);
            if reaching(exterior.len(), imp, pos, q).len() < 4 {
                left is None
            } else {
                left == Some(
                    GeometryModel::Polygon(
                        PolygonModel {
                            exterior: closed(kept(exterior, imp, pos, q)),
                            interiors: Seq::empty(),
                        },
                    ),
                )
            }
        }),
        ({
            let some = PolygonModel { exterior, interiors: holes };
            let more = PolygonModel { exterior, interiors: holes.push(hole) };
            let before = kept_geometry(GeometryModel::Polygon(some), imp, pos, q);
            let all = kept_geometry(GeometryModel::Polygon(more), imp, pos, q);
            let at = pos + exterior.len() + chained(holes).len();
            match before {
                None => all is None,
                Some(GeometryModel::Polygon(b)) => all == Some(
                    GeometryModel::Polygon(
                        PolygonModel {
                            exterior: b.exterior,
                            interiors: if reaching(hole.len(), imp, at, q).len() < 4 {
                                b.interiors
                            } else {
                                b.interiors.push(closed(kept(hole, imp, at, q)))
                            },
                        },
                    ),
                ),
                _ => false,
            }
        }),
{
    let at = pos + exterior.len();
    law_kept_is_what_reaches(exterior, imp, pos, q);
    law_kept_is_what_reaches(hole, imp, at + chained(holes).len(), q);
    let bare = kept_polygon(
        PolygonModel { exterior, interiors: Seq::empty() },
        imp,
        pos,
        q,
    );
    if bare is Some {
        assert(bare->0.interiors =~= Seq::<Seq<Coord>>::empty());
    }
    assert(holes.push(hole).drop_last() =~= holes);
    let some = kept_polygon(PolygonModel { exterior, interiors: holes }, imp, pos, q);
    let more = kept_polygon(PolygonModel { exterior, interiors: holes.push(hole) }, imp, pos, q);
    if some is Some {
        let rest = kept(hole, imp, at + chained(holes).len(), q);
        if rest.len() >= 4 {
            assert(more->0.interiors =~= some->0.interiors.push(closed(rest)));
        } else {
            assert(more->0.interiors =~= some->0.interiors);
        }
    }
}

/// Filtering polygons, and filtering a collection, gives what filtering each
/// member gives, one after the other; nothing is left only where nothing is
/// left of any.
pub proof fn law_filtered_members(
    ps: Seq<PolygonModel>,
    p: PolygonModel,
    gs: Seq<GeometryModel>,
    g: GeometryModel,
    imp: Seq<u16>,
    pos: int,
    q: u16,
)
    ensures
        ({
            let before = kept_geometry(GeometryModel::MultiPolygon(ps), imp, pos, q);
            let all = kept_geometry(GeometryModel::MultiPolygon(ps.push(p)), imp, pos, q);
            let at = pos + polygons_coords(ps).len();
            let last = kept_geometry(GeometryModel::Polygon(p), imp, at, q);
            &&& polygons_left(all) == polygons_left(before) + polygons_left(last)
            &&& all is Some <==> polygons_left(all).len() > 0
            &&& all matches Some(r) ==> r is MultiPolygon
        }),
        ({
            let before = kept_geometry(GeometryModel::GeometryCollection(gs), imp, pos, q);
            let all = kept_geometry(GeometryModel::GeometryCollection(gs.push(g)), imp, pos, q);
            let at = pos + geometries_coords(gs).len();
            let last = kept_geometry(g, imp, at, q);
            &&& geometries_left(all) == match last {
                Some(r) => geometries_left(before).push(r),
                None => geometries_left(before),
            }
            &&& all is Some <==> geometries_left(all).len() > 0
            &&& all matches Some(r) ==> r is GeometryCollection
        }),
        kept_geometry(GeometryModel::MultiPolygon(Seq::empty()), imp, pos, q) is None,
        kept_geometry(GeometryModel::GeometryCollection(Seq::empty()), imp, pos, q) is None,
{
    reveal_with_fuel(kept_geometry, 3);
    reveal_with_fuel(kept_geometries, 2);
    assert(ps.push(p).drop_last() =~= ps);
    assert(gs.push(g).drop_last() =~= gs);
    let before = kept_geometry(GeometryModel::MultiPolygon(ps), imp, pos, q);
    let all = kept_geometry(GeometryModel::MultiPolygon(ps.push(p)), imp, pos, q);
    let at = pos + polygons_coords(ps).len();
    let last = kept_geometry(GeometryModel::Polygon(p), imp, at, q);
    assert(polygons_left(before) =~= kept_polygons(ps, imp, pos, q));
    assert(polygons_left(all) =~= kept_polygons(ps.push(p), imp, pos, q));
    assert(polygons_left(all) =~= polygons_left(before) + polygons_left(last));
    let some = kept_geometry(GeometryModel::GeometryCollection(gs), imp, pos, q);
    let more = kept_geometry(GeometryModel::GeometryCollection(gs.push(g)), imp, pos, q);
    assert(geometries_left(some) =~= kept_geometries(gs, imp, pos, q));
    assert(geometries_left(more) =~= kept_geometries(gs.push(g), imp, pos, q));
}

/// A ring that filtering can leave as it is: four coordinates or more, the
/// last equal to the first.
pub open spec fn is_ring(ring: Seq<Coord>) -> bool {
    ring.len() >= 4 && coord_eq(ring[0], ring[ring.len() - 1])
}

/// All rings of a polygon are rings.
pub open spec fn has_rings(p: PolygonModel) -> bool {
    is_ring(p.exterior) && forall|i: int|
        0 <= i < p.interiors.len() ==> is_ring(#[trigger] p.interiors[i])
}

/// A geometry with nothing degenerate in it: every line has two coordinates
/// or more, every ring is one, and nothing has no parts.
pub open spec fn is_proper(g: GeometryModel) -> bool
    decreases g,
{
    match g {
        GeometryModel::LineString(line) => line.len() >= 2,
        GeometryModel::MultiLineString(lines) => lines.len() > 0 && forall|i: int|
            0 <= i < lines.len() ==> (#[trigger] lines[i]).len() >= 2,
        GeometryModel::Polygon(p) => has_rings(p),
        GeometryModel::MultiPolygon(ps) => ps.len() > 0 && forall|i: int|
            0 <= i < ps.len() ==> has_rings(#[trigger] ps[i]),
        GeometryModel::GeometryCollection(gs) => gs.len() > 0 && all_proper(gs),
        _ => true,
    }
}

/// All geometries are proper.
pub open spec fn all_proper(gs: Seq<GeometryModel>) -> bool
    decreases gs,
{
    gs.len() > 0 ==> all_proper(gs.drop_last()) && is_proper(gs.last())
}

/// `n` entries from `pos` on all reach the threshold.
pub open spec fn all_reach(imp: Seq<u16>, pos: int, n: int, q: u16) -> bool {
    &&& 0 <= pos
    &&& pos + n <= imp.len()
    &&& forall|i: int| pos <= i < pos + n ==> #[trigger] imp[i] >= q
}

proof fn lemma_lines_unchanged(
    lines: Seq<Seq<Coord>>,
    imp: Seq<u16>,
    pos: int,
    q: u16,
    least: nat,
)
    requires
        forall|i: int| 0 <= i < lines.len() ==> (#[trigger] lines[i]).len() >= least,
        all_reach(imp, pos, chained(lines).len() as int, q),
    ensures
        kept_lines(lines, imp, pos, q, least) == lines,
    decreases lines.len(),
{
    if lines.len() > 0 {
        let init = lines.drop_last();
        lemma_lines_unchanged(init, imp, pos, q, least);
        law_all_important_is_unchanged(lines.last(), imp, pos + chained(init).len(), q);
        assert(init.push(lines.last()) =~= lines);
        assert(lines[lines.len() - 1].len() >= least);
    } else {
        assert(kept_lines(lines, imp, pos, q, least) =~= lines);
    }
}

proof fn lemma_polygon_unchanged(p: PolygonModel, imp: Seq<u16>, pos: int, q: u16)
    requires
        has_rings(p),
        all_reach(imp, pos, polygon_coords(p).len() as int, q),
    ensures
        kept_polygon(p, imp, pos, q) == Some(p),
{
    law_all_important_is_unchanged(p.exterior, imp, pos, q);
    lemma_lines_unchanged(p.interiors, imp, pos + p.exterior.len(), q, 4);
    let r = kept_polygon(p, imp, pos, q)->0;
    assert forall|i: int| 0 <= i < p.interiors.len() implies r.interiors[i] == p.interiors[i] by {
        assert(is_ring(p.interiors[i]));
    }
    assert(r.interiors =~= p.interiors);
}

proof fn lemma_polygons_unchanged(ps: Seq<PolygonModel>, imp: Seq<u16>, pos: int, q: u16)
    requires
        forall|i: int| 0 <= i < ps.len() ==> has_rings(#[trigger] ps[i]),
        all_reach(imp, pos, polygons_coords(ps).len() as int, q),
    ensures
        kept_polygons(ps, imp, pos, q) == ps,
    decreases ps.len(),
{
    if ps.len() > 0 {
        let init = ps.drop_last();
        lemma_polygons_unchanged(init, imp, pos, q);
        assert(has_rings(ps[ps.len() - 1]));
        lemma_polygon_unchanged(ps.last(), imp, pos + polygons_coords(init).len(), q);
        assert(init.push(ps.last()) =~= ps);
    } else {
        assert(kept_polygons(ps, imp, pos, q) =~= ps);
    }
}

proof fn lemma_geometries_unchanged(gs: Seq<GeometryModel>, imp: Seq<u16>, pos: int, q: u16)
    requires
        all_proper(gs),
        all_reach(imp, pos, geometries_coords(gs).len() as int, q),
    ensures
        kept_geometries(gs, imp, pos, q) == gs,
    decreases gs,
{
    if gs.len() > 0 {
        let init = gs.drop_last();
        lemma_geometries_unchanged(init, imp, pos, q);
        law_all_important_geometry_is_unchanged(
            gs.last(),
            imp,
            pos + geometries_coords(init).len(),
            q,
        );
        assert(init.push(gs.last()) =~= gs);
    } else {
        assert(kept_geometries(gs, imp, pos, q) =~= gs);
    }
}

/// Where every coordinate reaches the threshold, filtering leaves a geometry of
/// any kind as it is, unless something in it is degenerate already.
pub proof fn law_all_important_geometry_is_unchanged(
    g: GeometryModel,
    imp: Seq<u16>,
    pos: int,
    q: u16,
)
    requires
        is_proper(g),
        all_reach(imp, pos, geometry_coords(g).len() as int, q),
    ensures
        kept_geometry(g, imp, pos, q) == Some(g),
    decreases g,
{
    match g {
        GeometryModel::LineString(line) => {
            law_all_important_is_unchanged(line, imp, pos, q);
        },
        GeometryModel::MultiLineString(lines) => {
            lemma_lines_unchanged(lines, imp, pos, q, 2);
        },
        GeometryModel::Polygon(p) => {
            lemma_polygon_unchanged(p, imp, pos, q);
        },
        GeometryModel::MultiPolygon(ps) => {
            lemma_polygons_unchanged(ps, imp, pos, q);
        },
        GeometryModel::GeometryCollection(gs) => {
            lemma_geometries_unchanged(gs, imp, pos, q);
        },
        _ => {},
    }
}

/// Points stay, whatever their importance.
pub proof fn law_points_stay(c: Coord, points: Seq<Coord>, imp: Seq<u16>, pos: int, q: u16)
    ensures
        kept_geometry(GeometryModel::Point(c), imp, pos, q) == Some(GeometryModel::Point(c)),
        kept_geometry(GeometryModel::MultiPoint(points), imp, pos, q) == Some(
            GeometryModel::MultiPoint(points),
        ),
{
}

// ---- which features are too small ----------------------------------------------

/// A projected coordinate is a pair of numbers.
pub open spec fn is_placed<P: Fn(Coord) -> Coord>(project: P, c: Coord) -> bool {
    place(value_of(project, c).x) is Some && place(value_of(project, c).y) is Some
}

/// The bounds of coordinates hold them all, and each is the number of one of
/// them. There are none only where there are no coordinates.
pub proof fn law_bounds_are_tight<P: Fn(Coord) -> Coord>(coords: Seq<Coord>, project: P)
    requires
        forall|i: int| 0 <= i < coords.len() ==> is_placed(project, #[trigger] coords[i]),
    ensures
        match bounds_of(coords, project) {
            None => coords.len() == 0,
            Some((min_x, min_y, max_x, max_y)) => {
                &&& coords.len() > 0
                &&& forall|i: int|
                    0 <= i < coords.len() ==> {
                        let c = value_of(project, #[trigger] coords[i]);
                        &&& num_le(min_x, c.x) && num_le(c.x, max_x)
                        &&& num_le(min_y, c.y) && num_le(c.y, max_y)
                    }
                &&& exists|i: int|
                    0 <= i < coords.len() && value_of(project, #[trigger] coords[i]).x == min_x
                &&& exists|i: int|
                    0 <= i < coords.len() && value_of(project, #[trigger] coords[i]).x == max_x
                &&& exists|i: int|
                    0 <= i < coords.len() && value_of(project, #[trigger] coords[i]).y == min_y
                &&& exists|i: int|
                    0 <= i < coords.len() && value_of(project, #[trigger] coords[i]).y == max_y
            },
        },
    decreases coords.len(),
{
    if coords.len() > 0 {
        let init = coords.drop_last();
        let n = coords.len() - 1;
        assert forall|i: int| 0 <= i < init.len() implies is_placed(
            project,
            #[trigger] init[i],
        ) by {
            assert(init[i] == coords[i]);
        }
        law_bounds_are_tight(init, project);
        assert(is_placed(project, coords[n]));
        if let Some((a, b, d, e)) = bounds_of(init, project) {
            let (min_x, min_y, max_x, max_y) = bounds_of(coords, project)->0;
            let ia = choose|i: int|
                0 <= i < init.len() && value_of(project, #[trigger] init[i]).x == a;
            let ib = choose|i: int|
                0 <= i < init.len() && value_of(project, #[trigger] init[i]).y == b;
            let id = choose|i: int|
                0 <= i < init.len() && value_of(project, #[trigger] init[i]).x == d;
            let ie = choose|i: int|
                0 <= i < init.len() && value_of(project, #[trigger] init[i]).y == e;
            assert(coords[ia] == init[ia] && coords[ib] == init[ib]);
            assert(coords[id] == init[id] && coords[ie] == init[ie]);
            assert(is_placed(project, coords[ia]) && is_placed(project, coords[ib]));
            assert(is_placed(project, coords[id]) && is_placed(project, coords[ie]));
            assert forall|i: int| 0 <= i < coords.len() implies ({
                let c = value_of(project, #[trigger] coords[i]);
                &&& num_le(min_x, c.x) && num_le(c.x, max_x)
                &&& num_le(min_y, c.y) && num_le(c.y, max_y)
            }) by {
                if i < n {
                    assert(init[i] == coords[i]);
                }
                assert(is_placed(project, coords[i]));
            }
        } else {
            assert(coords[n] == coords[0]);
        }
    }
}

/// What lies between two numbers that are narrow is narrow too.
pub open spec fn is_distance_test<N: Fn((u64, u64, u64)) -> bool>(narrow: N, extent: u64) -> bool {
    forall|low: u64, a: u64, b: u64, high: u64|
        num_le(low, a) && num_le(a, b) && num_le(b, high) && #[trigger] value_of(
            narrow,
            (low, high, extent),
        ) ==> #[trigger] value_of(narrow, (a, b, extent))
}

/// Two of the coordinates are apart by the extent or more, in one dimension.
pub open spec fn has_extent<P: Fn(Coord) -> Coord, N: Fn((u64, u64, u64)) -> bool>(
    coords: Seq<Coord>,
    extent: u64,
    project: P,
    narrow: N,
) -> bool {
    exists|i: int, j: int|
        {
            let a = value_of(project, #[trigger] coords[i]);
            let b = value_of(project, #[trigger] coords[j]);
            &&& 0 <= i < coords.len() && 0 <= j < coords.len()
            &&& {
                ||| num_le(a.x, b.x) && !value_of(narrow, (a.x, b.x, extent))
                ||| num_le(a.y, b.y) && !value_of(narrow, (a.y, b.y, extent))
            }
        }
}

/// A line or a polygon is too small exactly if no two of its coordinates are
/// apart by the least extent or more, neither from west to east nor from north
/// to south: wide or high is enough. Points are never too small.
pub proof fn law_too_small_in_both_dimensions<
    P: Fn(Coord) -> Coord,
    N: Fn((u64, u64, u64)) -> bool,
>(
    g: GeometryModel,
    min_extent: u64,
    project: P,
    narrow: N,
)
    requires
        is_distance_test(narrow, min_extent),
        forall|i: int|
            0 <= i < geometry_coords(g).len() ==> is_placed(
                project,
                #[trigger] geometry_coords(g)[i],
            ),
    ensures
        g is Point || g is MultiPoint ==> !too_small(g, min_extent, project, narrow),
        !(g is Point || g is MultiPoint) ==> too_small(g, min_extent, project, narrow)
            == !has_extent(geometry_coords(g), min_extent, project, narrow),
{
    let coords = geometry_coords(g);
    law_bounds_are_tight(coords, project);
    if !(g is Point || g is MultiPoint) {
        if let Some((min_x, min_y, max_x, max_y)) = bounds_of(coords, project) {
            let wide = !value_of(narrow, (min_x, max_x, min_extent));
            let high = !value_of(narrow, (min_y, max_y, min_extent));
            let w = choose|i: int|
                0 <= i < coords.len() && value_of(project, #[trigger] coords[i]).x == min_x;
            let e = choose|i: int|
                0 <= i < coords.len() && value_of(project, #[trigger] coords[i]).x == max_x;
            let n = choose|i: int|
                0 <= i < coords.len() && value_of(project, #[trigger] coords[i]).y == min_y;
            let s = choose|i: int|
                0 <= i < coords.len() && value_of(project, #[trigger] coords[i]).y == max_y;
            assert(coords[w] == coords[w] && coords[e] == coords[e]);
            assert(coords[n] == coords[n] && coords[s] == coords[s]);
            if wide || high {
                assert(has_extent(coords, min_extent, project, narrow));
            }
            if has_extent(coords, min_extent, project, narrow) {
                let (i, j) = choose|i: int, j: int|
                    {
                        let a = value_of(project, #[trigger] coords[i]);
                        let b = value_of(project, #[trigger] coords[j]);
                        &&& 0 <= i < coords.len() && 0 <= j < coords.len()
                        &&& {
                            ||| num_le(a.x, b.x) && !value_of(narrow, (a.x, b.x, min_extent))
                            ||| num_le(a.y, b.y) && !value_of(narrow, (a.y, b.y, min_extent))
                        }
                    };
                let a = value_of(project, coords[i]);
                let b = value_of(project, coords[j]);
                assert(num_le(min_x, a.x) && num_le(b.x, max_x));
                assert(num_le(min_y, a.y) && num_le(b.y, max_y));
            }
        }
    }
}

/// A part begins in an importance array if its first entry stands in the array
/// or right behind it; a geometry does if all its parts do, each behind the
/// coordinates of those before it.
pub proof fn law_where_parts_begin(
    points: Seq<Coord>,
    line: Seq<Coord>,
    lines: Seq<Seq<Coord>>,
    p: PolygonModel,
    ps: Seq<PolygonModel>,
    g: GeometryModel,
    gs: Seq<GeometryModel>,
    pos: int,
    n: int,
)
    ensures
        begins(GeometryModel::MultiPoint(points), pos, n) <==> pos <= n,
        begins(GeometryModel::LineString(line), pos, n) <==> pos <= n,
        begins(GeometryModel::MultiLineString(lines.push(line)), pos, n) <==> begins(
            GeometryModel::MultiLineString(lines),
            pos,
            n,
        ) && pos + chained(lines).len() <= n,
        begins(GeometryModel::Polygon(p), pos, n) <==> pos <= n && begins(
            GeometryModel::MultiLineString(p.interiors),
            pos + p.exterior.len(),
            n,
        ),
        begins(GeometryModel::MultiPolygon(ps.push(p)), pos, n) <==> begins(
            GeometryModel::MultiPolygon(ps),
            pos,
            n,
        ) && begins(GeometryModel::Polygon(p), pos + polygons_coords(ps).len(), n),
        begins(GeometryModel::GeometryCollection(gs.push(g)), pos, n) <==> begins(
            GeometryModel::GeometryCollection(gs),
            pos,
            n,
        ) && begins(g, pos + geometries_coords(gs).len(), n),
        begins(GeometryModel::MultiLineString(Seq::empty()), pos, n),
        begins(GeometryModel::MultiPolygon(Seq::empty()), pos, n),
        begins(GeometryModel::GeometryCollection(Seq::empty()), pos, n),
{
    reveal_with_fuel(begins, 3);
    reveal_with_fuel(all_begin, 2);
    assert(lines.push(line).drop_last() =~= lines);
    assert(ps.push(p).drop_last() =~= ps);
    assert(gs.push(g).drop_last() =~= gs);
}

/// The lesser and the greater of two numbers are one of them each, and in
/// order; what is no number gives way to the other one.
pub proof fn law_lesser_and_greater(a: u64, b: u64)
    ensures
        place(a) is None ==> lesser(a, b) == b && greater(a, b) == b,
        place(a) is Some && place(b) is None ==> lesser(a, b) == a && greater(a, b) == a,
        place(a) is Some && place(b) is Some ==> {
            &&& num_le(lesser(a, b), a) && num_le(lesser(a, b), b)
            &&& num_le(a, greater(a, b)) && num_le(b, greater(a, b))
            &&& lesser(a, b) == a || lesser(a, b) == b
            &&& greater(a, b) == a || greater(a, b) == b
        },
{
}

/// Shapes that no layer holds are not filtered.
pub proof fn law_other_shapes_stay(g: GeometryModel, imp: Seq<u16>, pos: int, q: u16)
    requires
        g is Line || g is Rect || g is Triangle,
    ensures
        kept_geometry(g, imp, pos, q) == Some(g),
{
}

} // verus!
