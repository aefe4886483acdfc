//! MVT tile rendering: query, clip to tile, encode protobuf. The query runs
//! through [`crate::decoder`], the encoding is up to the caller; here is
//! decided what goes into the tile.

use crate::clip::{clip_geometry, clipped, Edges, Rect};
use crate::clip::{
    is_clippable, is_sound, is_upright, law_clipped_lies_in_rect,
    law_geometry_in_rect_is_unchanged, line_inside, stays_between, stays_inside,
};
use crate::decoder::{
    baseline_route, features_of, route_for, FgboReader, TileFeature, TileFeatureModel, TileRoute,
    TileSource,
};
use crate::decoder::{
    is_open_for, law_queries_agree, queried, true_to, QuerySessions, ReaderModel,
};
use crate::fgb::{named_of, PropModel, PropValue, SearchResultItem, SectionModel};
use crate::format::level_for_zoom;
use crate::function::is_function;
use crate::geometry::{geometry_coords, map_coords, mapped, Coord, Geometry, GeometryModel};
use vstd::prelude::*;

verus! {

/// Tile rendering options.
#[derive(Debug, Clone, PartialEq)]
pub struct TileOptions {
    /// MVT extent (coordinate units per tile side).
    pub extent: u32,
    /// Tile buffer in extent units (clip margin).
    pub buffer: u32,
    /// Layer name override; defaults to the fgb layer name.
    pub layer_name: Option<String>,
    /// Use the plain-fgb baseline path (ignore FGBO sections).
    pub baseline: bool,
}

impl Default for TileOptions {
    fn default() -> (o: TileOptions)
        ensures
            o.extent == 4096,
            o.buffer == 64,
            o.layer_name is None,
            !o.baseline,
    {
        TileOptions { extent: 4096, buffer: 64, layer_name: None, baseline: false }
    }
}

/// Tile rendering result.
#[derive(Debug, Clone, PartialEq)]
pub struct RenderedTile {
    /// MVT protobuf bytes (uncompressed).
    pub data: Vec<u8>,
    /// Number of features written.
    pub feature_count: usize,
    /// Which FGBO path served the query.
    pub source: TileSource,
}

/// How a reader serves a tile at zoom `z`; the baseline ignores all FGBO
/// sections.
pub open spec fn route_of(m: ReaderModel, z: u8, baseline: bool) -> TileRoute {
    if baseline {
        baseline_route()
    } else {
        route_for(m.directory, z)
    }
}

/// How a tile at zoom `z` is served with these options.
pub fn tile_route(reader: &FgboReader, z: u8, opts: &TileOptions) -> (route: TileRoute)
    ensures
        route == route_of(reader@, z, opts.baseline),
{
    if opts.baseline {
        reader.route_baseline()
    } else {
        reader.route(z)
    }
}

/// The name of the layer in a tile: the override, or else the name of the
/// body layer, which is "layer" where it has none.
pub fn tile_layer_name(reader: &FgboReader, opts: &TileOptions) -> (name: String)
    ensures
        name@ == match opts.layer_name {
            Some(n) => n@,
            None => match reader@.body.header.name {
                Some(n) => if n.len() == 0 {
                    "layer"@
                } else {
                    n
                },
                None => "layer"@,
            },
        },
{
    match &opts.layer_name {
        Some(n) => n.as_str().to_owned(),
        None => reader.layer_name(),
    }
}

/// A feature to be written into a tile: geometry in unit mercator, clipped to
/// the buffered tile, and the properties with their places in the row.
#[derive(Debug, PartialEq)]
pub struct MvtFeature {
    pub id: u64,
    pub geometry: Geometry,
    pub properties: Vec<(usize, String, PropValue)>,
}

/// A tile feature as a mathematical value.
#[verifier::ext_equal]
pub struct MvtModel {
    pub id: int,
    pub geometry: GeometryModel,
    pub properties: Seq<(int, Seq<char>, PropModel)>,
}

/// Placed properties as mathematical values.
pub open spec fn placed_of(props: Seq<(usize, String, PropValue)>) -> Seq<
    (int, Seq<char>, PropModel),
> {
    Seq::new(props.len(), |i: int| (props[i].0 as int, props[i].1@, props[i].2@))
}

impl View for MvtFeature {
    type V = MvtModel;

    open spec fn view(&self) -> MvtModel {
        MvtModel {
            id: self.id as int,
            geometry: self.geometry@,
            properties: placed_of(self.properties@),
        }
    }
}

/// Tile features as mathematical values.
pub open spec fn mvt_of(fs: Seq<MvtFeature>) -> Seq<MvtModel> {
    Seq::new(fs.len(), |i: int| fs[i]@)
}

/// The properties that a tile can hold, with their places in the row: all
/// but the binary ones.
pub open spec fn representable(props: Seq<(Seq<char>, PropModel)>) -> Seq<
    (int, Seq<char>, PropModel),
>
    decreases props.len(),
{
    if props.len() == 0 {
        Seq::empty()
    } else {
        let init = representable(props.drop_last());
        let (name, value) = props.last();
        if value is Binary {
            init
        } else {
            init.push((props.len() - 1, name, value))
        }
    }
}

/// What goes into a tile of some features: of each the part inside the
/// clip rectangle, numbered in order; features without such a part are left
/// out.
pub open spec fn tile_content<
    P: Fn(Coord) -> Coord,
    E: Fn((Coord, Coord, Rect)) -> Edges,
    T: Fn((Coord, Coord, u64)) -> Coord,
    L: Fn((Coord, Coord, u64)) -> u64,
>(
    fs: Seq<TileFeatureModel>,
    rect: Rect,
    project: P,
    edges: E,
    along: T,
    lerp: L,
) -> Seq<MvtModel>
    decreases fs.len(),
{
    if fs.len() == 0 {
        Seq::empty()
    } else {
        let init = tile_content(fs.drop_last(), rect, project, edges, along, lerp);
        match clipped(mapped(fs.last().geometry, project), rect, edges, along, lerp) {
            None => init,
            Some(geometry) => init.push(
                MvtModel {
                    id: init.len() as int,
                    geometry,
                    properties: representable(fs.last().properties),
                },
            ),
        }
    }
}

fn place_properties(props: Vec<(String, PropValue)>) -> (out: Vec<(usize, String, PropValue)>)
    ensures
        placed_of(out@) == representable(named_of(props@)),
{
    let ghost all = named_of(props@);
    let mut out: Vec<(usize, String, PropValue)> = Vec::new();
    let mut i: usize = 0;
    let n: usize = props.len();
    assert(placed_of(out@) =~= Seq::<(int, Seq<char>, PropModel)>::empty());
    assert(all.take(0) =~= Seq::<(Seq<char>, PropModel)>::empty());
    for prop in it: props.into_iter()
        invariant
            i == it.index(),
            it.seq().len() == n,
            all == named_of(it.seq()),
            placed_of(out@) == representable(all.take(i as int)),
    {
        let ghost before = placed_of(out@);
        proof {
            let now = all.take(i + 1);
            assert(now.drop_last() =~= all.take(i as int));
            assert(now.last() == (prop.0@, prop.1@));
        }
        let (name, value): (String, PropValue) = prop;
        let binary: bool = match &value {
            PropValue::Binary(_) => true,
            _ => false,
        };
        // binary properties are not representable in MVT; skip
        if !binary {
            let ghost added = (i as int, name@, value@);
            out.push((i, name, value));
            assert(placed_of(out@) =~= before.push(added));
        }
        i = i + 1;
    }
    assert(all.take(n as int) =~= all);
    out
}

/// Projects features to unit mercator, clips them to the buffered tile and
/// numbers those that remain.
pub fn render_features<
    P: Fn(Coord) -> Coord,
    E: Fn((Coord, Coord, Rect)) -> Edges,
    T: Fn((Coord, Coord, u64)) -> Coord,
    L: Fn((Coord, Coord, u64)) -> u64,
>(
    features: Vec<TileFeature>,
    rect: Rect,
    project: &P,
    edges: &E,
    along: &T,
    lerp: &L,
) -> (out: Vec<MvtFeature>)
    requires
        is_function(*project),
        is_function(*edges),
        is_function(*along),
        is_function(*lerp),
    ensures
        mvt_of(out@) == tile_content(
            features_of(features@),
            rect,
            *project,
            *edges,
            *along,
            *lerp,
        ),
{
    let ghost all = features_of(features@);
    let mut out: Vec<MvtFeature> = Vec::new();
    assert(mvt_of(out@) =~= Seq::<MvtModel>::empty());
    assert(all.take(0) =~= Seq::<TileFeatureModel>::empty());
    for feature in it: features.into_iter()
        invariant
            is_function(*project),
            is_function(*edges),
            is_function(*along),
            is_function(*lerp),
            all == features_of(it.seq()),
            mvt_of(out@) == tile_content(
                all.take(it.index() as int),
                rect,
                *project,
                *edges,
                *along,
                *lerp,
            ),
    {
        let ghost before = mvt_of(out@);
        proof {
            let now = all.take(it.index() + 1);
            assert(now.drop_last() =~= all.take(it.index() as int));
            assert(now.last() == feature@);
        }
        let TileFeature { geometry, properties } = feature;
        let merc: Geometry = map_coords(&geometry, project);
        if let Some(part) = clip_geometry(&merc, rect, edges, along, lerp) {
            let id: u64 = out.len() as u64;
            let f: MvtFeature = MvtFeature {
                id,
                geometry: part,
                properties: place_properties(properties),
            };
            let ghost added = f@;
            out.push(f);
            assert(mvt_of(out@) =~= before.push(added));
        }
    }
    assert(all.take(all.len() as int) =~= all);
    out
}

/// Features of a tile are numbered from zero without gaps, and there are no
/// more of them than the query gave.
pub proof fn law_tile_features_are_numbered<
    P: Fn(Coord) -> Coord,
    E: Fn((Coord, Coord, Rect)) -> Edges,
    T: Fn((Coord, Coord, u64)) -> Coord,
    L: Fn((Coord, Coord, u64)) -> u64,
>(fs: Seq<TileFeatureModel>, rect: Rect, project: P, edges: E, along: T, lerp: L, i: int)
    requires
        0 <= i < tile_content(fs, rect, project, edges, along, lerp).len(),
    ensures
        tile_content(fs, rect, project, edges, along, lerp)[i].id == i,
        tile_content(fs, rect, project, edges, along, lerp).len() <= fs.len(),
    decreases fs.len(),
{
    let init = tile_content(fs.drop_last(), rect, project, edges, along, lerp);
    if i < init.len() {
        law_tile_features_are_numbered(fs.drop_last(), rect, project, edges, along, lerp, i);
    } else if init.len() > 0 {
        law_tile_features_are_numbered(
            fs.drop_last(),
            rect,
            project,
            edges,
            along,
            lerp,
            init.len() - 1,
        );
    }
}

/// Two readers of one file, local or remote, however much of it each has
/// cached and whatever tiles each has served before, render the same tile:
/// they take the same route and, where the query succeeds for both, put the
/// same features into a layer of the same name.
pub proof fn law_tiles_agree<
    P: Fn(Coord) -> Coord,
    D: Fn((Coord, Coord, Coord)) -> u64,
    Q: Fn(u64) -> u16,
    E: Fn((Coord, Coord, Rect)) -> Edges,
    T: Fn((Coord, Coord, u64)) -> Coord,
    L: Fn((Coord, Coord, u64)) -> u64,
>(
    m: ReaderModel,
    at: QuerySessions,
    n: ReaderModel,
    by: QuerySessions,
    file: Seq<u8>,
    z: u8,
    baseline: bool,
    q: u16,
    rect: Rect,
    project: P,
    dist: D,
    quantize: Q,
    edges: E,
    along: T,
    lerp: L,
    search: spec_fn(SectionModel) -> Seq<SearchResultItem>,
    decode: spec_fn(Seq<u8>, u8) -> GeometryModel,
)
    requires
        true_to(m, file),
        true_to(n, file),
        at.read(file),
        by.read(file),
        is_open_for(m, route_of(m, z, baseline)),
        is_open_for(n, route_of(n, z, baseline)),
        queried(
            m,
            at,
            route_of(m, z, baseline),
            q,
            project,
            dist,
            quantize,
            search,
            decode,
        ) is Ok,
        queried(
            n,
            by,
            route_of(n, z, baseline),
            q,
            project,
            dist,
            quantize,
            search,
            decode,
        ) is Ok,
    ensures
        route_of(m, z, baseline) == route_of(n, z, baseline),
        m.body.header.name == n.body.header.name,
        ({
            let route = route_of(m, z, baseline);
            let a = queried(m, at, route, q, project, dist, quantize, search, decode)->Ok_0;
            let b = queried(n, by, route, q, project, dist, quantize, search, decode)->Ok_0;
            tile_content(a, rect, project, edges, along, lerp) == tile_content(
                b,
                rect,
                project,
                edges,
                along,
                lerp,
            )
        }),
{
    let route = route_of(m, z, baseline);
    law_queries_agree(m, at, n, by, file, route, q, project, dist, quantize, search, decode);
}

/// Placed properties are the properties of a row without the binary ones, in
/// their order and each with its place in the row.
pub open spec fn all_but_binary(
    placed: Seq<(int, Seq<char>, PropModel)>,
    props: Seq<(Seq<char>, PropModel)>,
) -> bool {
    &&& forall|j: int|
        0 <= j < placed.len() ==> {
            let (i, name, value) = #[trigger] placed[j];
            0 <= i < props.len() && props[i] == (name, value) && !(value is Binary)
        }
    &&& forall|j: int, k: int|
        0 <= j < k < placed.len() ==> (#[trigger] placed[j]).0 < (#[trigger] placed[k]).0
    &&& forall|i: int|
        0 <= i < props.len() ==> {
            let (name, value) = #[trigger] props[i];
            !(value is Binary) ==> placed.contains((i, name, value))
        }
}

/// A tile holds the properties of a feature but the binary ones, in their
/// order.
pub proof fn law_properties_but_binary(props: Seq<(Seq<char>, PropModel)>)
    ensures
        all_but_binary(representable(props), props),
    decreases props.len(),
{
    if props.len() > 0 {
        let init = props.drop_last();
        law_properties_but_binary(init);
        let before = representable(init);
        let placed = representable(props);
        let (last, value) = props.last();
        assert forall|j: int| 0 <= j < placed.len() implies {
            let (i, n, v) = #[trigger] placed[j];
            0 <= i < props.len() && props[i] == (n, v) && !(v is Binary)
        } by {
            if j < before.len() {
                assert(placed[j] == before[j]);
                let (i, n, v) = before[j];
                assert(init[i] == props[i]);
            }
        }
        assert forall|j: int, k: int| 0 <= j < k < placed.len() implies (
        #[trigger] placed[j]).0 < (#[trigger] placed[k]).0 by {
            assert(placed[j] == before[j]);
            if k < before.len() {
                assert(placed[k] == before[k]);
            } else {
                let (i, n, v) = before[j];
                assert(i < init.len());
            }
        }
        assert forall|i: int| 0 <= i < props.len() implies {
            let (n, v) = #[trigger] props[i];
            !(v is Binary) ==> placed.contains((i, n, v))
        } by {
            let (n, v) = props[i];
            if !(v is Binary) {
                if i < init.len() {
                    assert(init[i] == props[i]);
                    let j = choose|j: int| 0 <= j < before.len() && before[j] == (i, n, v);
                    assert(placed[j] == before[j]);
                } else {
                    assert(placed[placed.len() - 1] == (i, n, v));
                }
            }
        }
    }
}

/// A feature shows in a tile as what the rectangle leaves of its projected
/// geometry, with all its properties but the binary ones.
pub open spec fn shows_as<
    P: Fn(Coord) -> Coord,
    E: Fn((Coord, Coord, Rect)) -> Edges,
    T: Fn((Coord, Coord, u64)) -> Coord,
    L: Fn((Coord, Coord, u64)) -> u64,
>(
    f: TileFeatureModel,
    shown: MvtModel,
    rect: Rect,
    project: P,
    edges: E,
    along: T,
    lerp: L,
) -> bool {
    let left = clipped(mapped(f.geometry, project), rect, edges, along, lerp);
    left == Some(shown.geometry) && all_but_binary(shown.properties, f.properties)
}

/// The tile feature at each place `j` shows the feature at the place
/// `from[j]`; all other features leave nothing in the rectangle.
pub open spec fn is_tile_of<
    P: Fn(Coord) -> Coord,
    E: Fn((Coord, Coord, Rect)) -> Edges,
    T: Fn((Coord, Coord, u64)) -> Coord,
    L: Fn((Coord, Coord, u64)) -> u64,
>(
    content: Seq<MvtModel>,
    from: Seq<int>,
    fs: Seq<TileFeatureModel>,
    rect: Rect,
    project: P,
    edges: E,
    along: T,
    lerp: L,
) -> bool {
    &&& from.len() == content.len()
    &&& forall|j: int| 0 <= j < from.len() ==> 0 <= #[trigger] from[j] < fs.len()
    &&& forall|j: int, k: int|
        0 <= j < k < from.len() ==> #[trigger] from[j] < #[trigger] from[k]
    &&& forall|j: int|
        0 <= j < from.len() ==> {
            &&& (#[trigger] content[j]).id == j
            &&& shows_as(fs[from[j]], content[j], rect, project, edges, along, lerp)
        }
    &&& forall|i: int|
        0 <= i < fs.len() && !from.contains(i) ==> clipped(
            mapped((#[trigger] fs[i]).geometry, project),
            rect,
            edges,
            along,
            lerp,
        ) is None
}

/// Every feature of a tile shows one queried feature, in the order of the
/// query: its geometry is the clip to the rectangle of the projected geometry
/// of that feature, and its properties are those of that feature but the
/// binary ones. No queried feature of which the rectangle leaves something
/// is missing.
pub proof fn law_tile_shows_what_was_queried<
    P: Fn(Coord) -> Coord,
    E: Fn((Coord, Coord, Rect)) -> Edges,
    T: Fn((Coord, Coord, u64)) -> Coord,
    L: Fn((Coord, Coord, u64)) -> u64,
>(
    fs: Seq<TileFeatureModel>,
    rect: Rect,
    project: P,
    edges: E,
    along: T,
    lerp: L,
) -> (from: Seq<int>)
    ensures
        is_tile_of(
            tile_content(fs, rect, project, edges, along, lerp),
            from,
            fs,
            rect,
            project,
            edges,
            along,
            lerp,
        ),
    decreases fs.len(),
{
    if fs.len() == 0 {
        Seq::empty()
    } else {
        let init = fs.drop_last();
        let before = law_tile_shows_what_was_queried(init, rect, project, edges, along, lerp);
        let content = tile_content(fs, rect, project, edges, along, lerp);
        let left = clipped(mapped(fs.last().geometry, project), rect, edges, along, lerp);
        let from = if left is None {
            before
        } else {
            before.push(fs.len() - 1)
        };
        law_properties_but_binary(fs.last().properties);
        assert forall|j: int| 0 <= j < from.len() implies {
            &&& (#[trigger] content[j]).id == j
            &&& shows_as(fs[from[j]], content[j], rect, project, edges, along, lerp)
        } by {
            let old_content = tile_content(init, rect, project, edges, along, lerp);
            if j < before.len() {
                assert(content[j] == old_content[j]);
                assert(fs[from[j]] == init[before[j]]);
            }
        }
        assert forall|i: int| 0 <= i < fs.len() && !from.contains(i) implies clipped(
            mapped((#[trigger] fs[i]).geometry, project),
            rect,
            edges,
            along,
            lerp,
        ) is None by {
            if i < init.len() {
                assert(init[i] == fs[i]);
                if before.contains(i) {
                    let j = choose|j: int| 0 <= j < before.len() && before[j] == i;
                    assert(from[j] == i);
                }
            } else if left is Some {
                assert(from[before.len() as int] == i);
            }
        }
        from
    }
}

/// All that a tile shows lies in its rectangle, if the arithmetic on
/// coordinates stays where it should.
pub proof fn law_tile_lies_in_rect<
    P: Fn(Coord) -> Coord,
    E: Fn((Coord, Coord, Rect)) -> Edges,
    T: Fn((Coord, Coord, u64)) -> Coord,
    L: Fn((Coord, Coord, u64)) -> u64,
>(
    fs: Seq<TileFeatureModel>,
    rect: Rect,
    project: P,
    edges: E,
    along: T,
    lerp: L,
    j: int,
)
    requires
        is_upright(rect),
        stays_inside(rect, edges, along),
        stays_between(lerp),
        forall|i: int|
            0 <= i < fs.len() ==> is_clippable(mapped((#[trigger] fs[i]).geometry, project)),
        0 <= j < tile_content(fs, rect, project, edges, along, lerp).len(),
    ensures
        line_inside(
            geometry_coords(tile_content(fs, rect, project, edges, along, lerp)[j].geometry),
            rect,
        ),
{
    let from = law_tile_shows_what_was_queried(fs, rect, project, edges, along, lerp);
    let f = fs[from[j]];
    let shown = tile_content(fs, rect, project, edges, along, lerp)[j];
    assert(shows_as(f, shown, rect, project, edges, along, lerp));
    law_clipped_lies_in_rect(mapped(f.geometry, project), rect, edges, along, lerp);
}

/// A feature whose projected geometry lies in the rectangle is in the tile
/// with all of that geometry, whatever the arithmetic.
pub proof fn law_tile_holds_features_inside<
    P: Fn(Coord) -> Coord,
    E: Fn((Coord, Coord, Rect)) -> Edges,
    T: Fn((Coord, Coord, u64)) -> Coord,
    L: Fn((Coord, Coord, u64)) -> u64,
>(
    fs: Seq<TileFeatureModel>,
    rect: Rect,
    project: P,
    edges: E,
    along: T,
    lerp: L,
    i: int,
) -> (j: int)
    requires
        0 <= i < fs.len(),
        is_sound(mapped(fs[i].geometry, project)),
        line_inside(geometry_coords(mapped(fs[i].geometry, project)), rect),
    ensures
        0 <= j < tile_content(fs, rect, project, edges, along, lerp).len(),
        tile_content(fs, rect, project, edges, along, lerp)[j].geometry == mapped(
            fs[i].geometry,
            project,
        ),
{
    let from = law_tile_shows_what_was_queried(fs, rect, project, edges, along, lerp);
    law_geometry_in_rect_is_unchanged(
        mapped(fs[i].geometry, project),
        rect,
        edges,
        along,
        lerp,
    );
    assert(from.contains(i));
    let j = choose|j: int| 0 <= j < from.len() && from[j] == i;
    let shown = tile_content(fs, rect, project, edges, along, lerp)[j];
    assert(shows_as(fs[i], shown, rect, project, edges, along, lerp));
    j
}

/// The baseline ignores all sections, whatever the file has and at any zoom:
/// it simplifies the body on the fly. Otherwise the directory decides.
pub proof fn law_baseline_ignores_the_sections(m: ReaderModel, n: ReaderModel, y: u8, z: u8)
    ensures
        route_of(m, y, true) == route_of(n, z, true),
        route_of(m, y, true).source == TileSource::BodyLive,
        !route_of(m, y, true).use_segments,
        m.directory == n.directory ==> route_of(m, z, false) == route_of(n, z, false),
        m.directory matches Some(d) && level_for_zoom(d.overviews, z) is Some ==> route_of(
            m,
            z,
            false,
        ).source is Overview,
{
}

} // verus!
