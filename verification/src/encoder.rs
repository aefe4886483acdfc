//! FGBO encoder: takes a valid FlatGeobuf file and appends the FGBO
//! extension sections (importance sidecar, overview levels, segments,
//! directory, footer). The fgb body is copied verbatim, so the output is
//! always a valid fgb file and the build is deterministic.
//!
//! Reading the input, spooling the features of the sections and writing the
//! output is up to the caller. Here is decided what goes into which section,
//! and where the sections lie.

use crate::error::{Error, Fault, Result};
use crate::fgb::{columns_of, text_of, Column, ColumnModel, Header, HeaderModel};
use crate::fgb::{has_fgb_magic, parse_header, starts_with_magic, FGB_MAGIC, MAX_HEADER_BYTES};
use crate::fgb::{law_magic_of_a_section, lemma_ranged_is_the_file, lemma_whole_ranged, reads_file};
use crate::fgb::{outcome, ranged, read_range, session, IoStats, Session};
use crate::format::{
    directory_encodable, directory_of, directory_seq, footer_of, footer_seq,
    law_directory_round_trip, law_footer_round_trip, DirectoryModel, SegmentsModel,
};
use crate::format::{
    Directory, Footer, ImportanceEntry, OverviewEntry, SegmentsEntry, FOOTER_SIZE, SENTINEL,
};
use crate::format::{field, law_level_covers_zoom, level_for_zoom};
use crate::le::get_u32;
use crate::outside::{crc32_of, fgb_header};
use crate::clip::{clip_geometry, clipped, Edges, Rect};
use crate::function::{is_function, value_of};
use crate::geometry::{coord_count, map_coords, Coord, Geometry, GeometryModel};
use crate::geometry::{geometries_of, geometry_coords, law_mapped_coords, mapped};
use crate::geometry::{law_mapping_back, undoes};
use crate::importance::{geometry_importance, ImportanceSidecar, SidecarModel};
use crate::importance::{geometry_values, lemma_mapped_storable, sidecar_seq, storable};
use crate::importance::law_push_then_get;
use crate::simplify::{begins, filter_geometry, is_too_small, kept_geometry};
use crate::simplify::{has_extent, is_distance_test, is_placed};
use crate::simplify::{law_full_array_suffices, law_too_small_in_both_dimensions, too_small};
use crate::sparse::{whole_file, SparseReader};
use crate::text::{decimal, push_decimal, with_decimal};
use vstd::arithmetic::power2::{
    lemma2_to64, lemma2_to64_rest, lemma_pow2_strictly_increases, lemma_pow2_unfold, pow2,
};
use vstd::prelude::*;
use vstd::slice::slice_to_vec;

verus! {

/// One overview level configuration.
#[derive(Debug, Clone, Copy, PartialEq, Eq, Structural)]
pub struct LevelSpec {
    pub min_zoom: u8,
    pub max_zoom: u8,
}

impl LevelSpec {
    /// The level serves this zoom.
    pub open spec fn covers(self, z: u8) -> bool {
        self.min_zoom <= z <= self.max_zoom
    }
}

/// Encoder options.
#[derive(Debug, Clone, PartialEq)]
pub struct EncodeOptions {
    /// Overview levels (zoom ranges must be disjoint and ascending).
    pub levels: Vec<LevelSpec>,
    /// MVT tile extent assumed when deriving tolerances.
    pub extent: u32,
    /// Vertex-count threshold for segmenting large features. 0 disables.
    pub v_max: u32,
    /// Clipping grid zoom for segments.
    pub zbase: u8,
    /// Feature-level thinning: drop features smaller than this many
    /// MVT-extent units (bbox, both dimensions) at a level's max zoom.
    /// 16 units == 1 screen pixel at extent 4096 / 256px tiles.
    /// The bit pattern of a double-precision number.
    pub drop_small_units: u64,
}

/// The bit pattern of sixteen.
pub const SIXTEEN: u64 = 0x4030_0000_0000_0000;

impl Default for EncodeOptions {
    fn default() -> (o: EncodeOptions)
        ensures
            o.levels@ == seq![
                LevelSpec { min_zoom: 0, max_zoom: 4 },
                LevelSpec { min_zoom: 5, max_zoom: 8 },
                LevelSpec { min_zoom: 9, max_zoom: 11 },
            ],
            o.extent == 4096,
            o.v_max == 16384,
            o.zbase == 12,
            o.drop_small_units == SIXTEEN,
    {
        let levels: Vec<LevelSpec> = vec![
            LevelSpec { min_zoom: 0, max_zoom: 4 },
            LevelSpec { min_zoom: 5, max_zoom: 8 },
            LevelSpec { min_zoom: 9, max_zoom: 11 },
        ];
        assert(levels@ =~= seq![
            LevelSpec { min_zoom: 0, max_zoom: 4 },
            LevelSpec { min_zoom: 5, max_zoom: 8 },
            LevelSpec { min_zoom: 9, max_zoom: 11 },
        ]);
        EncodeOptions { levels, extent: 4096, v_max: 16384, zbase: 12, drop_small_units: SIXTEEN }
    }
}

/// What is wrong with the levels from `i` on, if anything: the first one that
/// is empty, or that does not lie after the one before it.
pub open spec fn levels_fault(levels: Seq<LevelSpec>, i: int) -> Option<Fault>
    decreases levels.len() - i,
{
    if i >= levels.len() {
        None
    } else if levels[i].min_zoom > levels[i].max_zoom {
        Some(
            Fault::InvalidInput(
                "invalid level: min_zoom "@ + decimal(levels[i].min_zoom as nat) + " > max_zoom "@
                    + decimal(levels[i].max_zoom as nat),
            ),
        )
    } else if i > 0 && levels[i].min_zoom <= levels[i - 1].max_zoom {
        Some(Fault::InvalidInput("overview levels must be ascending and disjoint"@))
    } else {
        levels_fault(levels, i + 1)
    }
}

pub fn validate_levels(levels: &Vec<LevelSpec>) -> (r: Result<()>)
    ensures
        match r {
            Ok(_) => levels_fault(levels@, 0) is None,
            Err(e) => levels_fault(levels@, 0) == Some(e@),
        },
{
    let n: usize = levels.len();
    let mut i: usize = 0;
    while i < n
        invariant
            i <= n,
            n == levels@.len(),
            levels_fault(levels@, 0) == levels_fault(levels@, i as int),
        decreases n - i,
    {
        let l: LevelSpec = levels[i];
        if l.min_zoom > l.max_zoom {
            let mut text: String = with_decimal("invalid level: min_zoom ", l.min_zoom as u64);
            text.append(" > max_zoom ");
            push_decimal(&mut text, l.max_zoom as u64);
            return Err(Error::InvalidInput(text));
        }
        if i > 0 && l.min_zoom <= levels[i - 1].max_zoom {
            return Err(Error::invalid_input("overview levels must be ascending and disjoint"));
        }
        i = i + 1;
    }
    Ok(())
}

/// The zoom ranges are not empty, and each lies after all before it.
pub open spec fn disjoint_ascending(levels: Seq<LevelSpec>) -> bool {
    &&& forall|i: int|
        0 <= i < levels.len() ==> (#[trigger] levels[i]).min_zoom <= levels[i].max_zoom
    &&& forall|i: int, j: int|
        0 <= i < j < levels.len() ==> (#[trigger] levels[i]).max_zoom < (#[trigger] levels[j]).min_zoom
}

/// Levels are accepted exactly when their zoom ranges are not empty, ascend
/// and are disjoint; then no zoom is covered twice.
pub proof fn law_accepted_levels_are_disjoint(levels: Seq<LevelSpec>)
    ensures
        levels_fault(levels, 0) is None <==> disjoint_ascending(levels),
        levels_fault(levels, 0) is None ==> forall|i: int, j: int, z: u8|
            0 <= i < levels.len() && 0 <= j < levels.len() && #[trigger] levels[i].covers(z)
                && #[trigger] levels[j].covers(z) ==> i == j,
{
    lemma_levels_suffix(levels, 0);
    if disjoint_ascending(levels) {
        lemma_levels_fine(levels, 0);
    }
    if levels_fault(levels, 0) is None {
        assert forall|i: int, j: int|
            0 <= i < j < levels.len() implies (#[trigger] levels[i]).max_zoom < (
        #[trigger] levels[j]).min_zoom by {
            lemma_levels_apart(levels, i, j);
        }
    }
}

proof fn lemma_levels_suffix(levels: Seq<LevelSpec>, i: int)
    requires
        0 <= i <= levels.len(),
    ensures
        levels_fault(levels, i) is None ==> forall|k: int|
            i <= k < levels.len() ==> (#[trigger] levels[k]).min_zoom <= levels[k].max_zoom && (k
                > 0 ==> levels[k].min_zoom > levels[k - 1].max_zoom),
    decreases levels.len() - i,
{
    if i < levels.len() {
        lemma_levels_suffix(levels, i + 1);
    }
}

proof fn lemma_levels_apart(levels: Seq<LevelSpec>, i: int, j: int)
    requires
        0 <= i < j < levels.len(),
        forall|k: int|
            0 <= k < levels.len() ==> (#[trigger] levels[k]).min_zoom <= levels[k].max_zoom && (k
                > 0 ==> levels[k].min_zoom > levels[k - 1].max_zoom),
    ensures
        levels[i].max_zoom < levels[j].min_zoom,
    decreases j - i,
{
    if j > i + 1 {
        lemma_levels_apart(levels, i, j - 1);
        assert(levels[j - 1].min_zoom <= levels[j - 1].max_zoom);
    }
    assert(levels[j].min_zoom > levels[j - 1].max_zoom);
}

proof fn lemma_levels_fine(levels: Seq<LevelSpec>, i: int)
    requires
        0 <= i <= levels.len(),
        disjoint_ascending(levels),
    ensures
        levels_fault(levels, i) is None,
    decreases levels.len() - i,
{
    if i < levels.len() {
        lemma_levels_fine(levels, i + 1);
        if i > 0 {
            assert(levels[i - 1].max_zoom < levels[i].min_zoom);
        }
    }
}

/// Owned schema info extracted from the input header.
#[derive(Debug, Clone, PartialEq)]
pub struct Schema {
    pub name: String,
    /// The code of the geometry type.
    pub geometry_type: u8,
    pub columns: Vec<Column>,
    pub crs_org: Option<String>,
    pub crs_code: i32,
    pub crs_wkt: Option<String>,
    pub has_z: bool,
}

/// A schema as a mathematical value.
#[verifier::ext_equal]
pub struct SchemaModel {
    pub name: Seq<char>,
    pub geometry_type: u8,
    pub columns: Seq<ColumnModel>,
    pub crs_org: Option<Seq<char>>,
    pub crs_code: i32,
    pub crs_wkt: Option<Seq<char>>,
    pub has_z: bool,
}

impl View for Schema {
    type V = SchemaModel;

    open spec fn view(&self) -> SchemaModel {
        SchemaModel {
            name: self.name@,
            geometry_type: self.geometry_type,
            columns: columns_of(self.columns@),
            crs_org: text_of(self.crs_org),
            crs_code: self.crs_code,
            crs_wkt: text_of(self.crs_wkt),
            has_z: self.has_z,
        }
    }
}

/// The schema of a layer.
pub open spec fn schema_of(h: HeaderModel) -> SchemaModel {
    SchemaModel {
        name: match h.name {
            Some(n) => n,
            None => "layer"@,
        },
        geometry_type: h.geometry_type,
        columns: match h.columns {
            Some(cols) => cols,
            None => Seq::empty(),
        },
        crs_org: match h.crs {
            Some(c) => c.org,
            None => None,
        },
        crs_code: match h.crs {
            Some(c) => c.code,
            None => 0,
        },
        crs_wkt: match h.crs {
            Some(c) => c.wkt,
            None => None,
        },
        has_z: h.has_z,
    }
}

/// The schema of a layer that can be encoded: the header must say how many
/// features there are, and there must be a spatial index.
pub open spec fn encodable_schema(h: HeaderModel) -> core::result::Result<SchemaModel, Fault> {
    if h.features_count == 0 {
        Err(
            Fault::InvalidInput(
                "input fgb has no explicit features_count (FGBO requires it); rebuild with `fgbo convert`"@,
            ),
        )
    } else if h.index_node_size == 0 {
        Err(
            Fault::InvalidInput(
                "input fgb has no spatial index (FGBO requires it); rebuild with `fgbo convert`"@,
            ),
        )
    } else {
        Ok(schema_of(h))
    }
}

/// Checks a header for what the encoder needs, and takes the schema from it.
pub fn check_header(header: Header) -> (r: Result<Schema>)
    ensures
        outcome(r) == encodable_schema(header@),
{
    if header.features_count == 0 {
        return Err(
            Error::invalid_input(
                "input fgb has no explicit features_count (FGBO requires it); rebuild with `fgbo convert`",
            ),
        );
    }
    if header.index_node_size == 0 {
        return Err(
            Error::invalid_input(
                "input fgb has no spatial index (FGBO requires it); rebuild with `fgbo convert`",
            ),
        );
    }
    let name: String = match header.name {
        Some(n) => n,
        None => "layer".to_owned(),
    };
    let columns: Vec<Column> = match header.columns {
        Some(cols) => cols,
        None => Vec::new(),
    };
    let (crs_org, crs_code, crs_wkt): (Option<String>, i32, Option<String>) = match header.crs {
        Some(c) => (c.org, c.code, c.wkt),
        None => (None, 0, None),
    };
    let s: Schema = Schema {
        name,
        geometry_type: header.geometry_type,
        columns,
        crs_org,
        crs_code,
        crs_wkt,
        has_z: header.has_z,
    };
    assert(s@ =~= schema_of(header@));
    Ok(s)
}

/// Inspecting an input file: it must not carry a footer already, and its
/// header must be fit for encoding.
pub open spec fn inspected(s: Session) -> (Session, core::result::Result<SchemaModel, Fault>) {
    let len = s.source.len;
    if len >= FOOTER_SIZE {
        let (s1, tail) = ranged(s, len - FOOTER_SIZE, FOOTER_SIZE as int);
        match tail {
            Err(f) => (s1, Err(f)),
            Ok(tail) => if footer_of(tail) is Some {
                (s1, Err(Fault::InvalidInput("input is already an FGBO file"@)))
            } else {
                inspected_header(s1)
            },
        }
    } else {
        inspected_header(s)
    }
}

/// Inspecting the header of an input file.
pub open spec fn inspected_header(s: Session) -> (
    Session,
    core::result::Result<SchemaModel, Fault>,
) {
    let (s1, header) = plain_header(s);
    match header {
        Err(f) => (s1, Err(f)),
        Ok(h) => (s1, encodable_schema(h)),
    }
}

/// The header of a plain fgb file: magic bytes of a version up to the current
/// one, the size of the header within its bounds, and the header.
pub open spec fn plain_header(s: Session) -> (Session, core::result::Result<HeaderModel, Fault>) {
    let len = s.source.len;
    let cut = Fault::Fgb("failed to fill whole buffer"@);
    if len < 8 {
        (s, Err(cut))
    } else {
        let (s1, magic) = ranged(s, 0, 8);
        match magic {
            Err(f) => (s1, Err(f)),
            Ok(magic) => if !has_fgb_magic(magic) || magic[3] > FGB_MAGIC[3] {
                (s1, Err(Fault::Fgb("Missing magic bytes. Is this an fgb file?"@)))
            } else if len < 12 {
                (s1, Err(cut))
            } else {
                let (s2, size) = ranged(s1, 8, 4);
                match size {
                    Err(f) => (s2, Err(f)),
                    Ok(size) => {
                        let n = field(size, 0, 4);
                        if n > MAX_HEADER_BYTES || n < 8 {
                            (s2, Err(Fault::Fgb("Illegal header size: "@ + decimal(n))))
                        } else if len < 12 + n {
                            (s2, Err(cut))
                        } else {
                            let (s3, rest) = ranged(s2, 12, n as int);
                            match rest {
                                Err(f) => (s3, Err(f)),
                                Ok(rest) => match fgb_header(size + rest) {
                                    Err(text) => (s3, Err(Fault::Fgb(text))),
                                    Ok(h) => (s3, Ok(h)),
                                },
                            }
                        }
                    },
                }
            },
        }
    }
}

/// Reads the header of a plain fgb file.
fn read_plain_header(r: &mut SparseReader, stats: &mut IoStats) -> (res: Result<Header>)
    requires
        old(r).wf(),
    ensures
        final(r).wf(),
        (session(*final(r), *final(stats)), outcome(res)) == plain_header(
            session(*old(r), *old(stats)),
        ),
{
    let len: u64 = r.file_len();
    if len < 8 {
        return Err(Error::fgb("failed to fill whole buffer"));
    }
    let magic: Vec<u8> = read_range(r, stats, 0, 8)?;
    if !starts_with_magic(magic.as_slice()) || magic[3] > FGB_MAGIC[3] {
        return Err(Error::fgb("Missing magic bytes. Is this an fgb file?"));
    }
    if len < 12 {
        return Err(Error::fgb("failed to fill whole buffer"));
    }
    let mut header: Vec<u8> = read_range(r, stats, 8, 4)?;
    let size: u32 = get_u32(header.as_slice(), 0);
    if size > MAX_HEADER_BYTES || size < 8 {
        return Err(Error::Fgb(with_decimal("Illegal header size: ", size as u64)));
    }
    if len < 12 + size as u64 {
        return Err(Error::fgb("failed to fill whole buffer"));
    }
    let mut rest: Vec<u8> = read_range(r, stats, 12, size as usize)?;
    header.append(&mut rest);
    match parse_header(header.as_slice()) {
        Ok(h) => Ok(h),
        Err(text) => Err(Error::Fgb(text)),
    }
}

/// Reads the footer area and the header of an input file and checks both.
pub fn inspect_input(r: &mut SparseReader, stats: &mut IoStats) -> (res: Result<Schema>)
    requires
        old(r).wf(),
    ensures
        final(r).wf(),
        (session(*final(r), *final(stats)), outcome(res)) == inspected(
            session(*old(r), *old(stats)),
        ),
{
    let len: u64 = r.file_len();
    if len >= FOOTER_SIZE as u64 {
        let tail: Vec<u8> = read_range(r, stats, len - FOOTER_SIZE as u64, FOOTER_SIZE)?;
        if let Ok(_) = Footer::decode(tail.as_slice()) {
            return Err(Error::invalid_input("input is already an FGBO file"));
        }
    }
    let header: Header = read_plain_header(r, stats)?;
    check_header(header)
}

/// The arithmetic on coordinates that encoding needs.
pub struct Plane<P, U, D, Q, N, C, E, T, L> {
    /// Lon/lat to unit mercator.
    pub project: P,
    /// Unit mercator to lon/lat.
    pub unproject: U,
    /// Order key of the squared distance from the first coordinate to the
    /// segment between the other two.
    pub dist: D,
    /// Importance for an order key.
    pub quantize: Q,
    /// Whether the distance between two numbers is less than a third.
    pub narrow: N,
    /// The rectangle of a grid cell, by zoom and column and row.
    pub cell: C,
    /// See [`crate::clip`] for these three.
    pub edges: E,
    pub along: T,
    pub lerp: L,
}

impl<
    P: Fn(Coord) -> Coord,
    U: Fn(Coord) -> Coord,
    D: Fn((Coord, Coord, Coord)) -> u64,
    Q: Fn(u64) -> u16,
    N: Fn((u64, u64, u64)) -> bool,
    C: Fn((u8, u64, u64)) -> Rect,
    E: Fn((Coord, Coord, Rect)) -> Edges,
    T: Fn((Coord, Coord, u64)) -> Coord,
    L: Fn((Coord, Coord, u64)) -> u64,
> Plane<P, U, D, Q, N, C, E, T, L> {
    pub open spec fn wf(self) -> bool {
        &&& is_function(self.project)
        &&& is_function(self.unproject)
        &&& is_function(self.dist)
        &&& is_function(self.quantize)
        &&& is_function(self.narrow)
        &&& is_function(self.cell)
        &&& is_function(self.edges)
        &&& is_function(self.along)
        &&& is_function(self.lerp)
    }
}

/// A fragment this small stops the quadtree descent early: descending
/// further would multiply fragment count without reducing read size.
/// Polygon interiors collapse to full-cell rectangles (5 coords) and stop
/// immediately, so a continent-sized polygon produces thousands of fragments
/// rather than one per zbase cell (millions).
pub const FRAGMENT_STOP_VERTS: usize = 64;

/// The fragments of a geometry in the grid cell `cx`, `cy` at zoom `z`: what
/// the cell holds of it, if the cell is at the zoom of the grid or holds
/// little; otherwise the fragments in the four cells below.
#[verifier::opaque]
pub open spec fn fragments_in<
    C: Fn((u8, u64, u64)) -> Rect,
    E: Fn((Coord, Coord, Rect)) -> Edges,
    T: Fn((Coord, Coord, u64)) -> Coord,
    L: Fn((Coord, Coord, u64)) -> u64,
>(
    g: GeometryModel,
    z: int,
    cx: int,
    cy: int,
    zbase: int,
    cell: C,
    edges: E,
    along: T,
    lerp: L,
) -> Seq<GeometryModel>
    decreases zbase - z,
{
    match clipped(g, value_of(cell, (z as u8, cx as u64, cy as u64)), edges, along, lerp) {
        None => Seq::empty(),
        Some(c) => if z >= zbase || geometry_coords(c).len() <= FRAGMENT_STOP_VERTS {
            seq![c]
        } else {
            fragments_in(c, z + 1, cx * 2, cy * 2, zbase, cell, edges, along, lerp) + fragments_in(
                c,
                z + 1,
                cx * 2 + 1,
                cy * 2,
                zbase,
                cell,
                edges,
                along,
                lerp,
            ) + fragments_in(c, z + 1, cx * 2, cy * 2 + 1, zbase, cell, edges, along, lerp)
                + fragments_in(c, z + 1, cx * 2 + 1, cy * 2 + 1, zbase, cell, edges, along, lerp)
        },
    }
}

/// Cutting a geometry into grid cells from the cell `cx`, `cy` at zoom `z` on
/// gets by with the zooms whose cells can be numbered.
#[verifier::opaque]
pub open spec fn descent_ends<
    C: Fn((u8, u64, u64)) -> Rect,
    E: Fn((Coord, Coord, Rect)) -> Edges,
    T: Fn((Coord, Coord, u64)) -> Coord,
    L: Fn((Coord, Coord, u64)) -> u64,
>(
    g: GeometryModel,
    z: int,
    cx: int,
    cy: int,
    zbase: int,
    cell: C,
    edges: E,
    along: T,
    lerp: L,
) -> bool
    decreases 64 - z,
{
    &&& z < 64
    &&& match clipped(g, value_of(cell, (z as u8, cx as u64, cy as u64)), edges, along, lerp) {
        None => true,
        Some(c) => {
            ||| z >= zbase
            ||| geometry_coords(c).len() <= FRAGMENT_STOP_VERTS
            ||| {
                &&& descent_ends(c, z + 1, cx * 2, cy * 2, zbase, cell, edges, along, lerp)
                &&& descent_ends(c, z + 1, cx * 2 + 1, cy * 2, zbase, cell, edges, along, lerp)
                &&& descent_ends(c, z + 1, cx * 2, cy * 2 + 1, zbase, cell, edges, along, lerp)
                &&& descent_ends(c, z + 1, cx * 2 + 1, cy * 2 + 1, zbase, cell, edges, along, lerp)
            }
        },
    }
}

/// A grid at one of these zooms itself is always reached.
pub proof fn law_descent_ends<
    C: Fn((u8, u64, u64)) -> Rect,
    E: Fn((Coord, Coord, Rect)) -> Edges,
    T: Fn((Coord, Coord, u64)) -> Coord,
    L: Fn((Coord, Coord, u64)) -> u64,
>(
    g: GeometryModel,
    z: int,
    cx: int,
    cy: int,
    zbase: int,
    cell: C,
    edges: E,
    along: T,
    lerp: L,
)
    requires
        z <= zbase < 64,
    ensures
        descent_ends(g, z, cx, cy, zbase, cell, edges, along, lerp),
    decreases zbase - z,
{
    reveal(descent_ends);
    if z < zbase {
        let rect = value_of(cell, (z as u8, cx as u64, cy as u64));
        if let Some(c) = clipped(g, rect, edges, along, lerp) {
            law_descent_ends(c, z + 1, cx * 2, cy * 2, zbase, cell, edges, along, lerp);
            law_descent_ends(c, z + 1, cx * 2 + 1, cy * 2, zbase, cell, edges, along, lerp);
            law_descent_ends(c, z + 1, cx * 2, cy * 2 + 1, zbase, cell, edges, along, lerp);
            law_descent_ends(c, z + 1, cx * 2 + 1, cy * 2 + 1, zbase, cell, edges, along, lerp);
        }
    }
}

/// Whether cutting a geometry into grid cells gets by with the zooms that
/// there are.
fn cell_ends<
    C: Fn((u8, u64, u64)) -> Rect,
    E: Fn((Coord, Coord, Rect)) -> Edges,
    T: Fn((Coord, Coord, u64)) -> Coord,
    L: Fn((Coord, Coord, u64)) -> u64,
>(
    geom: &Geometry,
    z: u8,
    cx: u64,
    cy: u64,
    zbase: u8,
    cell: &C,
    edges: &E,
    along: &T,
    lerp: &L,
) -> (r: bool)
    requires
        is_function(*cell),
        is_function(*edges),
        is_function(*along),
        is_function(*lerp),
        z < 64,
        cx < pow2(z as nat),
        cy < pow2(z as nat),
    ensures
        r == descent_ends(
            geom@,
            z as int,
            cx as int,
            cy as int,
            zbase as int,
            *cell,
            *edges,
            *along,
            *lerp,
        ),
    decreases 64 - z,
{
    proof {
        reveal(descent_ends);
    }
    let rect: Rect = cell((z, cx, cy));
    assert(call_ensures(*cell, ((z, cx, cy),), rect));
    let c: Geometry = match clip_geometry(geom, rect, edges, along, lerp) {
        None => return true,
        Some(c) => c,
    };
    if z >= zbase || coord_count(&c) <= FRAGMENT_STOP_VERTS {
        return true;
    }
    if z == 63 {
        assert(!descent_ends(
            c@,
            z + 1,
            cx * 2,
            cy * 2,
            zbase as int,
            *cell,
            *edges,
            *along,
            *lerp,
        ));
        return false;
    }
    proof {
        lemma_cell_below(z as nat, cx as int);
        lemma_cell_below(z as nat, cy as int);
    }
    let x: u64 = cx * 2;
    let y: u64 = cy * 2;
    let next: u8 = z + 1;
    cell_ends(&c, next, x, y, zbase, cell, edges, along, lerp)
        && cell_ends(&c, next, x + 1, y, zbase, cell, edges, along, lerp)
        && cell_ends(&c, next, x, y + 1, zbase, cell, edges, along, lerp)
        && cell_ends(&c, next, x + 1, y + 1, zbase, cell, edges, along, lerp)
}

/// A descent that ends goes on below a cell that is no fragment.
proof fn lemma_descent_below<
    C: Fn((u8, u64, u64)) -> Rect,
    E: Fn((Coord, Coord, Rect)) -> Edges,
    T: Fn((Coord, Coord, u64)) -> Coord,
    L: Fn((Coord, Coord, u64)) -> u64,
>(
    g: GeometryModel,
    c: GeometryModel,
    z: int,
    cx: int,
    cy: int,
    zbase: int,
    cell: C,
    edges: E,
    along: T,
    lerp: L,
)
    requires
        descent_ends(g, z, cx, cy, zbase, cell, edges, along, lerp),
        clipped(g, value_of(cell, (z as u8, cx as u64, cy as u64)), edges, along, lerp) == Some(c),
        z < zbase,
        geometry_coords(c).len() > FRAGMENT_STOP_VERTS,
    ensures
        z < 63,
        descent_ends(c, z + 1, cx * 2, cy * 2, zbase, cell, edges, along, lerp),
        descent_ends(c, z + 1, cx * 2 + 1, cy * 2, zbase, cell, edges, along, lerp),
        descent_ends(c, z + 1, cx * 2, cy * 2 + 1, zbase, cell, edges, along, lerp),
        descent_ends(c, z + 1, cx * 2 + 1, cy * 2 + 1, zbase, cell, edges, along, lerp),
{
    reveal(descent_ends);
    assert(descent_ends(c, z + 1, cx * 2, cy * 2, zbase, cell, edges, along, lerp));
}

/// The fragments in a grid cell, one step down.
proof fn lemma_fragments_step<
    C: Fn((u8, u64, u64)) -> Rect,
    E: Fn((Coord, Coord, Rect)) -> Edges,
    T: Fn((Coord, Coord, u64)) -> Coord,
    L: Fn((Coord, Coord, u64)) -> u64,
>(
    g: GeometryModel,
    z: int,
    cx: int,
    cy: int,
    zbase: int,
    cell: C,
    edges: E,
    along: T,
    lerp: L,
)
    ensures
        ({
            let all = fragments_in(g, z, cx, cy, zbase, cell, edges, along, lerp);
            let rect = value_of(cell, (z as u8, cx as u64, cy as u64));
            match clipped(g, rect, edges, along, lerp) {
                None => all == Seq::<GeometryModel>::empty(),
                Some(c) => if z >= zbase || geometry_coords(c).len() <= FRAGMENT_STOP_VERTS {
                    all == seq![c]
                } else {
                    all == fragments_in(c, z + 1, cx * 2, cy * 2, zbase, cell, edges, along, lerp)
                        + fragments_in(
                        c,
                        z + 1,
                        cx * 2 + 1,
                        cy * 2,
                        zbase,
                        cell,
                        edges,
                        along,
                        lerp,
                    ) + fragments_in(c, z + 1, cx * 2, cy * 2 + 1, zbase, cell, edges, along, lerp)
                        + fragments_in(
                        c,
                        z + 1,
                        cx * 2 + 1,
                        cy * 2 + 1,
                        zbase,
                        cell,
                        edges,
                        along,
                        lerp,
                    )
                },
            }
        }),
{
    reveal(fragments_in);
}

/// Appends the fragments of a geometry in one grid cell.
fn segment_cell<
    C: Fn((u8, u64, u64)) -> Rect,
    E: Fn((Coord, Coord, Rect)) -> Edges,
    T: Fn((Coord, Coord, u64)) -> Coord,
    L: Fn((Coord, Coord, u64)) -> u64,
>(
    geom: &Geometry,
    z: u8,
    cx: u64,
    cy: u64,
    zbase: u8,
    cell: &C,
    edges: &E,
    along: &T,
    lerp: &L,
    out: &mut Vec<Geometry>,
)
    requires
        is_function(*cell),
        is_function(*edges),
        is_function(*along),
        is_function(*lerp),
        z <= zbase,
        descent_ends(
            geom@,
            z as int,
            cx as int,
            cy as int,
            zbase as int,
            *cell,
            *edges,
            *along,
            *lerp,
        ),
        cx < pow2(z as nat),
        cy < pow2(z as nat),
    ensures
        geometries_of(final(out)@) == geometries_of(old(out)@) + fragments_in(
            geom@,
            z as int,
            cx as int,
            cy as int,
            zbase as int,
            *cell,
            *edges,
            *along,
            *lerp,
        ),
    decreases zbase - z,
{
    let rect: Rect = cell((z, cx, cy));
    assert(call_ensures(*cell, ((z, cx, cy),), rect));
    let ghost before = geometries_of(out@);
    proof {
        lemma_fragments_step(
            geom@,
            z as int,
            cx as int,
            cy as int,
            zbase as int,
            *cell,
            *edges,
            *along,
            *lerp,
        );
    }
    let clipped_geom: Geometry = match clip_geometry(geom, rect, edges, along, lerp) {
        None => {
            assert(geometries_of(out@) =~= before + Seq::<GeometryModel>::empty());
            return ;
        },
        Some(c) => c,
    };
    if z >= zbase || coord_count(&clipped_geom) <= FRAGMENT_STOP_VERTS {
        let ghost added = clipped_geom@;
        out.push(clipped_geom);
        assert(geometries_of(out@) =~= before + seq![added]);
        return ;
    }
    proof {
        lemma_descent_below(
            geom@,
            clipped_geom@,
            z as int,
            cx as int,
            cy as int,
            zbase as int,
            *cell,
            *edges,
            *along,
            *lerp,
        );
        lemma_cell_below(z as nat, cx as int);
        lemma_cell_below(z as nat, cy as int);
    }
    let x: u64 = cx * 2;
    let y: u64 = cy * 2;
    let next: u8 = z + 1;
    segment_cell(&clipped_geom, next, x, y, zbase, cell, edges, along, lerp, out);
    segment_cell(&clipped_geom, next, x + 1, y, zbase, cell, edges, along, lerp, out);
    segment_cell(&clipped_geom, next, x, y + 1, zbase, cell, edges, along, lerp, out);
    segment_cell(&clipped_geom, next, x + 1, y + 1, zbase, cell, edges, along, lerp, out);
    proof {
        let at = |dx: int, dy: int|
            fragments_in(
                clipped_geom@,
                z + 1,
                cx * 2 + dx,
                cy * 2 + dy,
                zbase as int,
                *cell,
                *edges,
                *along,
                *lerp,
            );
        assert(before + at(0, 0) + at(1, 0) + at(0, 1) + at(1, 1) =~= before + (at(0, 0) + at(1, 0)
            + at(0, 1) + at(1, 1)));
    }
}

/// The cells below a grid cell are grid cells of the next zoom.
proof fn lemma_cell_below(z: nat, c: int)
    requires
        z < 63,
        0 <= c < pow2(z),
    ensures
        c * 2 + 1 < pow2(z + 1),
        pow2(z + 1) <= 0x8000_0000_0000_0000,
{
    lemma_pow2_unfold(z + 1);
    lemma2_to64();
    lemma2_to64_rest();
    if z + 1 < 63 {
        lemma_pow2_strictly_increases(z + 1, 63);
    }
}

/// Clip a (mercator) geometry into grid cells.
///
/// Recursive quadtree descent: each level clips against four child cells
/// and only recurses where geometry remains. Descent stops at `zbase`
/// (boundary detail) or as soon as a fragment is small
/// ([`FRAGMENT_STOP_VERTS`]). All emitted cells are power-of-two grid
/// cells at z <= zbase, so tile boundaries at z >= zbase still nest within
/// fragment edges.
pub fn segment_feature<
    C: Fn((u8, u64, u64)) -> Rect,
    E: Fn((Coord, Coord, Rect)) -> Edges,
    T: Fn((Coord, Coord, u64)) -> Coord,
    L: Fn((Coord, Coord, u64)) -> u64,
>(
    merc: &Geometry,
    zbase: u8,
    cell: &C,
    edges: &E,
    along: &T,
    lerp: &L,
) -> (out: Vec<Geometry>)
    requires
        is_function(*cell),
        is_function(*edges),
        is_function(*along),
        is_function(*lerp),
        descent_ends(merc@, 0, 0, 0, zbase as int, *cell, *edges, *along, *lerp),
    ensures
        geometries_of(out@) == fragments_in(
            merc@,
            0,
            0,
            0,
            zbase as int,
            *cell,
            *edges,
            *along,
            *lerp,
        ),
{
    let mut out: Vec<Geometry> = Vec::new();
    proof {
        lemma2_to64();
    }
    let ghost before = geometries_of(out@);
    segment_cell(merc, 0, 0, 0, zbase, cell, edges, along, lerp, &mut out);
    assert(before + geometries_of(out@) =~= geometries_of(out@));
    assert(geometries_of(out@) =~= fragments_in(
        merc@,
        0,
        0,
        0,
        zbase as int,
        *cell,
        *edges,
        *along,
        *lerp,
    ));
    out
}

// ---- fragments and grid cells -----------------------------------------------

/// A cell of the grid that divides the world into `2^z` columns and rows.
pub struct GridCell {
    pub z: int,
    pub cx: int,
    pub cy: int,
}

impl GridCell {
    pub open spec fn wf(self) -> bool {
        &&& 0 <= self.z
        &&& 0 <= self.cx < pow2(self.z as nat)
        &&& 0 <= self.cy < pow2(self.z as nat)
    }

    /// The cell of the zoom before that this one lies in.
    pub open spec fn parent(self) -> GridCell {
        GridCell { z: self.z - 1, cx: self.cx / 2, cy: self.cy / 2 }
    }

    /// One of the four cells of the next zoom in this one.
    pub open spec fn child(self, dx: int, dy: int) -> GridCell {
        GridCell { z: self.z + 1, cx: self.cx * 2 + dx, cy: self.cy * 2 + dy }
    }

    /// This cell is `c`, or a part of it.
    pub open spec fn lies_in(self, c: GridCell) -> bool
        decreases self.z - c.z,
    {
        if self.z <= c.z {
            self == c
        } else {
            self.parent().lies_in(c)
        }
    }

    /// The two cells have no part in common.
    pub open spec fn apart_from(self, c: GridCell) -> bool {
        !self.lies_in(c) && !c.lies_in(self)
    }
}

/// What is left of a geometry in a grid cell after it was clipped to the
/// cell of each zoom on the way.
pub open spec fn part_in<
    C: Fn((u8, u64, u64)) -> Rect,
    E: Fn((Coord, Coord, Rect)) -> Edges,
    T: Fn((Coord, Coord, u64)) -> Coord,
    L: Fn((Coord, Coord, u64)) -> u64,
>(
    g: GeometryModel,
    c: GridCell,
    cell: C,
    edges: E,
    along: T,
    lerp: L,
) -> Option<GeometryModel>
    decreases c.z,
{
    let rect = value_of(cell, (c.z as u8, c.cx as u64, c.cy as u64));
    if c.z <= 0 {
        clipped(g, rect, edges, along, lerp)
    } else {
        match part_in(g, c.parent(), cell, edges, along, lerp) {
            None => None,
            Some(h) => clipped(h, rect, edges, along, lerp),
        }
    }
}

/// The cells of the fragments that [`fragments_in`] gives, in their order.
pub open spec fn fragment_cells<
    C: Fn((u8, u64, u64)) -> Rect,
    E: Fn((Coord, Coord, Rect)) -> Edges,
    T: Fn((Coord, Coord, u64)) -> Coord,
    L: Fn((Coord, Coord, u64)) -> u64,
>(
    g: GeometryModel,
    c: GridCell,
    zbase: int,
    cell: C,
    edges: E,
    along: T,
    lerp: L,
) -> Seq<GridCell>
    decreases zbase - c.z,
{
    match clipped(g, value_of(cell, (c.z as u8, c.cx as u64, c.cy as u64)), edges, along, lerp) {
        None => Seq::empty(),
        Some(h) => if c.z >= zbase || geometry_coords(h).len() <= FRAGMENT_STOP_VERTS {
            seq![c]
        } else {
            fragment_cells(h, c.child(0, 0), zbase, cell, edges, along, lerp) + fragment_cells(
                h,
                c.child(1, 0),
                zbase,
                cell,
                edges,
                along,
                lerp,
            ) + fragment_cells(h, c.child(0, 1), zbase, cell, edges, along, lerp) + fragment_cells(
                h,
                c.child(1, 1),
                zbase,
                cell,
                edges,
                along,
                lerp,
            )
        },
    }
}

/// A fragment of a geometry: what is left of it in one grid cell, which is at
/// the zoom of the grid, or above it and then holds little.
pub open spec fn is_fragment<
    C: Fn((u8, u64, u64)) -> Rect,
    E: Fn((Coord, Coord, Rect)) -> Edges,
    T: Fn((Coord, Coord, u64)) -> Coord,
    L: Fn((Coord, Coord, u64)) -> u64,
>(
    g: GeometryModel,
    fragment: GeometryModel,
    c: GridCell,
    zbase: int,
    cell: C,
    edges: E,
    along: T,
    lerp: L,
) -> bool {
    &&& c.wf()
    &&& c.z <= zbase
    &&& part_in(g, c, cell, edges, along, lerp) == Some(fragment)
    &&& c.z < zbase ==> geometry_coords(fragment).len() <= FRAGMENT_STOP_VERTS
}

/// No two cells have a part in common.
pub open spec fn all_apart(cells: Seq<GridCell>) -> bool {
    forall|i: int, j: int|
        0 <= i < j < cells.len() ==> (#[trigger] cells[i]).apart_from(#[trigger] cells[j])
}

/// Every cell lies in `c`.
pub open spec fn all_in(cells: Seq<GridCell>, c: GridCell) -> bool {
    forall|i: int| 0 <= i < cells.len() ==> (#[trigger] cells[i]).lies_in(c)
}

proof fn lemma_lies_in_transitive(a: GridCell, b: GridCell, c: GridCell)
    requires
        a.lies_in(b),
        b.lies_in(c),
    ensures
        a.lies_in(c),
    decreases a.z - b.z,
{
    if a.z > b.z {
        lemma_lies_in_deeper(a.parent(), b);
        lemma_lies_in_deeper(b, c);
        lemma_lies_in_transitive(a.parent(), b, c);
    }
}

proof fn lemma_lies_in_deeper(a: GridCell, c: GridCell)
    requires
        a.lies_in(c),
    ensures
        a.z >= c.z,
    decreases a.z - c.z,
{
    if a.z > c.z {
        lemma_lies_in_deeper(a.parent(), c);
    }
}

/// A cell lies in one cell only of each zoom.
proof fn lemma_lies_in_one(a: GridCell, b: GridCell, c: GridCell)
    requires
        a.lies_in(b),
        a.lies_in(c),
        b.z == c.z,
    ensures
        b == c,
    decreases a.z - b.z,
{
    if a.z > b.z {
        lemma_lies_in_one(a.parent(), b, c);
    }
}

proof fn lemma_cells_apart(x: GridCell, y: GridCell, b: GridCell, c: GridCell)
    requires
        x.lies_in(b),
        y.lies_in(c),
        b.z == c.z,
        b != c,
    ensures
        x.apart_from(y),
{
    if x.lies_in(y) {
        lemma_lies_in_transitive(x, y, c);
        lemma_lies_in_one(x, b, c);
    }
    if y.lies_in(x) {
        lemma_lies_in_transitive(y, x, b);
        lemma_lies_in_one(y, b, c);
    }
}

/// One of the cells holds the cell `leaf`.
pub open spec fn one_holds(cells: Seq<GridCell>, leaf: GridCell) -> bool {
    exists|i: int| 0 <= i < cells.len() && leaf.lies_in(#[trigger] cells[i])
}

/// Every cell at the zoom of the grid in which something is left of the
/// geometry lies in one of the cells, as far as it lies in `c`.
pub open spec fn all_held<
    C: Fn((u8, u64, u64)) -> Rect,
    E: Fn((Coord, Coord, Rect)) -> Edges,
    T: Fn((Coord, Coord, u64)) -> Coord,
    L: Fn((Coord, Coord, u64)) -> u64,
>(
    g: GeometryModel,
    c: GridCell,
    cells: Seq<GridCell>,
    zbase: int,
    cell: C,
    edges: E,
    along: T,
    lerp: L,
) -> bool {
    forall|leaf: GridCell| #[trigger]
        leaf.lies_in(c) && leaf.z == zbase && part_in(g, leaf, cell, edges, along, lerp) is Some
            ==> one_holds(cells, leaf)
}

/// The fragments of a geometry in a cell, and their cells.
pub open spec fn well_cut<
    C: Fn((u8, u64, u64)) -> Rect,
    E: Fn((Coord, Coord, Rect)) -> Edges,
    T: Fn((Coord, Coord, u64)) -> Coord,
    L: Fn((Coord, Coord, u64)) -> u64,
>(
    g: GeometryModel,
    fragments: Seq<GeometryModel>,
    cells: Seq<GridCell>,
    zbase: int,
    cell: C,
    edges: E,
    along: T,
    lerp: L,
) -> bool {
    &&& fragments.len() == cells.len()
    &&& forall|i: int|
        0 <= i < cells.len() ==> is_fragment(
            g,
            fragments[i],
            #[trigger] cells[i],
            zbase,
            cell,
            edges,
            along,
            lerp,
        )
    &&& all_apart(cells)
}

/// Putting the fragments of a cell behind those of other cells of its zoom.
proof fn lemma_cut_more<
    C: Fn((u8, u64, u64)) -> Rect,
    E: Fn((Coord, Coord, Rect)) -> Edges,
    T: Fn((Coord, Coord, u64)) -> Coord,
    L: Fn((Coord, Coord, u64)) -> u64,
>(
    g: GeometryModel,
    fs: Seq<GeometryModel>,
    s: Seq<GridCell>,
    more: Seq<GeometryModel>,
    t: Seq<GridCell>,
    done: Seq<GridCell>,
    c: GridCell,
    zbase: int,
    cell: C,
    edges: E,
    along: T,
    lerp: L,
)
    requires
        well_cut(g, fs, s, zbase, cell, edges, along, lerp),
        well_cut(g, more, t, zbase, cell, edges, along, lerp),
        all_in(t, c),
        forall|i: int| 0 <= i < s.len() ==> one_holds(done, #[trigger] s[i]),
        forall|k: int| 0 <= k < done.len() ==> (#[trigger] done[k]).z == c.z && done[k] != c,
    ensures
        well_cut(g, fs + more, s + t, zbase, cell, edges, along, lerp),
        forall|i: int| 0 <= i < (s + t).len() ==> one_holds(done.push(c), #[trigger] (s + t)[i]),
{
    assert forall|i: int, j: int| 0 <= i < j < (s + t).len() implies (#[trigger] (s
        + t)[i]).apart_from(#[trigger] (s + t)[j]) by {
        if i < s.len() && j >= s.len() {
            assert(one_holds(done, s[i]));
            let k = choose|k: int| 0 <= k < done.len() && s[i].lies_in(#[trigger] done[k]);
            assert((s + t)[j] == t[j - s.len()]);
            lemma_cells_apart(s[i], t[j - s.len()], done[k], c);
        } else if j < s.len() {
            assert(s[i].apart_from(s[j]));
        } else {
            assert(t[i - s.len()].apart_from(t[j - s.len()]));
        }
    }
    assert forall|i: int| 0 <= i < (s + t).len() implies one_holds(
        done.push(c),
        #[trigger] (s + t)[i],
    ) by {
        if i < s.len() {
            assert(one_holds(done, s[i]));
            let k = choose|k: int| 0 <= k < done.len() && s[i].lies_in(#[trigger] done[k]);
            assert(done.push(c)[k] == done[k]);
        } else {
            assert(t[i - s.len()].lies_in(c));
            assert(done.push(c)[done.len() as int] == c);
        }
    }
    assert forall|i: int| 0 <= i < (s + t).len() implies is_fragment(
        g,
        (fs + more)[i],
        #[trigger] (s + t)[i],
        zbase,
        cell,
        edges,
        along,
        lerp,
    ) by {
        if i < s.len() {
            assert(is_fragment(g, fs[i], s[i], zbase, cell, edges, along, lerp));
        } else {
            let k = i - s.len();
            assert(is_fragment(g, more[k], t[k], zbase, cell, edges, along, lerp));
        }
    }
}

/// A cell below `c` lies in one of the four cells of the next zoom.
proof fn lemma_lies_in_child(leaf: GridCell, c: GridCell)
    requires
        leaf.lies_in(c),
        leaf.z > c.z,
    ensures
        leaf.lies_in(c.child(0, 0)) || leaf.lies_in(c.child(1, 0)) || leaf.lies_in(c.child(0, 1))
            || leaf.lies_in(c.child(1, 1)),
    decreases leaf.z - c.z,
{
    if leaf.z == c.z + 1 {
        assert(leaf.parent().lies_in(c));
        assert(leaf == c.child(leaf.cx % 2, leaf.cy % 2));
    } else {
        lemma_lies_in_child(leaf.parent(), c);
    }
}

/// Where something is left of a geometry, something is left in the cells
/// around.
proof fn lemma_part_around<
    C: Fn((u8, u64, u64)) -> Rect,
    E: Fn((Coord, Coord, Rect)) -> Edges,
    T: Fn((Coord, Coord, u64)) -> Coord,
    L: Fn((Coord, Coord, u64)) -> u64,
>(
    g: GeometryModel,
    leaf: GridCell,
    c: GridCell,
    cell: C,
    edges: E,
    along: T,
    lerp: L,
)
    requires
        leaf.lies_in(c),
        0 <= c.z,
        part_in(g, leaf, cell, edges, along, lerp) is Some,
    ensures
        part_in(g, c, cell, edges, along, lerp) is Some,
    decreases leaf.z - c.z,
{
    if leaf.z > c.z {
        lemma_part_around(g, leaf.parent(), c, cell, edges, along, lerp);
    }
}

proof fn lemma_child(c: GridCell, dx: int, dy: int)
    requires
        c.wf(),
        0 <= dx <= 1,
        0 <= dy <= 1,
    ensures
        c.child(dx, dy).wf(),
        c.child(dx, dy).parent() == c,
        c.child(dx, dy).lies_in(c),
{
    lemma_pow2_unfold((c.z + 1) as nat);
    assert(c.child(dx, dy).parent().lies_in(c));
}

/// The fragments of a geometry in the cell `c`, and their cells: they are cut
/// along the grid, and nothing in `c` is lost.
pub open spec fn cut_in<
    C: Fn((u8, u64, u64)) -> Rect,
    E: Fn((Coord, Coord, Rect)) -> Edges,
    T: Fn((Coord, Coord, u64)) -> Coord,
    L: Fn((Coord, Coord, u64)) -> u64,
>(
    g: GeometryModel,
    fragments: Seq<GeometryModel>,
    cells: Seq<GridCell>,
    c: GridCell,
    zbase: int,
    cell: C,
    edges: E,
    along: T,
    lerp: L,
) -> bool {
    &&& well_cut(g, fragments, cells, zbase, cell, edges, along, lerp)
    &&& all_in(cells, c)
    &&& all_held(g, c, cells, zbase, cell, edges, along, lerp)
}

/// The fragments in a cell, from those in the four cells below.
proof fn lemma_four_cut<
    C: Fn((u8, u64, u64)) -> Rect,
    E: Fn((Coord, Coord, Rect)) -> Edges,
    T: Fn((Coord, Coord, u64)) -> Coord,
    L: Fn((Coord, Coord, u64)) -> u64,
>(
    g: GeometryModel,
    c: GridCell,
    f0: Seq<GeometryModel>,
    s0: Seq<GridCell>,
    f1: Seq<GeometryModel>,
    s1: Seq<GridCell>,
    f2: Seq<GeometryModel>,
    s2: Seq<GridCell>,
    f3: Seq<GeometryModel>,
    s3: Seq<GridCell>,
    zbase: int,
    cell: C,
    edges: E,
    along: T,
    lerp: L,
)
    requires
        c.wf(),
        cut_in(g, f0, s0, c.child(0, 0), zbase, cell, edges, along, lerp),
        cut_in(g, f1, s1, c.child(1, 0), zbase, cell, edges, along, lerp),
        cut_in(g, f2, s2, c.child(0, 1), zbase, cell, edges, along, lerp),
        cut_in(g, f3, s3, c.child(1, 1), zbase, cell, edges, along, lerp),
    ensures
        well_cut(g, f0 + f1 + f2 + f3, s0 + s1 + s2 + s3, zbase, cell, edges, along, lerp),
        all_in(s0 + s1 + s2 + s3, c),
{
    let c0 = c.child(0, 0);
    let c1 = c.child(1, 0);
    let c2 = c.child(0, 1);
    let c3 = c.child(1, 1);
    let d1 = seq![c0];
    let d2 = d1.push(c1);
    let d3 = d2.push(c2);
    let d4 = d3.push(c3);
    assert forall|i: int| 0 <= i < s0.len() implies one_holds(d1, #[trigger] s0[i]) by {
        assert(s0[i].lies_in(d1[0]));
    }
    lemma_cut_more(g, f0, s0, f1, s1, d1, c1, zbase, cell, edges, along, lerp);
    let f = f0 + f1;
    let s = s0 + s1;
    lemma_cut_more(g, f, s, f2, s2, d2, c2, zbase, cell, edges, along, lerp);
    lemma_cut_more(g, f + f2, s + s2, f3, s3, d3, c3, zbase, cell, edges, along, lerp);
    let cells = s + s2 + s3;
    assert forall|i: int| 0 <= i < cells.len() implies (#[trigger] cells[i]).lies_in(c) by {
        assert(one_holds(d4, cells[i]));
        let j = choose|j: int| 0 <= j < d4.len() && cells[i].lies_in(#[trigger] d4[j]);
        lemma_child(c, 0, 0);
        lemma_child(c, 1, 0);
        lemma_child(c, 0, 1);
        lemma_child(c, 1, 1);
        lemma_lies_in_transitive(cells[i], d4[j], c);
    }
}

/// Nothing is lost in a cell if nothing is lost in the four cells below.
proof fn lemma_four_held<
    C: Fn((u8, u64, u64)) -> Rect,
    E: Fn((Coord, Coord, Rect)) -> Edges,
    T: Fn((Coord, Coord, u64)) -> Coord,
    L: Fn((Coord, Coord, u64)) -> u64,
>(
    g: GeometryModel,
    c: GridCell,
    s0: Seq<GridCell>,
    s1: Seq<GridCell>,
    s2: Seq<GridCell>,
    s3: Seq<GridCell>,
    zbase: int,
    cell: C,
    edges: E,
    along: T,
    lerp: L,
)
    requires
        c.z < zbase,
        all_held(g, c.child(0, 0), s0, zbase, cell, edges, along, lerp),
        all_held(g, c.child(1, 0), s1, zbase, cell, edges, along, lerp),
        all_held(g, c.child(0, 1), s2, zbase, cell, edges, along, lerp),
        all_held(g, c.child(1, 1), s3, zbase, cell, edges, along, lerp),
    ensures
        all_held(g, c, s0 + s1 + s2 + s3, zbase, cell, edges, along, lerp),
{
    let cells = s0 + s1 + s2 + s3;
    let n = s0.len() + s1.len();
    assert(cells.subrange(0, s0.len() as int) =~= s0);
    assert(cells.subrange(s0.len() as int, n as int) =~= s1);
    assert(cells.subrange(n as int, (n + s2.len()) as int) =~= s2);
    assert(cells.subrange((n + s2.len()) as int, cells.len() as int) =~= s3);
    assert forall|leaf: GridCell| #[trigger]
        leaf.lies_in(c) && leaf.z == zbase && part_in(g, leaf, cell, edges, along, lerp) is Some
        implies one_holds(cells, leaf) by {
        lemma_lies_in_child(leaf, c);
        if leaf.lies_in(c.child(0, 0)) {
            lemma_held_among(s0, leaf, cells, 0);
        } else if leaf.lies_in(c.child(1, 0)) {
            lemma_held_among(s1, leaf, cells, s0.len() as int);
        } else if leaf.lies_in(c.child(0, 1)) {
            lemma_held_among(s2, leaf, cells, n as int);
        } else {
            lemma_held_among(s3, leaf, cells, (n + s2.len()) as int);
        }
    }
}

proof fn lemma_held_among(part: Seq<GridCell>, leaf: GridCell, cells: Seq<GridCell>, at: int)
    requires
        one_holds(part, leaf),
        0 <= at,
        at + part.len() <= cells.len(),
        part == cells.subrange(at, at + part.len()),
    ensures
        one_holds(cells, leaf),
{
    let i = choose|i: int| 0 <= i < part.len() && leaf.lies_in(#[trigger] part[i]);
    assert(cells[at + i] == part[i]);
}

/// No fragment is needed in a cell in which nothing is left, and one is
/// enough in a cell that is one.
proof fn lemma_ends_cut<
    C: Fn((u8, u64, u64)) -> Rect,
    E: Fn((Coord, Coord, Rect)) -> Edges,
    T: Fn((Coord, Coord, u64)) -> Coord,
    L: Fn((Coord, Coord, u64)) -> u64,
>(
    g: GeometryModel,
    c: GridCell,
    zbase: int,
    cell: C,
    edges: E,
    along: T,
    lerp: L,
)
    requires
        c.wf(),
        c.z <= zbase,
    ensures
        match part_in(g, c, cell, edges, along, lerp) {
            None => cut_in(
                g,
                Seq::empty(),
                Seq::empty(),
                c,
                zbase,
                cell,
                edges,
                along,
                lerp,
            ),
            Some(k) => c.z >= zbase || geometry_coords(k).len() <= FRAGMENT_STOP_VERTS ==> cut_in(
                g,
                seq![k],
                seq![c],
                c,
                zbase,
                cell,
                edges,
                along,
                lerp,
            ),
        },
{
    let part = part_in(g, c, cell, edges, along, lerp);
    let cells = if part is None {
        Seq::empty()
    } else {
        seq![c]
    };
    assert forall|leaf: GridCell| #[trigger]
        leaf.lies_in(c) && leaf.z == zbase && part_in(g, leaf, cell, edges, along, lerp) is Some
        implies one_holds(cells, leaf) by {
        lemma_part_around(g, leaf, c, cell, edges, along, lerp);
        assert(leaf.lies_in(cells[0]));
    }
}

/// The fragments in `c` of what is left in the cells around it.
#[verifier::spinoff_prover]
proof fn lemma_fragments<
    C: Fn((u8, u64, u64)) -> Rect,
    E: Fn((Coord, Coord, Rect)) -> Edges,
    T: Fn((Coord, Coord, u64)) -> Coord,
    L: Fn((Coord, Coord, u64)) -> u64,
>(
    g: GeometryModel,
    h: GeometryModel,
    c: GridCell,
    zbase: int,
    cell: C,
    edges: E,
    along: T,
    lerp: L,
)
    requires
        c.wf(),
        c.z <= zbase,
        part_in(g, c, cell, edges, along, lerp) == clipped(
            h,
            value_of(cell, (c.z as u8, c.cx as u64, c.cy as u64)),
            edges,
            along,
            lerp,
        ),
    ensures
        cut_in(
            g,
            fragments_in(h, c.z, c.cx, c.cy, zbase, cell, edges, along, lerp),
            fragment_cells(h, c, zbase, cell, edges, along, lerp),
            c,
            zbase,
            cell,
            edges,
            along,
            lerp,
        ),
    decreases zbase - c.z,
{
    lemma_fragments_step(h, c.z, c.cx, c.cy, zbase, cell, edges, along, lerp);
    lemma_ends_cut(g, c, zbase, cell, edges, along, lerp);
    if let Some(k) = part_in(g, c, cell, edges, along, lerp) {
        if c.z < zbase && geometry_coords(k).len() > FRAGMENT_STOP_VERTS {
            let fs = |dx: int, dy: int|
                fragments_in(
                    k,
                    c.z + 1,
                    c.cx * 2 + dx,
                    c.cy * 2 + dy,
                    zbase,
                    cell,
                    edges,
                    along,
                    lerp,
                );
            let at = |dx: int, dy: int|
                fragment_cells(k, c.child(dx, dy), zbase, cell, edges, along, lerp);
            lemma_child(c, 0, 0);
            lemma_child(c, 1, 0);
            lemma_child(c, 0, 1);
            lemma_child(c, 1, 1);
            lemma_fragments(g, k, c.child(0, 0), zbase, cell, edges, along, lerp);
            lemma_fragments(g, k, c.child(1, 0), zbase, cell, edges, along, lerp);
            lemma_fragments(g, k, c.child(0, 1), zbase, cell, edges, along, lerp);
            lemma_fragments(g, k, c.child(1, 1), zbase, cell, edges, along, lerp);
            lemma_four_cut(
                g,
                c,
                fs(0, 0),
                at(0, 0),
                fs(1, 0),
                at(1, 0),
                fs(0, 1),
                at(0, 1),
                fs(1, 1),
                at(1, 1),
                zbase,
                cell,
                edges,
                along,
                lerp,
            );
            lemma_four_held(
                g,
                c,
                at(0, 0),
                at(1, 0),
                at(0, 1),
                at(1, 1),
                zbase,
                cell,
                edges,
                along,
                lerp,
            );
        }
    }
}

/// The fragments of a geometry are cut along the grid: each is what is left
/// of the geometry in one grid cell at the zoom of the grid, or in one above
/// it that holds little; no two of these cells have a part in common; and
/// nothing is lost, for every cell of the grid in which something is left of
/// the geometry lies in one of them.
pub proof fn law_fragments_are_grid_cells<
    C: Fn((u8, u64, u64)) -> Rect,
    E: Fn((Coord, Coord, Rect)) -> Edges,
    T: Fn((Coord, Coord, u64)) -> Coord,
    L: Fn((Coord, Coord, u64)) -> u64,
>(
    g: GeometryModel,
    zbase: int,
    cell: C,
    edges: E,
    along: T,
    lerp: L,
)
    requires
        0 <= zbase,
    ensures
        ({
            let world = GridCell { z: 0, cx: 0, cy: 0 };
            let fs = fragments_in(g, 0, 0, 0, zbase, cell, edges, along, lerp);
            let cells = fragment_cells(g, world, zbase, cell, edges, along, lerp);
            cut_in(g, fs, cells, world, zbase, cell, edges, along, lerp)
        }),
{
    lemma2_to64();
    lemma_fragments(g, g, GridCell { z: 0, cx: 0, cy: 0 }, zbase, cell, edges, along, lerp);
}

/// One overview level as the encoder applies it.
#[derive(Debug, Clone, Copy, PartialEq, Eq, Structural)]
pub struct LevelPlan {
    pub level: LevelSpec,
    /// Importance threshold of the level.
    pub threshold: u16,
    /// Least extent of a feature, in unit mercator, as a bit pattern.
    pub min_extent: u64,
}

/// What a level shows of a feature: the filtered geometry, unless it
/// degenerates or is too small.
pub open spec fn shown<
    P: Fn(Coord) -> Coord,
    N: Fn((u64, u64, u64)) -> bool,
>(
    g: GeometryModel,
    imp: Seq<u16>,
    level: LevelPlan,
    project: P,
    narrow: N,
) -> Option<GeometryModel> {
    match kept_geometry(g, imp, 0, level.threshold) {
        Some(f) => if too_small(f, level.min_extent, project, narrow) {
            None
        } else {
            Some(f)
        },
        None => None,
    }
}

/// What one level shows of a feature.
pub fn show_feature<
    P: Fn(Coord) -> Coord,
    N: Fn((u64, u64, u64)) -> bool,
>(
    geom: &Geometry,
    imp: &Vec<u16>,
    level: LevelPlan,
    project: &P,
    narrow: &N,
) -> (r: Option<Geometry>)
    requires
        is_function(*project),
        is_function(*narrow),
        begins(geom@, 0, imp@.len() as int),
    ensures
        match r {
            Some(f) => shown(geom@, imp@, level, *project, *narrow) == Some(f@),
            None => shown(geom@, imp@, level, *project, *narrow) is None,
        },
{
    match filter_geometry(geom, imp.as_slice(), level.threshold) {
        Some(f) => if is_too_small(&f, level.min_extent, project, narrow) {
            None
        } else {
            Some(f)
        },
        None => None,
    }
}

/// A feature staged for writing.
pub struct StagedFeature {
    /// Importance array, for the sidecar.
    pub importance: Vec<u16>,
    /// For each level what it shows of the feature.
    pub overviews: Vec<Option<Geometry>>,
    /// Fragments, if the feature is large.
    pub fragments: Option<Vec<Geometry>>,
}

/// A staged feature as a mathematical value.
#[verifier::ext_equal]
pub struct StagedModel {
    pub importance: Seq<u16>,
    pub overviews: Seq<Option<GeometryModel>>,
    pub fragments: Option<Seq<GeometryModel>>,
}

/// An optional geometry as a mathematical value.
pub open spec fn shape_of(g: Option<Geometry>) -> Option<GeometryModel> {
    match g {
        Some(g) => Some(g@),
        None => None,
    }
}

impl View for StagedFeature {
    type V = StagedModel;

    open spec fn view(&self) -> StagedModel {
        StagedModel {
            importance: self.importance@,
            overviews: Seq::new(self.overviews@.len(), |i: int| shape_of(self.overviews@[i])),
            fragments: match self.fragments {
                Some(v) => Some(geometries_of(v@)),
                None => None,
            },
        }
    }
}

/// Whether a geometry is large enough to be segmented.
pub open spec fn is_large(g: GeometryModel, v_max: u32) -> bool {
    v_max > 0 && geometry_coords(g).len() > v_max
}

/// How a lon/lat feature is staged. Importance and fragments are made in
/// unit mercator; overviews and fragments are stored in lon/lat.
pub open spec fn staged<
    P: Fn(Coord) -> Coord,
    U: Fn(Coord) -> Coord,
    D: Fn((Coord, Coord, Coord)) -> u64,
    Q: Fn(u64) -> u16,
    N: Fn((u64, u64, u64)) -> bool,
    C: Fn((u8, u64, u64)) -> Rect,
    E: Fn((Coord, Coord, Rect)) -> Edges,
    T: Fn((Coord, Coord, u64)) -> Coord,
    L: Fn((Coord, Coord, u64)) -> u64,
>(
    g: GeometryModel,
    levels: Seq<LevelPlan>,
    v_max: u32,
    zbase: u8,
    plane: Plane<P, U, D, Q, N, C, E, T, L>,
) -> StagedModel {
    let merc = mapped(g, plane.project);
    let imp = geometry_values(merc, plane.dist, plane.quantize);
    StagedModel {
        importance: imp,
        overviews: Seq::new(
            levels.len(),
            |i: int| shown(g, imp, levels[i], plane.project, plane.narrow),
        ),
        fragments: if is_large(g, v_max) {
            let cells = fragments_in(
                merc,
                0,
                0,
                0,
                zbase as int,
                plane.cell,
                plane.edges,
                plane.along,
                plane.lerp,
            );
            Some(Seq::new(cells.len(), |i: int| mapped(cells[i], plane.unproject)))
        } else {
            None
        },
    }
}

/// A lon/lat feature is not large, or can be cut into fragments.
pub open spec fn can_segment<
    P: Fn(Coord) -> Coord,
    U: Fn(Coord) -> Coord,
    D: Fn((Coord, Coord, Coord)) -> u64,
    Q: Fn(u64) -> u16,
    N: Fn((u64, u64, u64)) -> bool,
    C: Fn((u8, u64, u64)) -> Rect,
    E: Fn((Coord, Coord, Rect)) -> Edges,
    T: Fn((Coord, Coord, u64)) -> Coord,
    L: Fn((Coord, Coord, u64)) -> u64,
>(
    g: GeometryModel,
    v_max: u32,
    zbase: u8,
    plane: Plane<P, U, D, Q, N, C, E, T, L>,
) -> bool {
    is_large(g, v_max) ==> descent_ends(
        mapped(g, plane.project),
        0,
        0,
        0,
        zbase as int,
        plane.cell,
        plane.edges,
        plane.along,
        plane.lerp,
    )
}

/// Whether a feature can be staged: either it is not large, or cutting it
/// into fragments does not get to a zoom whose cells have no numbers. That
/// can only happen with a grid at such a zoom.
pub fn is_segmentable<
    P: Fn(Coord) -> Coord,
    U: Fn(Coord) -> Coord,
    D: Fn((Coord, Coord, Coord)) -> u64,
    Q: Fn(u64) -> u16,
    N: Fn((u64, u64, u64)) -> bool,
    C: Fn((u8, u64, u64)) -> Rect,
    E: Fn((Coord, Coord, Rect)) -> Edges,
    T: Fn((Coord, Coord, u64)) -> Coord,
    L: Fn((Coord, Coord, u64)) -> u64,
>(
    geom: &Geometry,
    v_max: u32,
    zbase: u8,
    plane: &Plane<P, U, D, Q, N, C, E, T, L>,
) -> (r: bool)
    requires
        plane.wf(),
    ensures
        r == can_segment(geom@, v_max, zbase, *plane),
        zbase < 64 ==> r,
{
    proof {
        lemma2_to64();
        if zbase < 64 {
            law_descent_ends(
                mapped(geom@, plane.project),
                0,
                0,
                0,
                zbase as int,
                plane.cell,
                plane.edges,
                plane.along,
                plane.lerp,
            );
        }
    }
    if zbase < 64 || v_max == 0 || coord_count(geom) as u64 <= v_max as u64 {
        return true;
    }
    let merc: Geometry = map_coords(geom, &plane.project);
    cell_ends(&merc, 0, 0, 0, zbase, &plane.cell, &plane.edges, &plane.along, &plane.lerp)
}

/// Stages one feature: its importance array, what each overview level shows
/// of it, and its fragments if it is large.
pub fn stage_feature<
    P: Fn(Coord) -> Coord,
    U: Fn(Coord) -> Coord,
    D: Fn((Coord, Coord, Coord)) -> u64,
    Q: Fn(u64) -> u16,
    N: Fn((u64, u64, u64)) -> bool,
    C: Fn((u8, u64, u64)) -> Rect,
    E: Fn((Coord, Coord, Rect)) -> Edges,
    T: Fn((Coord, Coord, u64)) -> Coord,
    L: Fn((Coord, Coord, u64)) -> u64,
>(
    geom: &Geometry,
    levels: &Vec<LevelPlan>,
    v_max: u32,
    zbase: u8,
    plane: &Plane<P, U, D, Q, N, C, E, T, L>,
) -> (r: StagedFeature)
    requires
        plane.wf(),
        storable(geom@),
        can_segment(geom@, v_max, zbase, *plane),
    ensures
        r@ == staged(geom@, levels@, v_max, zbase, *plane),
        r@.importance.len() == geometry_coords(geom@).len(),
{
    // importance in unit mercator
    let merc: Geometry = map_coords(geom, &plane.project);
    proof {
        lemma_mapped_storable(geom@, plane.project);
        law_mapped_coords(geom@, plane.project);
    }
    let importance: Vec<u16> = geometry_importance(&merc, &plane.dist, &plane.quantize);
    let ghost imp = importance@;
    proof {
        law_full_array_suffices(geom@, 0, imp.len() as int);
    }

    // overview levels
    let n: usize = levels.len();
    let mut overviews: Vec<Option<Geometry>> = Vec::new();
    let mut i: usize = 0;
    while i < n
        invariant
            i <= n,
            n == levels@.len(),
            plane.wf(),
            importance@ == imp,
            begins(geom@, 0, imp.len() as int),
            overviews@.len() == i,
            forall|j: int|
                0 <= j < i ==> shape_of(#[trigger] overviews@[j]) == shown(
                    geom@,
                    imp,
                    levels@[j],
                    plane.project,
                    plane.narrow,
                ),
        decreases n - i,
    {
        overviews.push(
            show_feature(geom, &importance, levels[i], &plane.project, &plane.narrow),
        );
        i = i + 1;
    }

    // segments for large features
    let fragments: Option<Vec<Geometry>> = if v_max > 0 && coord_count(geom) as u64 > v_max as u64 {
        let cells: Vec<Geometry> = segment_feature(
            &merc,
            zbase,
            &plane.cell,
            &plane.edges,
            &plane.along,
            &plane.lerp,
        );
        let ghost models = geometries_of(cells@);
        let m: usize = cells.len();
        let mut out: Vec<Geometry> = Vec::new();
        let mut k: usize = 0;
        while k < m
            invariant
                k <= m,
                m == cells@.len(),
                plane.wf(),
                models == geometries_of(cells@),
                out@.len() == k,
                forall|j: int|
                    0 <= j < k ==> (#[trigger] out@[j])@ == mapped(models[j], plane.unproject),
            decreases m - k,
        {
            out.push(map_coords(&cells[k], &plane.unproject));
            k = k + 1;
        }
        assert(geometries_of(out@) =~= Seq::new(
            models.len(),
            |j: int| mapped(models[j], plane.unproject),
        ));
        Some(out)
    } else {
        None
    };
    let r: StagedFeature = StagedFeature { importance, overviews, fragments };
    proof {
        let want = staged(geom@, levels@, v_max, zbase, *plane);
        assert(r@.overviews =~= want.overviews);
        assert(r@.fragments == want.fragments);
    }
    r
}

/// What the encoder has gathered so far.
pub struct EncodeState {
    pub sidecar: ImportanceSidecar,
    /// Features shown by each level.
    pub level_counts: Vec<u64>,
    pub fragment_count: u64,
    pub segmented_ordinals: Vec<u64>,
    pub features_count: u64,
}

/// What the encoder has gathered, as a mathematical value.
#[verifier::ext_equal]
pub struct EncodeModel {
    pub sidecar: SidecarModel,
    pub level_counts: Seq<u64>,
    pub fragment_count: u64,
    pub segmented_ordinals: Seq<u64>,
    pub features_count: u64,
}

impl View for EncodeState {
    type V = EncodeModel;

    open spec fn view(&self) -> EncodeModel {
        EncodeModel {
            sidecar: self.sidecar@,
            level_counts: self.level_counts@,
            fragment_count: self.fragment_count,
            segmented_ordinals: self.segmented_ordinals@,
            features_count: self.features_count,
        }
    }
}

impl EncodeModel {
    /// Nothing is counted more often than there are features, the sidecar has
    /// an array for each, and the segmented ordinals ascend below their
    /// number.
    pub open spec fn wf(self) -> bool {
        &&& self.sidecar.built()
        &&& self.sidecar.count() == self.features_count
        &&& forall|i: int|
            0 <= i < self.level_counts.len() ==> #[trigger] self.level_counts[i]
                <= self.features_count
        &&& forall|i: int|
            0 <= i < self.segmented_ordinals.len() ==> #[trigger] self.segmented_ordinals[i]
                < self.features_count
        &&& forall|i: int, j: int|
            0 <= i < j < self.segmented_ordinals.len() ==> #[trigger] self.segmented_ordinals[i]
                < #[trigger] self.segmented_ordinals[j]
    }

    /// The state after one more feature was staged. The number of fragments
    /// stays at the greatest number there is, should it get there.
    pub open spec fn with(self, f: StagedModel) -> EncodeModel {
        EncodeModel {
            sidecar: self.sidecar.with(f.importance),
            level_counts: Seq::new(
                self.level_counts.len(),
                |i: int|
                    if f.overviews[i] is Some {
                        (self.level_counts[i] + 1) as u64
                    } else {
                        self.level_counts[i]
                    },
            ),
            fragment_count: match f.fragments {
                Some(fs) => if self.fragment_count + fs.len() <= u64::MAX {
                    (self.fragment_count + fs.len()) as u64
                } else {
                    u64::MAX
                },
                None => self.fragment_count,
            },
            segmented_ordinals: if f.fragments is Some {
                self.segmented_ordinals.push(self.features_count)
            } else {
                self.segmented_ordinals
            },
            features_count: (self.features_count + 1) as u64,
        }
    }
}

/// What is gathered before the first feature, for so many levels.
pub open spec fn nothing_gathered(levels: nat) -> EncodeModel {
    EncodeModel {
        sidecar: SidecarModel { offsets: seq![0u64], payload: Seq::empty() },
        level_counts: Seq::new(levels, |i: int| 0u64),
        fragment_count: 0,
        segmented_ordinals: Seq::empty(),
        features_count: 0,
    }
}

/// What is gathered from lon/lat features.
pub open spec fn gathered<
    P: Fn(Coord) -> Coord,
    U: Fn(Coord) -> Coord,
    D: Fn((Coord, Coord, Coord)) -> u64,
    Q: Fn(u64) -> u16,
    N: Fn((u64, u64, u64)) -> bool,
    C: Fn((u8, u64, u64)) -> Rect,
    E: Fn((Coord, Coord, Rect)) -> Edges,
    T: Fn((Coord, Coord, u64)) -> Coord,
    L: Fn((Coord, Coord, u64)) -> u64,
>(
    features: Seq<GeometryModel>,
    levels: Seq<LevelPlan>,
    v_max: u32,
    zbase: u8,
    plane: Plane<P, U, D, Q, N, C, E, T, L>,
) -> EncodeModel
    decreases features.len(),
{
    if features.len() == 0 {
        nothing_gathered(levels.len())
    } else {
        gathered(features.drop_last(), levels, v_max, zbase, plane).with(
            staged(features.last(), levels, v_max, zbase, plane),
        )
    }
}

impl EncodeState {
    /// The state before the first feature, for so many levels.
    pub fn new(levels: usize) -> (s: EncodeState)
        ensures
            s@.wf(),
            s@ == nothing_gathered(levels as nat),
    {
        let mut level_counts: Vec<u64> = Vec::new();
        let mut i: usize = 0;
        while i < levels
            invariant
                i <= levels,
                level_counts@ == Seq::new(i as nat, |j: int| 0u64),
            decreases levels - i,
        {
            level_counts.push(0);
            i = i + 1;
            assert(level_counts@ =~= Seq::new(i as nat, |j: int| 0u64));
        }
        let s: EncodeState = EncodeState {
            sidecar: ImportanceSidecar::new(),
            level_counts,
            fragment_count: 0,
            segmented_ordinals: Vec::new(),
            features_count: 0,
        };
        assert(s@ =~= nothing_gathered(levels as nat));
        s
    }

    /// Takes a staged feature into account: its importance goes into the
    /// sidecar, and it is counted where it is shown and segmented.
    pub fn add(&mut self, f: &StagedFeature)
        requires
            old(self)@.wf(),
            old(self)@.level_counts.len() == f@.overviews.len(),
            old(self)@.features_count < u64::MAX,
            2 * (old(self)@.sidecar.payload.len() + f@.importance.len()) <= usize::MAX,
        ensures
            final(self)@.wf(),
            final(self)@ == old(self)@.with(f@),
    {
        self.sidecar.push(f.importance.as_slice());
        let ordinal: u64 = self.features_count;
        let n: usize = self.level_counts.len();
        let ghost counts = self.level_counts@;
        let mut i: usize = 0;
        while i < n
            invariant
                i <= n,
                n == counts.len(),
                n == f@.overviews.len(),
                self.level_counts@.len() == n,
                ordinal == self.features_count,
                ordinal < u64::MAX,
                self.sidecar@ == old(self).sidecar@.with(f.importance@),
                self.fragment_count == old(self).fragment_count,
                self.segmented_ordinals@ == old(self).segmented_ordinals@,
                forall|j: int| 0 <= j < n ==> #[trigger] counts[j] <= ordinal,
                forall|j: int|
                    0 <= j < n ==> #[trigger] self.level_counts@[j] == if j < i
                        && f@.overviews[j] is Some {
                        (counts[j] + 1) as u64
                    } else {
                        counts[j]
                    },
            decreases n - i,
        {
            assert(f@.overviews[i as int] == shape_of(f.overviews@[i as int]));
            assert(counts[i as int] <= ordinal);
            if let Some(_) = &f.overviews[i] {
                let count: u64 = self.level_counts[i];
                self.level_counts[i] = count + 1;
            }
            i = i + 1;
        }
        if let Some(fragments) = &f.fragments {
            self.fragment_count = self.fragment_count.saturating_add(fragments.len() as u64);
            self.segmented_ordinals.push(ordinal);
        }
        self.features_count = ordinal + 1;
        assert(self@.level_counts =~= old(self)@.with(f@).level_counts);
        assert(self@ =~= old(self)@.with(f@));
    }
}

/// Encoding result summary.
#[derive(Debug, Clone, PartialEq)]
pub struct EncodeReport {
    pub body_size: u64,
    pub importance_size: u64,
    /// (level, size, feature_count)
    pub overview_sizes: Vec<(LevelSpec, u64, u64)>,
    pub segments_size: u64,
    pub fragment_count: u64,
    pub segmented_features: u64,
    pub total_size: u64,
    pub features_count: u64,
}

/// The sizes of the sections that were written: the body, then, behind the
/// sentinel, the sidecar, the overviews and the segments.
#[derive(Debug, Clone, PartialEq)]
pub struct Written {
    pub body_size: u64,
    pub importance_size: u64,
    /// One for each level.
    pub overview_sizes: Vec<u64>,
    /// Counts only if there are segmented features.
    pub segments_size: u64,
}

/// The sum of the first `k` sizes.
pub open spec fn total_of(sizes: Seq<u64>, k: int) -> int
    decreases k,
{
    if k <= 0 {
        0
    } else {
        total_of(sizes, k - 1) + sizes[k - 1]
    }
}

/// Where the sidecar starts: behind body and sentinel.
pub open spec fn importance_start(w: Written) -> int {
    w.body_size + 4
}

/// Where the overview of level `i` starts; for the number of levels, where
/// the last one ends.
pub open spec fn overview_start(w: Written, i: int) -> int {
    importance_start(w) + w.importance_size + total_of(w.overview_sizes@, i)
}

/// Where the segments start.
pub open spec fn segments_start(w: Written) -> int {
    overview_start(w, w.overview_sizes@.len() as int)
}

/// Where the directory starts.
pub open spec fn directory_start(w: Written, st: EncodeModel) -> int {
    segments_start(w) + if st.segmented_ordinals.len() > 0 {
        w.segments_size as int
    } else {
        0
    }
}

/// The directory entry of level `i`.
pub open spec fn overview_entry(
    st: EncodeModel,
    levels: Seq<LevelPlan>,
    w: Written,
    i: int,
) -> OverviewEntry {
    OverviewEntry {
        offset: overview_start(w, i) as u64,
        size: w.overview_sizes@[i],
        min_zoom: levels[i].level.min_zoom,
        max_zoom: levels[i].level.max_zoom,
        tolerance_q: levels[i].threshold,
        feature_count: st.level_counts[i],
    }
}

/// The directory of the sections that were written.
pub open spec fn directory_for(
    st: EncodeModel,
    levels: Seq<LevelPlan>,
    v_max: u32,
    zbase: u8,
    w: Written,
    info: Seq<char>,
) -> DirectoryModel {
    DirectoryModel {
        importance: Some(
            ImportanceEntry {
                offset: importance_start(w) as u64,
                size: w.importance_size,
                feature_count: st.features_count,
            },
        ),
        overviews: Seq::new(levels.len(), |i: int| overview_entry(st, levels, w, i)),
        segments: if st.segmented_ordinals.len() > 0 {
            Some(
                SegmentsModel {
                    offset: segments_start(w) as u64,
                    size: w.segments_size,
                    zbase,
                    v_max,
                    fragment_count: st.fragment_count,
                    segmented_ordinals: st.segmented_ordinals,
                },
            )
        } else {
            None
        },
        build_info: info,
    }
}

/// The footer for a directory that starts at `start`.
pub open spec fn footer_for(d: DirectoryModel, start: int) -> Footer {
    Footer {
        dir_offset: start as u64,
        dir_size: directory_seq(d).len() as u64,
        dir_crc32: crc32_of(directory_seq(d)),
    }
}

/// What is left to write at the end of the file.
pub struct Trailer {
    pub directory: Directory,
    pub dir_bytes: Vec<u8>,
    pub footer: Footer,
    pub report: EncodeReport,
}

/// The report of an encoding as a mathematical value.
#[verifier::ext_equal]
pub struct ReportModel {
    pub body_size: u64,
    pub importance_size: u64,
    pub overview_sizes: Seq<(LevelSpec, u64, u64)>,
    pub segments_size: u64,
    pub fragment_count: u64,
    pub segmented_features: int,
    pub total_size: int,
    pub features_count: u64,
}

impl View for EncodeReport {
    type V = ReportModel;

    open spec fn view(&self) -> ReportModel {
        ReportModel {
            body_size: self.body_size,
            importance_size: self.importance_size,
            overview_sizes: self.overview_sizes@,
            segments_size: self.segments_size,
            fragment_count: self.fragment_count,
            segmented_features: self.segmented_features as int,
            total_size: self.total_size as int,
            features_count: self.features_count,
        }
    }
}

/// The report of the sections that were written.
pub open spec fn report_for(
    st: EncodeModel,
    levels: Seq<LevelPlan>,
    w: Written,
    d: DirectoryModel,
) -> ReportModel {
    ReportModel {
        body_size: w.body_size,
        importance_size: w.importance_size,
        overview_sizes: Seq::new(
            levels.len(),
            |i: int| (levels[i].level, w.overview_sizes@[i], st.level_counts[i]),
        ),
        segments_size: if st.segmented_ordinals.len() > 0 {
            w.segments_size
        } else {
            0
        },
        fragment_count: st.fragment_count,
        segmented_features: st.segmented_ordinals.len() as int,
        total_size: directory_start(w, st) + directory_seq(d).len() + FOOTER_SIZE,
        features_count: st.features_count,
    }
}

/// What is left to write after the sections.
pub open spec fn is_trailer(
    t: Trailer,
    st: EncodeModel,
    levels: Seq<LevelPlan>,
    v_max: u32,
    zbase: u8,
    w: Written,
    info: Seq<char>,
) -> bool {
    let d = directory_for(st, levels, v_max, zbase, w, info);
    &&& t.directory@ == d
    &&& t.dir_bytes@ == directory_seq(d)
    &&& t.footer == footer_for(d, directory_start(w, st))
    &&& t.report@ == report_for(st, levels, w, d)
}

/// The build info of a version.
pub fn build_info(version: &str) -> (r: String)
    ensures
        r@ == "fgbo "@ + version@,
{
    let mut text: String = "fgbo ".to_owned();
    text.append(version);
    text
}

proof fn lemma_total_mono(sizes: Seq<u64>, i: int, j: int)
    requires
        0 <= i <= j <= sizes.len(),
    ensures
        0 <= total_of(sizes, i) <= total_of(sizes, j),
    decreases j,
{
    if j > 0 {
        if i < j {
            lemma_total_mono(sizes, i, j - 1);
        } else {
            lemma_total_mono(sizes, i - 1, j - 1);
        }
    }
}

/// Makes the directory, the footer and the report of a finished encoding.
pub fn finish(
    state: &EncodeState,
    levels: &Vec<LevelPlan>,
    v_max: u32,
    zbase: u8,
    w: &Written,
    build_info: String,
) -> (t: Trailer)
    requires
        levels@.len() == state@.level_counts.len(),
        levels@.len() == w.overview_sizes@.len(),
        directory_start(*w, state@) + directory_seq(
            directory_for(state@, levels@, v_max, zbase, *w, build_info@),
        ).len() + FOOTER_SIZE <= u64::MAX,
    ensures
        is_trailer(t, state@, levels@, v_max, zbase, *w, build_info@),
{
    let n: usize = levels.len();
    let ghost model = directory_for(state@, levels@, v_max, zbase, *w, build_info@);
    let mut overviews: Vec<OverviewEntry> = Vec::new();
    let mut overview_sizes: Vec<(LevelSpec, u64, u64)> = Vec::new();
    proof {
        lemma_total_mono(w.overview_sizes@, 0, n as int);
    }
    let imp_offset: u64 = w.body_size + 4;
    let mut pos: u64 = imp_offset + w.importance_size;
    let mut i: usize = 0;
    while i < n
        invariant
            i <= n,
            n == levels@.len(),
            n == state@.level_counts.len(),
            n == w.overview_sizes@.len(),
            segments_start(*w) <= u64::MAX,
            pos == overview_start(*w, i as int),
            overviews@ == Seq::new(
                i as nat,
                |j: int| overview_entry(state@, levels@, *w, j),
            ),
            overview_sizes@ == Seq::new(
                i as nat,
                |j: int| (levels@[j].level, w.overview_sizes@[j], state@.level_counts[j]),
            ),
        decreases n - i,
    {
        proof {
            lemma_total_mono(w.overview_sizes@, i + 1, n as int);
        }
        let level: LevelPlan = levels[i];
        let size: u64 = w.overview_sizes[i];
        let count: u64 = state.level_counts[i];
        overviews.push(
            OverviewEntry {
                offset: pos,
                size,
                min_zoom: level.level.min_zoom,
                max_zoom: level.level.max_zoom,
                tolerance_q: level.threshold,
                feature_count: count,
            },
        );
        overview_sizes.push((level.level, size, count));
        pos = pos + size;
        i = i + 1;
        assert(overviews@ =~= Seq::new(
            i as nat,
            |j: int| overview_entry(state@, levels@, *w, j),
        ));
        assert(overview_sizes@ =~= Seq::new(
            i as nat,
            |j: int| (levels@[j].level, w.overview_sizes@[j], state@.level_counts[j]),
        ));
    }
    let segmented: bool = state.segmented_ordinals.len() > 0;
    let segments: Option<SegmentsEntry> = if segmented {
        Some(
            SegmentsEntry {
                offset: pos,
                size: w.segments_size,
                zbase,
                v_max,
                fragment_count: state.fragment_count,
                segmented_ordinals: slice_to_vec(state.segmented_ordinals.as_slice()),
            },
        )
    } else {
        None
    };
    let segments_size: u64 = if segmented {
        w.segments_size
    } else {
        0
    };
    let dir_offset: u64 = pos + segments_size;
    let directory: Directory = Directory {
        importance: Some(
            ImportanceEntry {
                offset: imp_offset,
                size: w.importance_size,
                feature_count: state.features_count,
            },
        ),
        overviews,
        segments,
        build_info,
    };
    assert(directory@ =~= model);
    let dir_bytes: Vec<u8> = directory.encode();
    let dir_size: u64 = dir_bytes.len() as u64;
    let footer: Footer = Footer {
        dir_offset,
        dir_size,
        dir_crc32: Directory::crc32(dir_bytes.as_slice()),
    };
    let report: EncodeReport = EncodeReport {
        body_size: w.body_size,
        importance_size: w.importance_size,
        overview_sizes,
        segments_size,
        fragment_count: state.fragment_count,
        segmented_features: state.segmented_ordinals.len() as u64,
        total_size: dir_offset + dir_size + FOOTER_SIZE as u64,
        features_count: state.features_count,
    };
    assert(report@ =~= report_for(state@, levels@, *w, model));
    Trailer { directory, dir_bytes, footer, report }
}

/// The bytes of the sections of a file.
#[verifier::ext_equal]
pub struct FileParts {
    pub body: Seq<u8>,
    pub sidecar: Seq<u8>,
    pub overviews: Seq<Seq<u8>>,
    pub segments: Seq<u8>,
}

/// The first `k` byte strings one after the other.
pub open spec fn joined(parts: Seq<Seq<u8>>, k: int) -> Seq<u8>
    decreases k,
{
    if k <= 0 {
        Seq::empty()
    } else {
        joined(parts, k - 1) + parts[k - 1]
    }
}

/// The sections have the sizes that were noted.
pub open spec fn sized(p: FileParts, w: Written, st: EncodeModel) -> bool {
    &&& p.body.len() == w.body_size
    &&& p.sidecar.len() == w.importance_size
    &&& p.overviews.len() == w.overview_sizes@.len()
    &&& forall|i: int|
        0 <= i < p.overviews.len() ==> (#[trigger] p.overviews[i]).len() == w.overview_sizes@[i]
    &&& p.segments.len() == if st.segmented_ordinals.len() > 0 {
        w.segments_size as nat
    } else {
        0
    }
}

/// The sections up to the directory.
pub open spec fn sections_of(p: FileParts) -> Seq<u8> {
    p.body + SENTINEL@ + p.sidecar + joined(p.overviews, p.overviews.len() as int) + p.segments
}

/// The whole file.
pub open spec fn file_of(p: FileParts, d: DirectoryModel, f: Footer) -> Seq<u8> {
    sections_of(p) + directory_seq(d) + footer_seq(f)
}

proof fn lemma_joined(parts: Seq<Seq<u8>>, sizes: Seq<u64>, k: int)
    requires
        parts.len() == sizes.len(),
        0 <= k <= parts.len(),
        forall|i: int| 0 <= i < parts.len() ==> (#[trigger] parts[i]).len() == sizes[i],
    ensures
        joined(parts, k).len() == total_of(sizes, k),
    decreases k,
{
    if k > 0 {
        lemma_joined(parts, sizes, k - 1);
        assert(parts[k - 1].len() == sizes[k - 1]);
    }
}

/// Part `i` stands in the joined parts where the parts before it end.
proof fn lemma_joined_part(parts: Seq<Seq<u8>>, i: int, k: int)
    requires
        0 <= i < k <= parts.len(),
    ensures
        joined(parts, i).len() + parts[i].len() <= joined(parts, k).len(),
        joined(parts, k).subrange(
            joined(parts, i).len() as int,
            (joined(parts, i).len() + parts[i].len()) as int,
        ) == parts[i],
    decreases k,
{
    let all = joined(parts, k);
    let init = joined(parts, k - 1);
    let at = joined(parts, i).len() as int;
    let end = at + parts[i].len();
    if i < k - 1 {
        lemma_joined_part(parts, i, k - 1);
        assert(all.subrange(at, end) =~= init.subrange(at, end));
    } else {
        assert(all.subrange(at, end) =~= parts[i]);
    }
}

/// A range inside the first of two byte strings.
proof fn lemma_range_in_first(a: Seq<u8>, b: Seq<u8>, from: int, to: int)
    requires
        0 <= from <= to <= a.len(),
    ensures
        (a + b).subrange(from, to) == a.subrange(from, to),
{
    assert((a + b).subrange(from, to) =~= a.subrange(from, to));
}

/// Where body, sentinel and sidecar stand.
proof fn lemma_front(p: FileParts, w: Written, st: EncodeModel)
    requires
        sized(p, w, st),
    ensures
        ({
            let all = sections_of(p);
            let n = p.body.len() as int;
            let at = importance_start(w);
            &&& all.len() == directory_start(w, st)
            &&& all.subrange(0, n) == p.body
            &&& all.subrange(n, n + 4) == SENTINEL@
            &&& 0 <= n && n + 4 <= all.len()
            &&& at + w.importance_size <= all.len()
            &&& all.subrange(at, at + w.importance_size) == p.sidecar
        }),
{
    let n = p.overviews.len() as int;
    lemma_joined(p.overviews, w.overview_sizes@, n);
    let a = p.body + SENTINEL@;
    let b = a + p.sidecar;
    let c = b + joined(p.overviews, n);
    assert(SENTINEL@.len() == 4);
    let all = sections_of(p);
    let at = importance_start(w);
    lemma_range_in_first(c, p.segments, 0, b.len() as int);
    assert(c.subrange(0, b.len() as int) =~= b);
    let front = all.subrange(0, b.len() as int);
    assert(front == b);
    assert(all.subrange(0, p.body.len() as int) =~= b.subrange(0, p.body.len() as int));
    assert(b.subrange(0, p.body.len() as int) =~= p.body);
    let m = p.body.len() as int;
    assert(all.subrange(m, m + 4) =~= front.subrange(m, m + 4));
    assert(b.subrange(m, m + 4) =~= SENTINEL@);
    assert(all.subrange(at, at + w.importance_size) =~= front.subrange(at, at + w.importance_size));
    assert(b.subrange(at, at + w.importance_size) =~= p.sidecar);
}

/// Where the overview of level `i` stands.
proof fn lemma_overview_stands(p: FileParts, w: Written, st: EncodeModel, i: int)
    requires
        sized(p, w, st),
        0 <= i < p.overviews.len(),
    ensures
        ({
            let at = overview_start(w, i);
            &&& 0 <= at
            &&& at + w.overview_sizes@[i] <= sections_of(p).len()
            &&& sections_of(p).subrange(at, at + w.overview_sizes@[i]) == p.overviews[i]
        }),
{
    let n = p.overviews.len() as int;
    let a = p.body + SENTINEL@ + p.sidecar;
    let all = joined(p.overviews, n);
    let at = joined(p.overviews, i).len() as int;
    assert(SENTINEL@.len() == 4);
    assert(p.overviews[i].len() == w.overview_sizes@[i]);
    lemma_joined(p.overviews, w.overview_sizes@, i);
    lemma_joined_part(p.overviews, i, n);
    let start = overview_start(w, i);
    let end = start + w.overview_sizes@[i];
    lemma_range_in_first(a + all, p.segments, start, end);
    assert((a + all).subrange(start, end) =~= all.subrange(at, at + p.overviews[i].len()));
}

/// Where the segments stand.
proof fn lemma_segments_stand(p: FileParts, w: Written, st: EncodeModel)
    requires
        sized(p, w, st),
    ensures
        ({
            let at = segments_start(w);
            &&& 0 <= at
            &&& at + p.segments.len() == sections_of(p).len()
            &&& sections_of(p).subrange(at, at + p.segments.len()) == p.segments
        }),
{
    let n = p.overviews.len() as int;
    let c = p.body + SENTINEL@ + p.sidecar + joined(p.overviews, n);
    assert(SENTINEL@.len() == 4);
    lemma_joined(p.overviews, w.overview_sizes@, n);
    let at = segments_start(w);
    assert((c + p.segments).subrange(at, at + p.segments.len()) =~= p.segments);
}

/// Where directory and footer stand behind the sections.
proof fn lemma_tail(front: Seq<u8>, dir: Seq<u8>, foot: Seq<u8>)
    ensures
        ({
            let file = front + dir + foot;
            let at = front.len() as int;
            let end = at + dir.len();
            &&& file == front + (dir + foot)
            &&& file.len() == front.len() + dir.len() + foot.len()
            &&& file.subrange(at, end) == dir
            &&& file.subrange(end, file.len() as int) == foot
        }),
{
    let file = front + dir + foot;
    let at = front.len() as int;
    assert(file =~= front + (dir + foot));
    assert(file.subrange(at, at + dir.len()) =~= dir);
    assert(file.subrange(at + dir.len(), file.len() as int) =~= foot);
}

/// The footer leads to the directory.
proof fn lemma_footer_leads(front: Seq<u8>, d: DirectoryModel)
    requires
        front.len() + directory_seq(d).len() + FOOTER_SIZE <= u64::MAX,
    ensures
        ({
            let f = footer_for(d, front.len() as int);
            let file = front + directory_seq(d) + footer_seq(f);
            let dir = file.subrange(f.dir_offset as int, f.dir_offset + f.dir_size);
            &&& file.len() == front.len() + directory_seq(d).len() + FOOTER_SIZE
            &&& footer_of(file) == Some(f)
            &&& footer_of(file.subrange(file.len() - FOOTER_SIZE, file.len() as int)) == Some(f)
            &&& f.dir_offset + f.dir_size <= file.len()
            &&& crc32_of(dir) == f.dir_crc32
            &&& directory_encodable(d) ==> directory_of(dir) == core::result::Result::<
                DirectoryModel,
                Fault,
            >::Ok(d)
        }),
{
    let f = footer_for(d, front.len() as int);
    let dir = directory_seq(d);
    let foot = footer_seq(f);
    lemma_tail(front, dir, foot);
    law_footer_round_trip(front + dir, f);
    law_footer_round_trip(Seq::empty(), f);
    assert(Seq::<u8>::empty() + foot =~= foot);
    if directory_encodable(d) {
        law_directory_round_trip(d, Seq::empty());
        assert(dir + Seq::<u8>::empty() =~= dir);
    }
}

/// The entries of the directory lead to the sections, whatever follows them.
proof fn lemma_entries_lead(
    p: FileParts,
    st: EncodeModel,
    levels: Seq<LevelPlan>,
    v_max: u32,
    zbase: u8,
    w: Written,
    info: Seq<char>,
    rest: Seq<u8>,
)
    requires
        sized(p, w, st),
        levels.len() == w.overview_sizes@.len(),
        directory_start(w, st) <= u64::MAX,
    ensures
        ({
            let d = directory_for(st, levels, v_max, zbase, w, info);
            let file = sections_of(p) + rest;
            let imp = d.importance->0;
            &&& sections_of(p).len() == directory_start(w, st)
            &&& file.subrange(0, p.body.len() as int) == p.body
            &&& file.subrange(p.body.len() as int, p.body.len() as int + 4) == SENTINEL@
            &&& file.subrange(imp.offset as int, imp.offset + imp.size) == p.sidecar
            &&& forall|i: int|
                0 <= i < levels.len() ==> file.subrange(
                    (#[trigger] d.overviews[i]).offset as int,
                    d.overviews[i].offset + d.overviews[i].size,
                ) == p.overviews[i]
            &&& d.segments matches Some(s) ==> file.subrange(s.offset as int, s.offset + s.size)
                == p.segments
        }),
{
    let d = directory_for(st, levels, v_max, zbase, w, info);
    let front = sections_of(p);
    let file = front + rest;
    lemma_front(p, w, st);
    lemma_segments_stand(p, w, st);
    let n = p.body.len() as int;
    lemma_range_in_first(front, rest, 0, n);
    lemma_range_in_first(front, rest, n, n + 4);
    let at = importance_start(w);
    lemma_range_in_first(front, rest, at, at + w.importance_size);
    assert forall|i: int| 0 <= i < levels.len() implies file.subrange(
        (#[trigger] d.overviews[i]).offset as int,
        d.overviews[i].offset + d.overviews[i].size,
    ) == p.overviews[i] by {
        lemma_overview_stands(p, w, st, i);
        let from = overview_start(w, i);
        lemma_range_in_first(front, rest, from, from + w.overview_sizes@[i]);
    }
    let seg = segments_start(w);
    lemma_range_in_first(front, rest, seg, seg + p.segments.len());
}

/// What is written can be read back. In a file of body, sentinel, sections,
/// directory and footer:
///
/// - the file starts with the body, unchanged, followed by the sentinel;
/// - the last bytes are the footer, and it leads to the directory, whose
///   checksum it carries;
/// - every entry of the directory leads to the bytes of its section.
pub proof fn law_written_file_reads_back(
    p: FileParts,
    st: EncodeModel,
    levels: Seq<LevelPlan>,
    v_max: u32,
    zbase: u8,
    w: Written,
    info: Seq<char>,
)
    requires
        sized(p, w, st),
        levels.len() == st.level_counts.len(),
        levels.len() == w.overview_sizes@.len(),
        directory_start(w, st) + directory_seq(
            directory_for(st, levels, v_max, zbase, w, info),
        ).len() + FOOTER_SIZE <= u64::MAX,
    ensures
        ({
            let d = directory_for(st, levels, v_max, zbase, w, info);
            let f = footer_for(d, directory_start(w, st));
            let file = file_of(p, d, f);
            let dir = file.subrange(f.dir_offset as int, f.dir_offset + f.dir_size);
            let imp = d.importance->0;
            &&& file.subrange(0, p.body.len() as int) == p.body
            &&& file.subrange(p.body.len() as int, p.body.len() as int + 4) == SENTINEL@
            &&& file.len() == directory_start(w, st) + directory_seq(d).len() + FOOTER_SIZE
            &&& footer_of(file) == Some(f)
            &&& footer_of(file.subrange(file.len() - FOOTER_SIZE, file.len() as int)) == Some(f)
            &&& f.dir_offset + f.dir_size <= file.len()
            &&& crc32_of(dir) == f.dir_crc32
            &&& directory_encodable(d) ==> directory_of(dir) == core::result::Result::<
                DirectoryModel,
                Fault,
            >::Ok(d)
            &&& file.subrange(imp.offset as int, imp.offset + imp.size) == p.sidecar
            &&& forall|i: int|
                0 <= i < levels.len() ==> file.subrange(
                    (#[trigger] d.overviews[i]).offset as int,
                    d.overviews[i].offset + d.overviews[i].size,
                ) == p.overviews[i]
            &&& d.segments matches Some(s) ==> file.subrange(s.offset as int, s.offset + s.size)
                == p.segments
        }),
{
    let d = directory_for(st, levels, v_max, zbase, w, info);
    let f = footer_for(d, directory_start(w, st));
    let rest = directory_seq(d) + footer_seq(f);
    lemma_entries_lead(p, st, levels, v_max, zbase, w, info, rest);
    lemma_footer_leads(sections_of(p), d);
    lemma_tail(sections_of(p), directory_seq(d), footer_seq(f));
}

/// What the overview of level `i` holds: of each feature that the level shows
/// its ordinal and what is shown, in order.
pub open spec fn level_rows<
    P: Fn(Coord) -> Coord,
    U: Fn(Coord) -> Coord,
    D: Fn((Coord, Coord, Coord)) -> u64,
    Q: Fn(u64) -> u16,
    N: Fn((u64, u64, u64)) -> bool,
    C: Fn((u8, u64, u64)) -> Rect,
    E: Fn((Coord, Coord, Rect)) -> Edges,
    T: Fn((Coord, Coord, u64)) -> Coord,
    L: Fn((Coord, Coord, u64)) -> u64,
>(
    features: Seq<GeometryModel>,
    levels: Seq<LevelPlan>,
    v_max: u32,
    zbase: u8,
    plane: Plane<P, U, D, Q, N, C, E, T, L>,
    i: int,
) -> Seq<(int, GeometryModel)>
    decreases features.len(),
{
    if features.len() == 0 {
        Seq::empty()
    } else {
        let init = level_rows(features.drop_last(), levels, v_max, zbase, plane, i);
        match staged(features.last(), levels, v_max, zbase, plane).overviews[i] {
            Some(g) => init.push((features.len() - 1, g)),
            None => init,
        }
    }
}

/// What the segments section holds: the fragments of each large feature with
/// its ordinal, in order.
pub open spec fn fragment_rows<
    P: Fn(Coord) -> Coord,
    U: Fn(Coord) -> Coord,
    D: Fn((Coord, Coord, Coord)) -> u64,
    Q: Fn(u64) -> u16,
    N: Fn((u64, u64, u64)) -> bool,
    C: Fn((u8, u64, u64)) -> Rect,
    E: Fn((Coord, Coord, Rect)) -> Edges,
    T: Fn((Coord, Coord, u64)) -> Coord,
    L: Fn((Coord, Coord, u64)) -> u64,
>(
    features: Seq<GeometryModel>,
    levels: Seq<LevelPlan>,
    v_max: u32,
    zbase: u8,
    plane: Plane<P, U, D, Q, N, C, E, T, L>,
) -> Seq<(int, GeometryModel)>
    decreases features.len(),
{
    if features.len() == 0 {
        Seq::empty()
    } else {
        let init = fragment_rows(features.drop_last(), levels, v_max, zbase, plane);
        match staged(features.last(), levels, v_max, zbase, plane).fragments {
            Some(fs) => init + Seq::new(fs.len(), |k: int| (features.len() - 1, fs[k])),
            None => init,
        }
    }
}

/// The directory counts what the sections hold: every feature once, at each
/// level those that it shows, and the fragments, as far as they can be
/// counted.
pub proof fn law_counts_are_those_of_the_sections<
    P: Fn(Coord) -> Coord,
    U: Fn(Coord) -> Coord,
    D: Fn((Coord, Coord, Coord)) -> u64,
    Q: Fn(u64) -> u16,
    N: Fn((u64, u64, u64)) -> bool,
    C: Fn((u8, u64, u64)) -> Rect,
    E: Fn((Coord, Coord, Rect)) -> Edges,
    T: Fn((Coord, Coord, u64)) -> Coord,
    L: Fn((Coord, Coord, u64)) -> u64,
>(
    features: Seq<GeometryModel>,
    levels: Seq<LevelPlan>,
    v_max: u32,
    zbase: u8,
    plane: Plane<P, U, D, Q, N, C, E, T, L>,
)
    requires
        features.len() <= u64::MAX,
    ensures
        ({
            let st = gathered(features, levels, v_max, zbase, plane);
            let rows = fragment_rows(features, levels, v_max, zbase, plane);
            &&& st.features_count == features.len()
            &&& st.level_counts.len() == levels.len()
            &&& forall|i: int|
                0 <= i < levels.len() ==> #[trigger] st.level_counts[i] == level_rows(
                    features,
                    levels,
                    v_max,
                    zbase,
                    plane,
                    i,
                ).len()
            &&& st.fragment_count == if rows.len() <= u64::MAX {
                rows.len() as int
            } else {
                u64::MAX as int
            }
        }),
    decreases features.len(),
{
    if features.len() > 0 {
        let init = features.drop_last();
        law_counts_are_those_of_the_sections(init, levels, v_max, zbase, plane);
        let before = gathered(init, levels, v_max, zbase, plane);
        let st = gathered(features, levels, v_max, zbase, plane);
        assert forall|i: int| 0 <= i < levels.len() implies #[trigger] st.level_counts[i]
            == level_rows(features, levels, v_max, zbase, plane, i).len() by {
            assert(before.level_counts[i] == level_rows(
                init,
                levels,
                v_max,
                zbase,
                plane,
                i,
            ).len());
            lemma_rows_bounded(init, levels, v_max, zbase, plane, i);
        }
    }
}

proof fn lemma_rows_bounded<
    P: Fn(Coord) -> Coord,
    U: Fn(Coord) -> Coord,
    D: Fn((Coord, Coord, Coord)) -> u64,
    Q: Fn(u64) -> u16,
    N: Fn((u64, u64, u64)) -> bool,
    C: Fn((u8, u64, u64)) -> Rect,
    E: Fn((Coord, Coord, Rect)) -> Edges,
    T: Fn((Coord, Coord, u64)) -> Coord,
    L: Fn((Coord, Coord, u64)) -> u64,
>(
    features: Seq<GeometryModel>,
    levels: Seq<LevelPlan>,
    v_max: u32,
    zbase: u8,
    plane: Plane<P, U, D, Q, N, C, E, T, L>,
    i: int,
)
    ensures
        level_rows(features, levels, v_max, zbase, plane, i).len() <= features.len(),
    decreases features.len(),
{
    if features.len() > 0 {
        lemma_rows_bounded(features.drop_last(), levels, v_max, zbase, plane, i);
    }
}

/// The sections of the file for an input with this body and these features.
/// `write` gives the bytes of a section: of the overview of a level, or of the
/// segments.
pub open spec fn parts_for<
    P: Fn(Coord) -> Coord,
    U: Fn(Coord) -> Coord,
    D: Fn((Coord, Coord, Coord)) -> u64,
    Q: Fn(u64) -> u16,
    N: Fn((u64, u64, u64)) -> bool,
    C: Fn((u8, u64, u64)) -> Rect,
    E: Fn((Coord, Coord, Rect)) -> Edges,
    T: Fn((Coord, Coord, u64)) -> Coord,
    L: Fn((Coord, Coord, u64)) -> u64,
>(
    body: Seq<u8>,
    features: Seq<GeometryModel>,
    levels: Seq<LevelPlan>,
    v_max: u32,
    zbase: u8,
    plane: Plane<P, U, D, Q, N, C, E, T, L>,
    write: spec_fn(Option<int>, Seq<(int, GeometryModel)>) -> Seq<u8>,
) -> FileParts {
    let st = gathered(features, levels, v_max, zbase, plane);
    FileParts {
        body,
        sidecar: sidecar_seq(st.sidecar),
        overviews: Seq::new(
            levels.len(),
            |i: int| write(Some(i), level_rows(features, levels, v_max, zbase, plane, i)),
        ),
        segments: if st.segmented_ordinals.len() > 0 {
            write(None, fragment_rows(features, levels, v_max, zbase, plane))
        } else {
            Seq::empty()
        },
    }
}

/// The build is deterministic: with the same options, equal inputs give the
/// same directory, the same footer and the same report, and so the same file,
/// if the writer of the sections gives the same bytes for the same features.
pub proof fn law_build_is_deterministic<
    P: Fn(Coord) -> Coord,
    U: Fn(Coord) -> Coord,
    D: Fn((Coord, Coord, Coord)) -> u64,
    Q: Fn(u64) -> u16,
    N: Fn((u64, u64, u64)) -> bool,
    C: Fn((u8, u64, u64)) -> Rect,
    E: Fn((Coord, Coord, Rect)) -> Edges,
    T: Fn((Coord, Coord, u64)) -> Coord,
    L: Fn((Coord, Coord, u64)) -> u64,
>(
    body: Seq<u8>,
    features: Seq<GeometryModel>,
    levels: Seq<LevelPlan>,
    v_max: u32,
    zbase: u8,
    plane: Plane<P, U, D, Q, N, C, E, T, L>,
    info: Seq<char>,
    write: spec_fn(Option<int>, Seq<(int, GeometryModel)>) -> Seq<u8>,
    w: Written,
    t: Trailer,
    x: Written,
    u: Trailer,
)
    requires
        ({
            let st = gathered(features, levels, v_max, zbase, plane);
            let p = parts_for(body, features, levels, v_max, zbase, plane, write);
            &&& sized(p, w, st)
            &&& sized(p, x, st)
            &&& is_trailer(t, st, levels, v_max, zbase, w, info)
            &&& is_trailer(u, st, levels, v_max, zbase, x, info)
        }),
    ensures
        t.directory@ == u.directory@,
        t.dir_bytes@ == u.dir_bytes@,
        t.footer == u.footer,
        t.report@ == u.report@,
        ({
            let p = parts_for(body, features, levels, v_max, zbase, plane, write);
            file_of(p, t.directory@, t.footer) == file_of(p, u.directory@, u.footer)
        }),
{
    let st = gathered(features, levels, v_max, zbase, plane);
    let p = parts_for(body, features, levels, v_max, zbase, plane, write);
    assert(w.overview_sizes@ =~= x.overview_sizes@) by {
        assert forall|i: int| 0 <= i < p.overviews.len() implies w.overview_sizes@[i]
            == x.overview_sizes@[i] by {
            assert(p.overviews[i].len() == w.overview_sizes@[i]);
        }
    }
    assert(t.directory@ =~= u.directory@);
    assert(t.report@ =~= u.report@);
}

// ---- what a level shows, and what is gathered ---------------------------------

/// A level shows a feature exactly if the filter leaves something of it, and
/// this is wide enough or high enough, one of the two; then it shows what the
/// filter leaves. Points are shown whatever their extent.
pub proof fn law_level_shows<P: Fn(Coord) -> Coord, N: Fn((u64, u64, u64)) -> bool>(
    g: GeometryModel,
    imp: Seq<u16>,
    level: LevelPlan,
    project: P,
    narrow: N,
)
    requires
        is_distance_test(narrow, level.min_extent),
        kept_geometry(g, imp, 0, level.threshold) matches Some(f) ==> forall|i: int|
            0 <= i < geometry_coords(f).len() ==> is_placed(
                project,
                #[trigger] geometry_coords(f)[i],
            ),
    ensures
        match kept_geometry(g, imp, 0, level.threshold) {
            None => shown(g, imp, level, project, narrow) is None,
            Some(f) => {
                let large = has_extent(geometry_coords(f), level.min_extent, project, narrow);
                &&& f is Point || f is MultiPoint || large ==> shown(
                    g,
                    imp,
                    level,
                    project,
                    narrow,
                ) == Some(f)
                &&& !(f is Point || f is MultiPoint || large) ==> shown(
                    g,
                    imp,
                    level,
                    project,
                    narrow,
                ) is None
            },
        },
{
    if let Some(f) = kept_geometry(g, imp, 0, level.threshold) {
        law_too_small_in_both_dimensions(f, level.min_extent, project, narrow);
    }
}

/// The importance of a staged feature is that of its projected geometry. What
/// a level shows of it goes by this importance and by no other level. The
/// feature is cut into fragments exactly if it has more coordinates than the
/// limit, and the limit is not zero.
pub proof fn law_staged_feature<
    P: Fn(Coord) -> Coord,
    U: Fn(Coord) -> Coord,
    D: Fn((Coord, Coord, Coord)) -> u64,
    Q: Fn(u64) -> u16,
    N: Fn((u64, u64, u64)) -> bool,
    C: Fn((u8, u64, u64)) -> Rect,
    E: Fn((Coord, Coord, Rect)) -> Edges,
    T: Fn((Coord, Coord, u64)) -> Coord,
    L: Fn((Coord, Coord, u64)) -> u64,
>(
    g: GeometryModel,
    levels: Seq<LevelPlan>,
    level: LevelPlan,
    v_max: u32,
    zbase: u8,
    plane: Plane<P, U, D, Q, N, C, E, T, L>,
)
    ensures
        ({
            let one = staged(g, levels, v_max, zbase, plane);
            let more = staged(g, levels.push(level), v_max, zbase, plane);
            let merc = mapped(g, plane.project);
            &&& one.importance == geometry_values(merc, plane.dist, plane.quantize)
            &&& one.overviews.len() == levels.len()
            &&& more.overviews == one.overviews.push(
                shown(g, one.importance, level, plane.project, plane.narrow),
            )
            &&& more.importance == one.importance
            &&& more.fragments == one.fragments
            &&& one.fragments is Some <==> v_max > 0 && geometry_coords(g).len() > v_max
        }),
{
    let one = staged(g, levels, v_max, zbase, plane);
    let more = staged(g, levels.push(level), v_max, zbase, plane);
    assert(more.overviews =~= one.overviews.push(
        shown(g, one.importance, level, plane.project, plane.narrow),
    ));
}

/// The fragments of a large feature, projected, are the fragments of the
/// projected feature, if projecting undoes what it is there to undo.
pub proof fn law_staged_fragments<
    P: Fn(Coord) -> Coord,
    U: Fn(Coord) -> Coord,
    D: Fn((Coord, Coord, Coord)) -> u64,
    Q: Fn(u64) -> u16,
    N: Fn((u64, u64, u64)) -> bool,
    C: Fn((u8, u64, u64)) -> Rect,
    E: Fn((Coord, Coord, Rect)) -> Edges,
    T: Fn((Coord, Coord, u64)) -> Coord,
    L: Fn((Coord, Coord, u64)) -> u64,
>(
    g: GeometryModel,
    levels: Seq<LevelPlan>,
    v_max: u32,
    zbase: u8,
    plane: Plane<P, U, D, Q, N, C, E, T, L>,
    i: int,
)
    requires
        undoes(plane.unproject, plane.project),
        staged(g, levels, v_max, zbase, plane).fragments is Some,
    ensures
        ({
            let fs = staged(g, levels, v_max, zbase, plane).fragments->0;
            let cut = fragments_in(
                mapped(g, plane.project),
                0,
                0,
                0,
                zbase as int,
                plane.cell,
                plane.edges,
                plane.along,
                plane.lerp,
            );
            &&& fs.len() == cut.len()
            &&& 0 <= i < fs.len() ==> mapped(fs[i], plane.project) == cut[i]
        }),
{
    let cut = fragments_in(
        mapped(g, plane.project),
        0,
        0,
        0,
        zbase as int,
        plane.cell,
        plane.edges,
        plane.along,
        plane.lerp,
    );
    law_mapping_back(cut[i], plane.unproject, plane.project);
}

spec fn all_split_above<
    C: Fn((u8, u64, u64)) -> Rect,
    E: Fn((Coord, Coord, Rect)) -> Edges,
    T: Fn((Coord, Coord, u64)) -> Coord,
    L: Fn((Coord, Coord, u64)) -> u64,
>(
    g: GeometryModel,
    cells: Seq<GridCell>,
    cell: C,
    edges: E,
    along: T,
    lerp: L,
) -> bool {
    forall|i: int|
        0 <= i < cells.len() ==> is_split_above(g, #[trigger] cells[i], cell, edges, along, lerp)
}

proof fn lemma_split_joined<
    C: Fn((u8, u64, u64)) -> Rect,
    E: Fn((Coord, Coord, Rect)) -> Edges,
    T: Fn((Coord, Coord, u64)) -> Coord,
    L: Fn((Coord, Coord, u64)) -> u64,
>(
    g: GeometryModel,
    a: Seq<GridCell>,
    b: Seq<GridCell>,
    cell: C,
    edges: E,
    along: T,
    lerp: L,
)
    requires
        all_split_above(g, a, cell, edges, along, lerp),
        all_split_above(g, b, cell, edges, along, lerp),
    ensures
        all_split_above(g, a + b, cell, edges, along, lerp),
{
    let all = a + b;
    assert forall|i: int| 0 <= i < all.len() implies is_split_above(
        g,
        #[trigger] all[i],
        cell,
        edges,
        along,
        lerp,
    ) by {
        if i < a.len() {
            assert(all[i] == a[i]);
        } else {
            assert(all[i] == b[i - a.len()]);
        }
    }
}

proof fn lemma_cells_split<
    C: Fn((u8, u64, u64)) -> Rect,
    E: Fn((Coord, Coord, Rect)) -> Edges,
    T: Fn((Coord, Coord, u64)) -> Coord,
    L: Fn((Coord, Coord, u64)) -> u64,
>(
    g: GeometryModel,
    h: GeometryModel,
    c: GridCell,
    zbase: int,
    cell: C,
    edges: E,
    along: T,
    lerp: L,
)
    requires
        c.z >= 0,
        c.z <= zbase,
        part_in(g, c, cell, edges, along, lerp) == clipped(
            h,
            value_of(cell, (c.z as u8, c.cx as u64, c.cy as u64)),
            edges,
            along,
            lerp,
        ),
        is_split_above(g, c, cell, edges, along, lerp),
    ensures
        all_split_above(
            g,
            fragment_cells(h, c, zbase, cell, edges, along, lerp),
            cell,
            edges,
            along,
            lerp,
        ),
    decreases zbase - c.z,
{
    if let Some(k) = part_in(g, c, cell, edges, along, lerp) {
        if c.z < zbase && geometry_coords(k).len() > 64 {
            let at = |dx: int, dy: int|
                fragment_cells(k, c.child(dx, dy), zbase, cell, edges, along, lerp);
            assert forall|dx: int, dy: int| 0 <= dx <= 1 && 0 <= dy <= 1 implies all_split_above(
                g,
                #[trigger] at(dx, dy),
                cell,
                edges,
                along,
                lerp,
            ) by {
                assert(c.child(dx, dy).parent() == c);
                lemma_cells_split(g, k, c.child(dx, dy), zbase, cell, edges, along, lerp);
            }
            let two = at(0, 0) + at(1, 0);
            lemma_split_joined(g, at(0, 0), at(1, 0), cell, edges, along, lerp);
            lemma_split_joined(g, two, at(0, 1), cell, edges, along, lerp);
            lemma_split_joined(g, two + at(0, 1), at(1, 1), cell, edges, along, lerp);
        }
    }
}

/// The cell is the whole world, or the one above it holds more than 64
/// coordinates of the geometry.
pub open spec fn is_split_above<
    C: Fn((u8, u64, u64)) -> Rect,
    E: Fn((Coord, Coord, Rect)) -> Edges,
    T: Fn((Coord, Coord, u64)) -> Coord,
    L: Fn((Coord, Coord, u64)) -> u64,
>(
    g: GeometryModel,
    c: GridCell,
    cell: C,
    edges: E,
    along: T,
    lerp: L,
) -> bool {
    c.z == 0 || (part_in(g, c.parent(), cell, edges, along, lerp) matches Some(h)
        && geometry_coords(h).len() > 64)
}

/// Cutting stops exactly where little is left: a fragment that lies above the
/// zoom of the grid has no more than 64 coordinates, and no cell that holds
/// 64 coordinates or fewer is divided further.
pub proof fn law_cutting_stops_at_little<
    C: Fn((u8, u64, u64)) -> Rect,
    E: Fn((Coord, Coord, Rect)) -> Edges,
    T: Fn((Coord, Coord, u64)) -> Coord,
    L: Fn((Coord, Coord, u64)) -> u64,
>(
    g: GeometryModel,
    zbase: int,
    cell: C,
    edges: E,
    along: T,
    lerp: L,
    i: int,
)
    requires
        0 <= zbase,
        0 <= i < fragments_in(g, 0, 0, 0, zbase, cell, edges, along, lerp).len(),
    ensures
        ({
            let world = GridCell { z: 0, cx: 0, cy: 0 };
            let fragment = fragments_in(g, 0, 0, 0, zbase, cell, edges, along, lerp)[i];
            let c = fragment_cells(g, world, zbase, cell, edges, along, lerp)[i];
            &&& part_in(g, c, cell, edges, along, lerp) == Some(fragment)
            &&& 0 <= c.z <= zbase
            &&& c.z < zbase ==> geometry_coords(fragment).len() <= 64
            &&& is_split_above(g, c, cell, edges, along, lerp)
        }),
{
    let world = GridCell { z: 0, cx: 0, cy: 0 };
    law_fragments_are_grid_cells(g, zbase, cell, edges, along, lerp);
    lemma_cells_split(g, g, world, zbase, cell, edges, along, lerp);
    let c = fragment_cells(g, world, zbase, cell, edges, along, lerp)[i];
    let fragment = fragments_in(g, 0, 0, 0, zbase, cell, edges, along, lerp)[i];
    assert(is_fragment(g, fragment, c, zbase, cell, edges, along, lerp));
}

/// The sidecar holds under each ordinal the importance of that feature, and
/// the segmented ordinals are those of the features with more coordinates
/// than the limit, ascending.
pub proof fn law_gathered_by_ordinal<
    P: Fn(Coord) -> Coord,
    U: Fn(Coord) -> Coord,
    D: Fn((Coord, Coord, Coord)) -> u64,
    Q: Fn(u64) -> u16,
    N: Fn((u64, u64, u64)) -> bool,
    C: Fn((u8, u64, u64)) -> Rect,
    E: Fn((Coord, Coord, Rect)) -> Edges,
    T: Fn((Coord, Coord, u64)) -> Coord,
    L: Fn((Coord, Coord, u64)) -> u64,
>(
    features: Seq<GeometryModel>,
    levels: Seq<LevelPlan>,
    v_max: u32,
    zbase: u8,
    plane: Plane<P, U, D, Q, N, C, E, T, L>,
)
    requires
        features.len() <= u64::MAX,
        2 * gathered(features, levels, v_max, zbase, plane).sidecar.payload.len() <= u64::MAX,
    ensures
        ({
            let st = gathered(features, levels, v_max, zbase, plane);
            &&& st.sidecar.built()
            &&& st.sidecar.count() == features.len()
            &&& st.features_count == features.len()
            &&& forall|k: int|
                0 <= k < features.len() ==> #[trigger] st.sidecar.array(k) == geometry_values(
                    mapped(features[k], plane.project),
                    plane.dist,
                    plane.quantize,
                )
            &&& forall|k: u64| #[trigger]
                st.segmented_ordinals.contains(k) <==> k < features.len() && v_max > 0
                    && geometry_coords(features[k as int]).len() > v_max
            &&& forall|i: int, j: int|
                0 <= i < j < st.segmented_ordinals.len() ==> #[trigger] st.segmented_ordinals[i]
                    < #[trigger] st.segmented_ordinals[j]
        }),
    decreases features.len(),
{
    let st = gathered(features, levels, v_max, zbase, plane);
    if features.len() > 0 {
        let init = features.drop_last();
        let before = gathered(init, levels, v_max, zbase, plane);
        let one = staged(features.last(), levels, v_max, zbase, plane);
        law_gathered_by_ordinal(init, levels, v_max, zbase, plane);
        law_push_then_get(before.sidecar, one.importance);
        assert forall|k: int| 0 <= k < features.len() implies #[trigger] st.sidecar.array(k)
            == geometry_values(
            mapped(features[k], plane.project),
            plane.dist,
            plane.quantize,
        ) by {
            if k < init.len() {
                assert(init[k] == features[k]);
                assert(before.sidecar.with(one.importance).array(k) == before.sidecar.array(k));
            }
        }
        assert forall|k: u64| #[trigger]
            st.segmented_ordinals.contains(k) <==> k < features.len() && v_max > 0
                && geometry_coords(features[k as int]).len() > v_max by {
            let old_ordinals = before.segmented_ordinals;
            if k < init.len() {
                assert(init[k as int] == features[k as int]);
            }
            if old_ordinals.contains(k) {
                let i = choose|i: int| 0 <= i < old_ordinals.len() && old_ordinals[i] == k;
                assert(st.segmented_ordinals[i] == k);
            }
            if st.segmented_ordinals.contains(k) && k < init.len() {
                let i = choose|i: int|
                    0 <= i < st.segmented_ordinals.len() && st.segmented_ordinals[i] == k;
                assert(old_ordinals[i] == k);
            }
            if one.fragments is Some && k == init.len() {
                assert(st.segmented_ordinals[old_ordinals.len() as int] == k);
            }
        }
        assert forall|i: int, j: int|
            0 <= i < j < st.segmented_ordinals.len() implies #[trigger] st.segmented_ordinals[i]
            < #[trigger] st.segmented_ordinals[j] by {
            assert(before.segmented_ordinals.contains(before.segmented_ordinals[i]));
        }
    }
}

/// The directory serves each zoom from the level that covers it, and from the
/// body where none does; its entries carry the zooms, thresholds and counts
/// of the levels.
pub proof fn law_directory_serves_the_levels(
    st: EncodeModel,
    levels: Seq<LevelPlan>,
    v_max: u32,
    zbase: u8,
    w: Written,
    info: Seq<char>,
    z: u8,
    i: int,
)
    requires
        disjoint_ascending(levels.map_values(|l: LevelPlan| l.level)),
        0 <= i < levels.len(),
    ensures
        ({
            let d = directory_for(st, levels, v_max, zbase, w, info);
            let l = levels[i].level;
            &&& d.overviews.len() == levels.len()
            &&& level_for_zoom(d.overviews, z) == Some(i) <==> l.min_zoom <= z <= l.max_zoom
            &&& d.overviews[i].tolerance_q == levels[i].threshold
            &&& d.overviews[i].feature_count == st.level_counts[i]
            &&& d.importance matches Some(e) && e.feature_count == st.features_count
            &&& d.segments is Some <==> st.segmented_ordinals.len() > 0
            &&& d.segments matches Some(e) ==> e.zbase == zbase && e.v_max == v_max
                && e.fragment_count == st.fragment_count && e.segmented_ordinals
                == st.segmented_ordinals
            &&& d.build_info == info
        }),
{
    let d = directory_for(st, levels, v_max, zbase, w, info);
    let specs = levels.map_values(|l: LevelPlan| l.level);
    law_level_covers_zoom(d.overviews, z);
    assert(d.overviews[i] == overview_entry(st, levels, w, i));
    assert(specs[i] == levels[i].level);
    assert(d.overviews[i].min_zoom == levels[i].level.min_zoom);
    if let Some(j) = level_for_zoom(d.overviews, z) {
        assert(d.overviews[j] == overview_entry(st, levels, w, j));
        assert(specs[j] == levels[j].level);
        if levels[i].level.covers(z) && i != j {
            if i < j {
                assert(specs[i].max_zoom < specs[j].min_zoom);
            } else {
                assert(specs[j].max_zoom < specs[i].min_zoom);
            }
        }
    }
}

/// The report gives the sizes of the parts of the file, and of all of it.
pub proof fn law_report_gives_the_sizes(
    p: FileParts,
    st: EncodeModel,
    levels: Seq<LevelPlan>,
    v_max: u32,
    zbase: u8,
    w: Written,
    info: Seq<char>,
    i: int,
)
    requires
        sized(p, w, st),
        levels.len() == st.level_counts.len(),
        levels.len() == w.overview_sizes@.len(),
        0 <= i < levels.len(),
        directory_start(w, st) + directory_seq(
            directory_for(st, levels, v_max, zbase, w, info),
        ).len() + FOOTER_SIZE <= u64::MAX,
    ensures
        ({
            let d = directory_for(st, levels, v_max, zbase, w, info);
            let f = footer_for(d, directory_start(w, st));
            let r = report_for(st, levels, w, d);
            &&& r.total_size == file_of(p, d, f).len()
            &&& r.body_size == p.body.len()
            &&& r.importance_size == p.sidecar.len()
            &&& r.segments_size == p.segments.len()
            &&& r.overview_sizes.len() == levels.len()
            &&& {
                let (level, size, count) = r.overview_sizes[i];
                level == levels[i].level && size == p.overviews[i].len() && count
                    == st.level_counts[i]
            }
            &&& r.fragment_count == st.fragment_count
            &&& r.segmented_features == st.segmented_ordinals.len()
            &&& r.features_count == st.features_count
        }),
{
    law_written_file_reads_back(p, st, levels, v_max, zbase, w, info);
    assert(p.overviews[i].len() == w.overview_sizes@[i]);
}

/// A layer can be encoded exactly if it counts its features and has an index;
/// its schema then is what its header says of it.
pub proof fn law_schema_is_the_header(h: HeaderModel)
    ensures
        encodable_schema(h) is Ok <==> h.features_count > 0 && h.index_node_size > 0,
        encodable_schema(h) matches Ok(s) ==> {
            &&& h.name matches Some(n) ==> s.name == n
            &&& h.name is None ==> s.name == "layer"@
            &&& s.geometry_type == h.geometry_type
            &&& s.has_z == h.has_z
            &&& h.columns matches Some(c) ==> s.columns == c
            &&& h.columns is None ==> s.columns.len() == 0
            &&& h.crs matches Some(c) ==> s.crs_org == c.org && s.crs_code == c.code && s.crs_wkt
                == c.wkt
            &&& h.crs is None ==> s.crs_org is None && s.crs_code == 0 && s.crs_wkt is None
        },
{
}

/// A file starts as a plain one does: with the magic of a version up to the
/// third and a header of a size within bounds.
pub open spec fn is_plain(file: Seq<u8>) -> bool {
    let n = field(file, 8, 4);
    &&& file.len() >= 12
    &&& file[0] == 0x66 && file[1] == 0x67 && file[2] == 0x62
    &&& file[3] <= 3
    &&& file[4] == 0x66 && file[5] == 0x67 && file[6] == 0x62
    &&& 8 <= n <= 10_485_760
    &&& 12 + n <= file.len()
}

/// What the header of a plain file is parsed to.
pub open spec fn header_in(file: Seq<u8>) -> core::result::Result<HeaderModel, Seq<char>> {
    fgb_header(file.subrange(8, 12 + field(file, 8, 4) as int))
}

/// A file can be encoded: it is no FGBO file, but a plain one, whose header
/// counts the features and announces an index.
pub open spec fn is_input(file: Seq<u8>) -> bool {
    &&& file.len() >= 32 ==> footer_of(file.subrange(file.len() - 32, file.len() as int)) is None
    &&& is_plain(file)
    &&& header_in(file) matches Ok(h) && h.features_count > 0 && h.index_node_size > 0
}

/// The header that was read is that of a plain file; of a plain file all of
/// which is at hand the header is read, if it can be parsed.
proof fn lemma_plain_header(s: Session, file: Seq<u8>)
    requires
        reads_file(s, file),
    ensures
        plain_header(s).1 matches Ok(h) ==> is_plain(file) && (header_in(file) matches Ok(k) && h
            == k),
        s.source == whole_file(file) && file.len() < 0x8000_0000_0000_0000 && is_plain(file) && (
        header_in(file) matches Ok(_)) ==> plain_header(s).1 is Ok,
{
    let (s1, magic) = ranged(s, 0, 8);
    let (s2, size) = ranged(s1, 8, 4);
    let n = field(file, 8, 4) as int;
    lemma_ranged_is_the_file(s, file, 0, 8);
    lemma_ranged_is_the_file(s1, file, 8, 4);
    lemma_ranged_is_the_file(s2, file, 12, n);
    if s.source == whole_file(file) && file.len() < 0x8000_0000_0000_0000 && is_plain(file) {
        lemma_whole_ranged(s, file, 0, 8);
        lemma_whole_ranged(s1, file, 8, 4);
        lemma_whole_ranged(s2, file, 12, n);
    }
    if magic is Ok && file.len() >= 8 {
        law_magic_of_a_section(magic->Ok_0);
        if size is Ok && file.len() >= 12 {
            assert(size->Ok_0.subrange(0, 4) =~= file.subrange(8, 12));
            if ranged(s2, 12, n).1 is Ok && n > 0 {
                let rest = ranged(s2, 12, n).1->Ok_0;
                assert(size->Ok_0 + rest =~= file.subrange(8, 12 + n));
            }
        }
    }
}

/// An input is accepted only if it can be encoded, and then its schema is that
/// of its header; with the whole file at hand it is accepted exactly if it
/// can be encoded.
pub proof fn law_inspected_input(s: Session, file: Seq<u8>)
    requires
        reads_file(s, file),
    ensures
        inspected(s).1 matches Ok(schema) ==> is_input(file) && (header_in(file) matches Ok(h)
            && encodable_schema(h) == core::result::Result::<SchemaModel, Fault>::Ok(schema)),
        s.source == whole_file(file) && file.len() < 0x8000_0000_0000_0000 && is_input(file)
            ==> inspected(s).1 is Ok,
{
    let len = file.len() as int;
    if len >= FOOTER_SIZE {
        let at = len - FOOTER_SIZE;
        lemma_ranged_is_the_file(s, file, at, FOOTER_SIZE as int);
        if s.source == whole_file(file) && len < 0x8000_0000_0000_0000 {
            lemma_whole_ranged(s, file, at, FOOTER_SIZE as int);
        }
        lemma_plain_header(ranged(s, at, FOOTER_SIZE as int).0, file);
    } else {
        lemma_plain_header(s, file);
    }
}

proof fn lemma_fault_comes_later(levels: Seq<LevelSpec>, k: int, i: int)
    requires
        0 <= k <= i <= levels.len(),
        disjoint_ascending(levels.take(i)),
    ensures
        levels_fault(levels, k) == levels_fault(levels, i),
    decreases i - k,
{
    if k < i {
        let fine = levels.take(i);
        assert(fine[k] == levels[k]);
        if k > 0 {
            assert(fine[k - 1] == levels[k - 1]);
        }
        lemma_fault_comes_later(levels, k + 1, i);
    }
}

/// The first level that is empty is refused with its zooms, and the first one
/// that does not lie behind the others with the rule that it breaks.
pub proof fn law_first_bad_level(levels: Seq<LevelSpec>, i: int)
    requires
        0 <= i < levels.len(),
        disjoint_ascending(levels.take(i)),
    ensures
        levels[i].min_zoom > levels[i].max_zoom ==> levels_fault(levels, 0) == Some(
            Fault::InvalidInput(
                "invalid level: min_zoom "@ + decimal(levels[i].min_zoom as nat) + " > max_zoom "@
                    + decimal(levels[i].max_zoom as nat),
            ),
        ),
        levels[i].min_zoom <= levels[i].max_zoom && i > 0 && levels[i].min_zoom <= levels[i
            - 1].max_zoom ==> levels_fault(levels, 0) == Some(
            Fault::InvalidInput("overview levels must be ascending and disjoint"@),
        ),
{
    lemma_fault_comes_later(levels, 0, i);
}

} // verus!
