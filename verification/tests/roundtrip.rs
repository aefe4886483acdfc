//! End-to-end: synthetic fgb -> FGBO encode -> plain-fgb compat -> tile
//! queries on every path (overview / importance / segments) -> determinism,
//! and the same through a reader that fetches what it misses.

use fgbo::clip::{Edge, Edges, Rect};
use fgbo::decoder::{
    next_query, query_section, FgboReader, QueryStep, TileFeature, TileQuery, TileRoute,
    TileSource,
};
use fgbo::encoder::{
    build_info, finish, inspect_input, is_segmentable, segment_feature, stage_feature,
    validate_levels, EncodeOptions, EncodeReport, EncodeState, LevelPlan, LevelSpec, Plane, Schema,
    Written,
};
use fgbo::error::Error;
use fgbo::fgb::{
    column_names, read_range, FgbSection, IoStats, PropValue, SearchPlan, SearchResultItem,
    WindowReader,
};
use fgbo::format::{Directory, Footer, FOOTER_SIZE, SENTINEL};
use fgbo::geometry::{coord_count, visit_coords, Coord, Geometry, Polygon};
use fgbo::http::{probe_len, range_header, HttpRangeReader};
use fgbo::importance::{threshold_q, ALWAYS};
use fgbo::sparse::{next_step, ChunkCache, MissingRange, SeekFrom, SparseReader, Step};
use fgbo::tile::{render_features, tile_layer_name, tile_route, RenderedTile, TileOptions};
use flatgeobuf::packed_r_tree::PackedRTree;
use flatgeobuf::{
    ColumnType, FallibleStreamingIterator, FgbCrs, FgbReader, FgbWriter, FgbWriterOptions,
    GeometryType,
};
use geozero::geo_types::GeoWriter;
use geozero::mvt::{Message, MvtWriter, Tile};
use geozero::{
    ColumnValue, FeatureProcessor, FeatureProperties, GeozeroGeometry, PropertyProcessor,
};
use std::f64::consts::PI;
use std::io::Cursor;

// ---- arithmetic -------------------------------------------------------------

fn num(bits: u64) -> f64 {
    f64::from_bits(bits)
}

fn at(x: f64, y: f64) -> Coord {
    Coord {
        x: x.to_bits(),
        y: y.to_bits(),
    }
}

fn project(lon: f64, lat: f64) -> (f64, f64) {
    let lat = lat.clamp(-85.051_128_779_806_59, 85.051_128_779_806_59);
    let s = (lat * PI / 180.0).sin();
    let y = 0.5 - 0.25 * ((1.0 + s) / (1.0 - s)).ln() / PI;
    (lon / 360.0 + 0.5, y.clamp(0.0, 1.0))
}

fn unproject(x: f64, y: f64) -> (f64, f64) {
    let n = PI * (1.0 - 2.0 * y);
    ((x - 0.5) * 360.0, n.sinh().atan() * 180.0 / PI)
}

fn to_mercator(c: Coord) -> Coord {
    let (x, y) = project(num(c.x), num(c.y));
    at(x, y)
}

fn to_lonlat(c: Coord) -> Coord {
    let (lon, lat) = unproject(num(c.x), num(c.y));
    at(lon, lat)
}

fn quantize_sqdist(d2: f64) -> u16 {
    if d2 <= 0.0 {
        return 1;
    }
    let l = d2.log2();
    if l <= -64.0 {
        return 1;
    }
    let q = ((l + 64.0) / 64.0 * 65533.0).floor() + 1.0;
    q.clamp(1.0, 65534.0) as u16
}

fn dequantize(q: u16) -> f64 {
    if q == 0 {
        0.0
    } else if q == ALWAYS {
        f64::INFINITY
    } else {
        ((q as f64 - 1.0) / 65533.0 * 64.0 - 64.0).exp2()
    }
}

fn key_of(d2: f64) -> u64 {
    if d2.is_nan() {
        0
    } else {
        d2.to_bits() + 1
    }
}

fn distance_of(key: u64) -> f64 {
    if key == 0 {
        -1.0
    } else {
        f64::from_bits(key - 1)
    }
}

fn quantize(key: u64) -> u16 {
    quantize_sqdist(distance_of(key))
}

fn threshold(z: u8, extent: u32) -> u16 {
    let px = 1.0 / ((1u64 << z) as f64 * extent as f64);
    threshold_q(key_of(px * px), &quantize, &|(q, key): (u16, u64)| {
        dequantize(q) >= distance_of(key)
    })
}

fn seg_dist((p, a, b): (Coord, Coord, Coord)) -> u64 {
    let (px, py) = (num(p.x), num(p.y));
    let (mut x, mut y) = (num(a.x), num(a.y));
    let (mut dx, mut dy) = (num(b.x) - x, num(b.y) - y);
    if dx != 0.0 || dy != 0.0 {
        let t = ((px - x) * dx + (py - y) * dy) / (dx * dx + dy * dy);
        if t > 1.0 {
            x = num(b.x);
            y = num(b.y);
        } else if t > 0.0 {
            x += dx * t;
            y += dy * t;
        }
    }
    dx = px - x;
    dy = py - y;
    key_of(dx * dx + dy * dy)
}

fn narrow((low, high, extent): (u64, u64, u64)) -> bool {
    num(high) - num(low) < num(extent)
}

fn rect(min_x: f64, min_y: f64, max_x: f64, max_y: f64) -> Rect {
    Rect::new(
        min_x.to_bits(),
        min_y.to_bits(),
        max_x.to_bits(),
        max_y.to_bits(),
    )
}

fn cell((z, cx, cy): (u8, u64, u64)) -> Rect {
    let n = (1u64 << z) as f64;
    rect(
        cx as f64 / n,
        cy as f64 / n,
        (cx + 1) as f64 / n,
        (cy + 1) as f64 / n,
    )
}

fn edges((a, b, r): (Coord, Coord, Rect)) -> Edges {
    let dx = num(b.x) - num(a.x);
    let dy = num(b.y) - num(a.y);
    let edge = |p: f64, q: f64| Edge {
        p: p.to_bits(),
        q: q.to_bits(),
        t: (q / p).to_bits(),
    };
    Edges {
        west: edge(-dx, num(a.x) - num(r.min_x)),
        east: edge(dx, num(r.max_x) - num(a.x)),
        north: edge(-dy, num(a.y) - num(r.min_y)),
        south: edge(dy, num(r.max_y) - num(a.y)),
    }
}

fn along((a, b, t): (Coord, Coord, u64)) -> Coord {
    let dx = num(b.x) - num(a.x);
    let dy = num(b.y) - num(a.y);
    at(num(a.x) + num(t) * dx, num(a.y) + num(t) * dy)
}

fn lerp((a, b, x): (Coord, Coord, u64)) -> u64 {
    let t = (num(x) - num(a.x)) / (num(b.x) - num(a.x));
    (num(a.y) + t * (num(b.y) - num(a.y))).to_bits()
}

/// Tile coordinates containing the given lon/lat at zoom z.
fn tile_at(z: u8, lon: f64, lat: f64) -> (u32, u32) {
    let (mx, my) = project(lon, lat);
    let n = (1u64 << z) as f64;
    ((mx * n) as u32, (my * n) as u32)
}

/// Left, top, right, bottom of a tile in unit mercator, with a buffer.
fn tile_bounds(z: u8, x: u32, y: u32, frac: f64) -> (f64, f64, f64, f64) {
    let n = (1u64 << z) as f64;
    let b = frac / n;
    (
        x as f64 / n - b,
        y as f64 / n - b,
        (x as f64 + 1.0) / n + b,
        (y as f64 + 1.0) / n + b,
    )
}

// ---- geometries ---------------------------------------------------------------

fn line(l: &geo_types::LineString<f64>) -> Vec<Coord> {
    l.0.iter().map(|c| at(c.x, c.y)).collect()
}

fn polygon(p: &geo_types::Polygon<f64>) -> Polygon {
    Polygon::new(
        line(p.exterior()),
        p.interiors().iter().map(line).collect(),
    )
}

fn from_geo(g: &geo_types::Geometry<f64>) -> Geometry {
    match g {
        geo_types::Geometry::Point(p) => Geometry::Point(at(p.x(), p.y())),
        geo_types::Geometry::LineString(l) => Geometry::LineString(line(l)),
        geo_types::Geometry::MultiLineString(ml) => {
            Geometry::MultiLineString(ml.0.iter().map(line).collect())
        }
        geo_types::Geometry::Polygon(p) => Geometry::Polygon(polygon(p)),
        geo_types::Geometry::MultiPolygon(mp) => {
            Geometry::MultiPolygon(mp.0.iter().map(polygon).collect())
        }
        other => panic!("unexpected geometry {other:?}"),
    }
}

fn geo_line(l: &[Coord]) -> geo_types::LineString<f64> {
    geo_types::LineString(
        l.iter()
            .map(|c| geo_types::Coord {
                x: num(c.x),
                y: num(c.y),
            })
            .collect(),
    )
}

fn geo_polygon(p: &Polygon) -> geo_types::Polygon<f64> {
    geo_types::Polygon::new(
        geo_line(&p.exterior),
        p.interiors.iter().map(|r| geo_line(r)).collect(),
    )
}

fn to_geo(g: &Geometry) -> geo_types::Geometry<f64> {
    match g {
        Geometry::Point(c) => {
            geo_types::Geometry::Point(geo_types::Point::new(num(c.x), num(c.y)))
        }
        Geometry::LineString(l) => geo_types::Geometry::LineString(geo_line(l)),
        Geometry::MultiLineString(v) => geo_types::Geometry::MultiLineString(
            geo_types::MultiLineString(v.iter().map(|l| geo_line(l)).collect()),
        ),
        Geometry::Polygon(p) => geo_types::Geometry::Polygon(geo_polygon(p)),
        Geometry::MultiPolygon(v) => geo_types::Geometry::MultiPolygon(geo_types::MultiPolygon(
            v.iter().map(geo_polygon).collect(),
        )),
        other => panic!("unexpected geometry {other:?}"),
    }
}

fn column_value(v: &PropValue) -> ColumnValue<'_> {
    match v {
        PropValue::Int(v) => ColumnValue::Int(*v),
        PropValue::String(v) => ColumnValue::String(v),
        other => panic!("unexpected property {other:?}"),
    }
}

// ---- encoding -----------------------------------------------------------------

/// A closed ring approximating a circle around (lon, lat).
fn circle(lon: f64, lat: f64, r_deg: f64, n: usize) -> geo_types::Polygon<f64> {
    let mut coords: Vec<geo_types::Coord<f64>> = (0..n)
        .map(|i| {
            let a = i as f64 / n as f64 * std::f64::consts::TAU;
            geo_types::Coord {
                x: lon + r_deg * a.cos(),
                y: lat + r_deg * 0.7 * a.sin(),
            }
        })
        .collect();
    coords.push(coords[0]);
    geo_types::Polygon::new(geo_types::LineString(coords), vec![])
}

/// Long jagged line with many vertices (spans ~1 degree).
fn jagged_line(n: usize) -> geo_types::LineString<f64> {
    geo_types::LineString(
        (0..n)
            .map(|i| {
                let t = i as f64 / (n - 1) as f64;
                geo_types::Coord {
                    x: 130.0 + 1.0 * t,
                    y: 33.0 + 0.5 * t + 0.05 * ((i % 7) as f64 - 3.0) / 3.0,
                }
            })
            .collect(),
    )
}

fn new_writer(name: &str, geometry_type: GeometryType) -> FgbWriter<'_> {
    FgbWriter::create_with_options(
        name,
        geometry_type,
        FgbWriterOptions {
            write_index: true,
            detect_type: false,
            promote_to_multi: false,
            ..Default::default()
        },
    )
    .unwrap()
}

fn test_fgb(big_vertices: usize) -> Vec<u8> {
    let mut w = new_writer("testlayer", GeometryType::Unknown);
    w.add_column("name", ColumnType::String, |_, _| {});
    w.add_column("pop", ColumnType::Int, |_, _| {});

    // a few hundred small circles spread over Japan + one big jagged line
    let mut id = 0;
    for i in 0..15 {
        for j in 0..15 {
            let lon = 128.0 + i as f64 * 0.9;
            let lat = 31.0 + j as f64 * 0.7;
            let geom = geo_types::Geometry::Polygon(circle(
                lon,
                lat,
                0.05 + 0.01 * (id % 5) as f64,
                64,
            ));
            w.add_feature_geom(geom, |feat| {
                feat.property(0, "name", &ColumnValue::String(&format!("c{id}")))
                    .unwrap();
                feat.property(1, "pop", &ColumnValue::Int(id)).unwrap();
            })
            .unwrap();
            id += 1;
        }
    }
    let big = geo_types::Geometry::LineString(jagged_line(big_vertices));
    w.add_feature_geom(big, |feat| {
        feat.property(0, "name", &ColumnValue::String("big"))
            .unwrap();
        feat.property(1, "pop", &ColumnValue::Int(-1)).unwrap();
    })
    .unwrap();

    // one tiny polygon that must be thinned out of coarse overviews
    let tiny = [
        (135.0, 35.0),
        (135.0001, 35.0),
        (135.0001, 35.0001),
        (135.0, 35.0),
    ];
    let tiny = geo_types::Geometry::Polygon(geo_types::Polygon::new(tiny.to_vec().into(), vec![]));
    w.add_feature_geom(tiny, |feat| {
        feat.property(0, "name", &ColumnValue::String("tiny"))
            .unwrap();
        feat.property(1, "pop", &ColumnValue::Int(0)).unwrap();
    })
    .unwrap();

    let mut out = Vec::new();
    w.write(&mut out).unwrap();
    out
}

/// Polygons of `steps + 1` corners on a grid of `n` by `n` places.
fn grid_fgb(
    name: &str,
    n: i32,
    step: (f64, f64),
    size: (f64, f64),
    steps: usize,
    label: impl Fn(i32, i32) -> String,
) -> Vec<u8> {
    let mut w = new_writer(name, GeometryType::Polygon);
    w.add_column("name", ColumnType::String, |_, _| {});
    for i in 0..n {
        for j in 0..n {
            let (lon, lat) = (130.0 + i as f64 * step.0, 31.0 + j as f64 * step.1);
            let mut ring: Vec<geo_types::Coord<f64>> = (0..steps + 1)
                .map(|k| {
                    let a = k as f64 / steps as f64 * std::f64::consts::TAU;
                    geo_types::Coord {
                        x: lon + size.0 * a.cos(),
                        y: lat + size.1 * a.sin(),
                    }
                })
                .collect();
            ring.push(ring[0]);
            let geom = geo_types::Geometry::Polygon(geo_types::Polygon::new(
                geo_types::LineString(ring),
                vec![],
            ));
            let label = label(i, j);
            w.add_feature_geom(geom, |feat| {
                feat.property(0, "name", &ColumnValue::String(&label))
                    .unwrap();
            })
            .unwrap();
        }
    }
    let mut out = Vec::new();
    w.write(&mut out).unwrap();
    out
}

/// A reader with the whole file at hand.
fn whole(bytes: &[u8]) -> SparseReader {
    let mut r = SparseReader::new(
        ChunkCache::new(),
        MissingRange::new(),
        bytes.len() as u64,
    );
    r.feed(0, bytes.to_vec());
    r
}

fn section_writer(schema: &Schema, geometry_type: GeometryType) -> FgbWriter<'_> {
    let options = FgbWriterOptions {
        write_index: true,
        detect_type: false,
        promote_to_multi: false,
        crs: FgbCrs {
            org: schema.crs_org.as_deref(),
            code: schema.crs_code,
            wkt: schema.crs_wkt.as_deref(),
            ..Default::default()
        },
        ..Default::default()
    };
    let mut w = FgbWriter::create_with_options(&schema.name, geometry_type, options).unwrap();
    for c in &schema.columns {
        w.add_column(&c.name, ColumnType(c.column_type), |_, _| {});
    }
    w
}

#[derive(Default)]
struct Row(Vec<(usize, PropValue)>);

impl PropertyProcessor for Row {
    fn property(&mut self, i: usize, _: &str, v: &ColumnValue) -> geozero::error::Result<bool> {
        let v = match v {
            ColumnValue::Int(v) => PropValue::Int(*v),
            ColumnValue::String(v) => PropValue::String(v.to_string()),
            other => panic!("unexpected property {other:?}"),
        };
        self.0.push((i, v));
        Ok(false)
    }
}

fn add_feature(w: &mut FgbWriter<'_>, schema: &Schema, g: &Geometry, row: &Row) {
    w.add_feature_geom(to_geo(g), |feat| {
        for (i, v) in &row.0 {
            feat.property(*i, &schema.columns[*i].name, &column_value(v))
                .unwrap();
        }
    })
    .unwrap();
}

fn encode(src: &[u8], opts: &EncodeOptions) -> Result<(Vec<u8>, EncodeReport), Error> {
    validate_levels(&opts.levels)?;
    let schema = inspect_input(&mut whole(src), &mut IoStats::default())?;
    let levels: Vec<LevelPlan> = opts
        .levels
        .iter()
        .map(|l| {
            let units = num(opts.drop_small_units);
            let scale = (1u64 << l.max_zoom) as f64 * opts.extent as f64;
            LevelPlan {
                level: *l,
                threshold: threshold(l.max_zoom, opts.extent),
                min_extent: (units / scale).to_bits(),
            }
        })
        .collect();
    let plane = Plane {
        project: to_mercator,
        unproject: to_lonlat,
        dist: seg_dist,
        quantize,
        narrow,
        cell,
        edges,
        along,
        lerp,
    };
    let geometry_type = GeometryType(schema.geometry_type);
    let mut overviews: Vec<FgbWriter<'_>> = levels
        .iter()
        .map(|_| section_writer(&schema, geometry_type))
        .collect();
    let mut segments = section_writer(&schema, GeometryType::Unknown);
    let mut state = EncodeState::new(levels.len());
    let mut features = FgbReader::open(Cursor::new(src)).unwrap().select_all().unwrap();
    while let Some(feature) = features.next().unwrap() {
        let mut gw = GeoWriter::new();
        feature.process_geom(&mut gw).unwrap();
        let geom = from_geo(&gw.take_geometry().unwrap());
        let mut row = Row::default();
        feature.process_properties(&mut row).unwrap();
        let staged = stage_feature(&geom, &levels, opts.v_max, opts.zbase, &plane);
        assert_eq!(staged.importance.len(), coord_count(&geom));
        state.add(&staged);
        for (w, shown) in overviews.iter_mut().zip(&staged.overviews) {
            if let Some(shown) = shown {
                add_feature(w, &schema, shown, &row);
            }
        }
        for fragment in staged.fragments.iter().flatten() {
            add_feature(&mut segments, &schema, fragment, &row);
        }
    }

    let mut out = src.to_vec();
    out.extend_from_slice(&SENTINEL);
    let sidecar = state.sidecar.encode();
    out.extend_from_slice(&sidecar);
    let mut written = Written {
        body_size: src.len() as u64,
        importance_size: sidecar.len() as u64,
        overview_sizes: Vec::new(),
        segments_size: 0,
    };
    for w in overviews {
        let start = out.len();
        w.write(&mut out).unwrap();
        written.overview_sizes.push((out.len() - start) as u64);
    }
    if !state.segmented_ordinals.is_empty() {
        let start = out.len();
        segments.write(&mut out).unwrap();
        written.segments_size = (out.len() - start) as u64;
    }
    let trailer = finish(
        &state,
        &levels,
        opts.v_max,
        opts.zbase,
        &written,
        build_info("0.1.0"),
    );
    out.extend_from_slice(&trailer.dir_bytes);
    out.extend_from_slice(&trailer.footer.encode());
    assert_eq!(trailer.report.total_size, out.len() as u64);
    Ok((out, trailer.report))
}

// ---- reading ------------------------------------------------------------------

/// A window of a file for the index search.
struct WindowIo<'a> {
    window: WindowReader,
    r: &'a mut SparseReader,
    stats: &'a mut IoStats,
}

impl std::io::Read for WindowIo<'_> {
    fn read(&mut self, buf: &mut [u8]) -> std::io::Result<usize> {
        let bytes = self
            .window
            .read(self.r, self.stats, buf.len())
            .map_err(|_| std::io::Error::from(std::io::ErrorKind::WouldBlock))?;
        buf[..bytes.len()].copy_from_slice(&bytes);
        Ok(bytes.len())
    }
}

impl std::io::Seek for WindowIo<'_> {
    fn seek(&mut self, pos: std::io::SeekFrom) -> std::io::Result<u64> {
        let to = match pos {
            std::io::SeekFrom::Start(o) => SeekFrom::Start(o),
            std::io::SeekFrom::End(d) => SeekFrom::End(d),
            std::io::SeekFrom::Current(d) => SeekFrom::Current(d),
        };
        self.window
            .seek(to)
            .map_err(|_| std::io::Error::from(std::io::ErrorKind::InvalidInput))
    }
}

/// What went wrong, as text.
type Outcome<T> = Result<T, String>;

fn search(
    section: &FgbSection,
    r: &mut SparseReader,
    stats: &mut IoStats,
    bbox: (f64, f64, f64, f64),
) -> Outcome<Vec<SearchResultItem>> {
    let (w, s, e, n) = bbox;
    let count = section.features_count as usize;
    let node_size = section.node_size;
    let found = match section.search_plan().map_err(|e| e.message())? {
        SearchPlan::Whole { offset, size } => {
            let buf = read_range(r, stats, offset, size as usize).map_err(|e| e.message())?;
            PackedRTree::stream_search(&mut Cursor::new(buf), count, node_size, w, s, e, n)
        }
        SearchPlan::Windowed {
            offset,
            size,
            group_bytes,
        } => {
            let window = WindowIo {
                window: WindowReader::new(offset, size),
                r,
                stats,
            };
            let mut data = std::io::BufReader::with_capacity(group_bytes, window);
            PackedRTree::stream_search(&mut data, count, node_size, w, s, e, n)
        }
    };
    Ok(found
        .map_err(|e| e.to_string())?
        .iter()
        .map(|i| SearchResultItem {
            offset: i.offset,
            index: i.index,
        })
        .collect())
}

fn features_of(
    section: &FgbSection,
    r: &mut SparseReader,
    stats: &mut IoStats,
    bbox: (f64, f64, f64, f64),
    exclude: &Vec<u64>,
) -> Outcome<Vec<(u64, TileFeature)>> {
    let items = if section.features_count == 0 {
        vec![]
    } else {
        search(section, r, stats, bbox)?
    };
    let hits = query_section(section, r, stats, &items, exclude).map_err(|e| e.message())?;
    assert!(hits.len() <= items.len());
    Ok(hits
        .into_iter()
        .map(|hit| {
            let feature = flatgeobuf::size_prefixed_root_as_feature(&hit.record).unwrap();
            let mut gw = GeoWriter::new();
            flatgeobuf::read_geometry(
                &mut gw,
                &feature.geometry().unwrap(),
                GeometryType(section.header().geometry_type),
            )
            .unwrap();
            let feature = TileFeature {
                geometry: from_geo(&gw.take_geometry().unwrap()),
                properties: hit.properties,
            };
            (hit.ordinal, feature)
        })
        .collect())
}

/// An open file and what was read of it.
struct Reader {
    r: SparseReader,
    stats: IoStats,
    fgbo: FgboReader,
}

impl Reader {
    fn open(bytes: &[u8]) -> Reader {
        let mut r = whole(bytes);
        let mut stats = IoStats::default();
        let fgbo = FgboReader::open(&mut r, &mut stats).unwrap();
        Reader { r, stats, fgbo }
    }

    fn query(
        &mut self,
        route: TileRoute,
        (z, x, y): (u8, u32, u32),
        extent: u32,
        frac: f64,
    ) -> Outcome<TileQuery> {
        let (left, top, right, bottom) = tile_bounds(z, x, y, frac);
        let (w, n) = unproject(left, top);
        let (e, s) = unproject(right, bottom);
        let bbox = (w, s, e, n);
        let (r, stats) = (&mut self.r, &mut self.stats);
        let fgbo = &mut self.fgbo;
        let only = |v: Vec<(u64, TileFeature)>| v.into_iter().map(|(_, f)| f).collect();
        let (mut features, mut fragments) = (vec![], vec![]);
        let mut done = 0;
        while let Some(step) = next_query(route, done) {
            match step {
                QueryStep::Overview(pos) => {
                    fgbo.ensure_overview(r, stats, pos).map_err(|e| e.message())?;
                    let section = fgbo.overview_section(pos).unwrap();
                    features = only(features_of(section, r, stats, bbox, &vec![])?);
                }
                QueryStep::Body => {
                    let excluded = fgbo.excluded(route);
                    let body = features_of(fgbo.body(), r, stats, bbox, &excluded)?;
                    features = fgbo
                        .simplify_body(
                            r,
                            stats,
                            route.source,
                            threshold(z, extent),
                            &to_mercator,
                            &seg_dist,
                            &quantize,
                            body,
                        )
                        .map_err(|e| e.message())?;
                }
                QueryStep::Segments => {
                    fgbo.ensure_segments(r, stats).map_err(|e| e.message())?;
                    if let Some(section) = fgbo.segments_section() {
                        fragments = only(features_of(section, r, stats, bbox, &vec![])?);
                    }
                }
            }
            done += 1;
        }
        Ok(TileQuery::assemble(route, features, fragments))
    }

    fn query_tile(&mut self, z: u8, x: u32, y: u32, extent: u32, frac: f64) -> TileQuery {
        let route = self.fgbo.route(z);
        self.query(route, (z, x, y), extent, frac).unwrap()
    }

    fn try_render(&mut self, z: u8, x: u32, y: u32, opts: &TileOptions) -> Outcome<RenderedTile> {
        let frac = opts.buffer as f64 / opts.extent as f64;
        let route = tile_route(&self.fgbo, z, opts);
        let query = self.query(route, (z, x, y), opts.extent, frac)?;
        let (left, top, right, bottom) = tile_bounds(z, x, y, frac);
        let features = render_features(
            query.features,
            rect(left, top, right, bottom),
            &to_mercator,
            &edges,
            &along,
            &lerp,
        );
        let (left, top, right, bottom) = tile_bounds(z, x, y, 0.0);
        let mut mvt = MvtWriter::new(opts.extent, left, bottom, right, top).unwrap();
        for (n, f) in features.iter().enumerate() {
            assert_eq!(f.id, n as u64);
            mvt.feature_begin(f.id).unwrap();
            mvt.geometry_begin().unwrap();
            to_geo(&f.geometry).process_geom(&mut mvt).unwrap();
            mvt.geometry_end().unwrap();
            for (i, name, value) in &f.properties {
                mvt.property(*i, name, &column_value(value)).unwrap();
            }
            mvt.feature_end(f.id).unwrap();
        }
        let layer = mvt.layer(&tile_layer_name(&self.fgbo, opts));
        Ok(RenderedTile {
            data: Tile {
                layers: vec![layer],
            }
            .encode_to_vec(),
            feature_count: features.len(),
            source: query.source,
        })
    }

    fn render(&mut self, z: u8, x: u32, y: u32, opts: &TileOptions) -> RenderedTile {
        self.try_render(z, x, y, opts).unwrap()
    }
}

// ---- tests --------------------------------------------------------------------

#[test]
fn end_to_end() {
    let src = test_fgb(40_000);

    // ---- encode ------------------------------------------------------
    let opts = EncodeOptions {
        v_max: 16384,
        ..Default::default()
    };
    let (out, report) = encode(&src, &opts).unwrap();
    assert_eq!(report.features_count, 15 * 15 + 2);
    assert_eq!(
        report.segmented_features, 1,
        "jagged line must be segmented"
    );
    assert!(report.fragment_count > 1);
    assert_eq!(report.overview_sizes.len(), 3);
    // coarsest overview must thin features
    let (_, _, coarse_count) = report.overview_sizes[0];
    assert!(
        coarse_count < report.features_count,
        "coarse overview must drop small features ({coarse_count} vs {})",
        report.features_count
    );

    // ---- plain fgb compatibility (Rust reference reader) --------------
    {
        let mut fgb = FgbReader::open(Cursor::new(&out)).unwrap().select_all().unwrap();
        let mut n = 0;
        while let Some(f) = fgb.next().unwrap() {
            let mut row = Row::default();
            f.process_properties(&mut row).unwrap();
            assert_eq!(row.0.len(), 2);
            n += 1;
        }
        assert_eq!(n, 227, "plain reader must see exactly the body features");
    }
    {
        // bbox query must also work and stay inside the body
        let mut fgb = FgbReader::open(Cursor::new(&out))
            .unwrap()
            .select_bbox(128.0, 30.0, 142.0, 42.0)
            .unwrap();
        let mut n = 0;
        while let Some(_f) = fgb.next().unwrap() {
            n += 1;
        }
        assert!(n > 0);
    }
    {
        // sequential/streaming read (the EOF-reader risk path) must stop at
        // features_count and never reach the trailer
        let mut fgb = FgbReader::open(Cursor::new(&out)).unwrap().select_all_seq().unwrap();
        let mut n = 0;
        while let Some(_f) = fgb.next().unwrap() {
            n += 1;
        }
        assert_eq!(n, 227, "select_all_seq must stop at features_count");
    }

    // ---- FGBO reader ---------------------------------------------------
    let mut reader = Reader::open(&out);
    assert!(reader.fgbo.is_fgbo());
    let directory = reader.fgbo.directory().unwrap().clone();
    assert_eq!(directory.overviews.len(), 3);
    assert!(directory.importance.is_some());
    assert!(directory.segments.is_some());

    // low zoom -> coarsest overview level
    let (x2, y2) = tile_at(2, 135.0, 35.0);
    let q = reader.query_tile(2, x2, y2, 4096, 64.0 / 4096.0);
    assert!(
        matches!(q.source, TileSource::Overview(0)),
        "{:?}",
        q.source
    );
    assert!(!q.features.is_empty());

    // z10 -> finest overview level (9-11)
    let (x10, y10) = tile_at(10, 135.0, 35.0);
    let q = reader.query_tile(10, x10, y10, 4096, 64.0 / 4096.0);
    assert!(
        matches!(q.source, TileSource::Overview(2)),
        "{:?}",
        q.source
    );

    // high zoom (>= zbase): body + importance; segmented feature served
    // as fragments
    let (x13, y13) = tile_at(13, 130.5, 33.25);
    let q = reader.query_tile(13, x13, y13, 4096, 64.0 / 4096.0);
    assert!(matches!(q.source, TileSource::BodyImportance));
    assert!(
        q.fragment_features > 0,
        "z13 tile over the big line must include fragments"
    );
    // every returned big-line piece must be a fragment, not the whole line
    for f in &q.features {
        if let Geometry::LineString(ls) = &f.geometry {
            assert!(
                ls.len() < 40_000,
                "fragments must be cell-clipped, not the full line"
            );
        }
    }

    // ---- tiles -----------------------------------------------------------
    let topts = TileOptions::default();
    let t = reader.render(2, x2, y2, &topts);
    assert!(!t.data.is_empty());
    assert!(t.feature_count > 0, "z2 tile must contain features");

    let t = reader.render(10, x10, y10, &topts);
    assert!(!t.data.is_empty());

    // baseline (plain fgb behavior) still works
    let topts_base = TileOptions {
        baseline: true,
        ..Default::default()
    };
    let t = reader.render(2, x2, y2, &topts_base);
    assert!(matches!(t.source, TileSource::BodyLive));

    // ---- io stats: overview tile reads far less than baseline -----------
    reader.stats.reset();
    let _ = reader.render(1, 1, 0, &TileOptions::default());
    let overview_bytes = reader.stats.bytes();
    reader.stats.reset();
    let _ = reader.render(1, 1, 0, &topts_base);
    let baseline_bytes = reader.stats.bytes();
    assert!(
        overview_bytes < baseline_bytes / 2,
        "overview path ({overview_bytes} B) must read much less than baseline ({baseline_bytes} B)"
    );

    // ---- determinism ----------------------------------------------------
    let (again, _) = encode(&src, &opts).unwrap();
    assert_eq!(out, again, "encode must be byte-deterministic");
}

#[test]
fn rejects_double_encode() {
    let src = test_fgb(100);
    let (out, _) = encode(&src, &EncodeOptions::default()).unwrap();
    let err = encode(&out, &EncodeOptions::default());
    assert!(err.is_err(), "encoding an FGBO file again must fail");
    assert_eq!(
        err.unwrap_err().message(),
        "invalid input: input is already an FGBO file"
    );
}

#[test]
fn plain_fgb_fallback() {
    let src = test_fgb(100);
    let mut reader = Reader::open(&src);
    assert!(!reader.fgbo.is_fgbo());
    let q = reader.query_tile(3, 7, 3, 4096, 0.0);
    assert!(matches!(q.source, TileSource::BodyLive));
    let t = reader.render(3, 7, 3, &TileOptions::default());
    assert!(!t.data.is_empty());
}

#[test]
fn retry_loop_renders_identical_tiles() {
    let src = grid_fgb("sparsetest", 12, (0.7, 0.5), (0.12, 0.08), 32, |i, j| {
        format!("p{i}-{j}")
    });
    let (bytes, _) = encode(&src, &EncodeOptions::default()).unwrap();

    let mut sparse = SparseReader::new(
        ChunkCache::new(),
        MissingRange::new(),
        bytes.len() as u64,
    );
    let mut local = Reader::open(&bytes);
    let mut fetches = 0usize;

    // simulated fetch: serve the requested range from the byte array,
    // padded to 16 KiB the way a real driver would
    let mut fetch = |r: &mut SparseReader, offset: u64, len: u64| {
        fetches += 1;
        let padded = len.max(16 * 1024);
        let end = (offset + padded).min(bytes.len() as u64);
        r.feed(offset, bytes[offset as usize..end as usize].to_vec());
        fetches
    };

    let mut stats = IoStats::default();
    let fgbo = loop {
        match FgboReader::open(&mut sparse, &mut stats) {
            Ok(r) => break r,
            Err(_) => {
                let (o, l) = sparse
                    .missing
                    .take()
                    .expect("open failed without missing range");
                fetch(&mut sparse, o, l);
            }
        }
    };
    let mut reader = Reader {
        r: sparse,
        stats,
        fgbo,
    };
    let mut count = 0;
    for (z, x, y) in [(2u8, 3u32, 1u32), (6, 55, 25), (13, 7060, 3265)] {
        let tile = loop {
            match reader.try_render(z, x, y, &TileOptions::default()) {
                Ok(t) => break t,
                Err(e) => {
                    let (o, l) = reader
                        .r
                        .missing
                        .take()
                        .unwrap_or_else(|| panic!("tile failed without missing range: {e}"));
                    count = fetch(&mut reader.r, o, l);
                }
            }
        };
        let want = local.render(z, x, y, &TileOptions::default());
        assert_eq!(tile.data, want.data, "tile {z}/{x}/{y} differs");
    }

    assert!(count > 0, "loop must have fetched something");
    assert!(
        count < 100,
        "too many round trips: {count} (progress broken?)"
    );

    // warm tiles need no new fetches
    let warm = reader.try_render(2, 3, 1, &TileOptions::default());
    assert!(warm.is_ok(), "warm tile must be served from cache");
}

/// Answers a `Range` header with the bytes it names.
fn serve(file: &[u8], range: &str) -> Vec<u8> {
    let (start, end) = range.strip_prefix("bytes=").unwrap().split_once('-').unwrap();
    let (start, end): (usize, usize) = (start.parse().unwrap(), end.parse().unwrap());
    file[start..=end].to_vec()
}

#[test]
fn http_range_reading() {
    let src = grid_fgb("httptest", 10, (0.8, 0.6), (0.1, 0.07), 16, |i, j| {
        format!("f{}", i * 10 + j)
    });
    let (bytes, _) = encode(&src, &EncodeOptions::default()).unwrap();

    // probe for the length, then ask for one range after the other
    let answer = format!("bytes 0-0/{}", bytes.len());
    let len = probe_len(206, "206 Partial Content", Some(&answer)).unwrap();
    let mut http = HttpRangeReader::new(len);
    assert_eq!(http.len(), bytes.len() as u64);
    let mut fetch = |r: &mut SparseReader| match next_step(false, r.missing.take()) {
        Step::Fetch { offset, len } => {
            http.seek(SeekFrom::Start(offset)).unwrap();
            let (start, end) = http.request(len).unwrap();
            let got = serve(&bytes, &range_header(start, end - start + 1));
            http.advance(got.len() as u64);
            r.feed(offset, got);
        }
        other => panic!("unexpected {other:?}"),
    };

    let mut sparse = SparseReader::new(ChunkCache::new(), MissingRange::new(), len);
    let mut stats = IoStats::default();
    let fgbo = loop {
        match FgboReader::open(&mut sparse, &mut stats) {
            Ok(r) => break r,
            Err(_) => fetch(&mut sparse),
        }
    };
    let mut remote = Reader {
        r: sparse,
        stats,
        fgbo,
    };
    assert!(remote.fgbo.is_fgbo());
    let mut local = Reader::open(&bytes);

    for (z, x, y) in [(2u8, 3u32, 1u32), (6, 55, 25), (13, 7060, 3260)] {
        let rt = loop {
            // every range that is read is one request
            remote.stats.reset();
            match remote.try_render(z, x, y, &TileOptions::default()) {
                Ok(t) => break t,
                Err(_) => fetch(&mut remote.r),
            }
        };
        let lt = local.render(z, x, y, &TileOptions::default());
        assert_eq!(rt.data, lt.data, "tile {z}/{x}/{y} must match local read");
        assert!(
            remote.stats.requests() < 60,
            "tile {z}/{x}/{y}: {} requests (coalescing broken?)",
            remote.stats.requests()
        );
    }
}

#[test]
fn header_fields_come_from_the_file() {
    let src = test_fgb(100);
    let reader = Reader::open(&src);
    let header = reader.fgbo.body().header();
    assert_eq!(header.name.as_deref(), Some("testlayer"));
    assert_eq!(header.features_count, 227);
    assert_eq!(header.index_node_size, 16);
    assert_eq!(reader.fgbo.geometry_type(), GeometryType::Unknown.0);
    assert_eq!(reader.fgbo.layer_name(), "testlayer");
    assert_eq!(reader.fgbo.file_len(), src.len() as u64);
    let columns: Vec<(String, u8)> = column_names(header)
        .into_iter()
        .map(|c| (c.name, c.column_type))
        .collect();
    assert_eq!(
        columns,
        vec![
            ("name".to_string(), ColumnType::String.0),
            ("pop".to_string(), ColumnType::Int.0)
        ]
    );
    // 227 leaves, 15 nodes above them and the root, 40 bytes each
    let body = reader.fgbo.body();
    assert_eq!(body.index_size, (227 + 15 + 1) * 40);
    assert!(reader.fgbo.body_is_searchable());
}

#[test]
fn features_come_with_their_properties() {
    let src = test_fgb(100);
    let mut reader = Reader::open(&src);
    // at an extent this fine nothing collapses
    let q = reader.query_tile(0, 0, 0, 1 << 30, 0.0);
    assert_eq!(q.features.len(), 227);
    let big = q
        .features
        .iter()
        .find(|f| f.properties[0].1 == PropValue::String("big".into()))
        .unwrap();
    assert_eq!(
        big.properties,
        vec![
            ("name".to_string(), PropValue::String("big".into())),
            ("pop".to_string(), PropValue::Int(-1))
        ]
    );
}

#[test]
fn record_reads_agree_with_coalesced_ones() {
    let src = test_fgb(2000);
    let mut r = whole(&src);
    let mut stats = IoStats::default();
    let section = FgbSection::open(&mut r, &mut stats, 0, src.len() as u64).unwrap();
    let all = (-180.0, -90.0, 180.0, 90.0);
    let items = search(&section, &mut r, &mut stats, all).unwrap();
    assert_eq!(items.len(), 227);
    stats.reset();
    let together = query_section(&section, &mut r, &mut stats, &items, &vec![]).unwrap();
    // neighbours all: one run of hits
    assert!(stats.requests() <= 2);
    stats.reset();
    for hit in &together {
        let item = items.iter().find(|i| i.index as u64 == hit.ordinal).unwrap();
        let record = section
            .read_feature(&mut r, &mut stats, item.offset as u64)
            .unwrap();
        assert_eq!(record, hit.record);
    }
    assert_eq!(stats.requests(), 2 * 227);
    // excluded ordinals are left out
    let some = query_section(&section, &mut r, &mut stats, &items, &vec![3, 5]).unwrap();
    assert_eq!(some.len(), 225);
    assert!(some.iter().all(|h| h.ordinal != 3 && h.ordinal != 5));
}

#[test]
fn sidecar_comes_back_feature_by_feature() {
    let src = test_fgb(500);
    let (out, report) = encode(&src, &EncodeOptions::default()).unwrap();
    let mut reader = Reader::open(&out);
    let entry = reader.fgbo.directory().unwrap().importance.unwrap();
    assert_eq!(entry.offset, src.len() as u64 + 4);
    assert_eq!(entry.size, report.importance_size);
    let sidecar = fgbo::importance::ImportanceSidecar::decode(
        &out[entry.offset as usize..(entry.offset + entry.size) as usize],
    )
    .unwrap();
    assert_eq!(sidecar.feature_count(), 227);
    for i in 0..227 {
        let got = reader
            .fgbo
            .importance_for(&mut reader.r, &mut reader.stats, i)
            .unwrap();
        assert_eq!(got.as_deref(), sidecar.get(i));
    }
    let past = reader
        .fgbo
        .importance_for(&mut reader.r, &mut reader.stats, 227)
        .unwrap();
    assert_eq!(past, None);
}

#[test]
fn stored_importance_serves_like_live() {
    let src = test_fgb(100);
    let opts = EncodeOptions {
        v_max: 0,
        ..Default::default()
    };
    let (out, report) = encode(&src, &opts).unwrap();
    assert_eq!(report.segmented_features, 0);
    assert_eq!(report.segments_size, 0);
    let mut reader = Reader::open(&out);
    let mut seen = 0;
    for (lon, lat) in [(128.9, 31.7), (130.5, 33.25), (134.3, 36.6)] {
        let (x, y) = tile_at(12, lon, lat);
        let route = reader.fgbo.route(12);
        assert_eq!(route.source, TileSource::BodyImportance);
        let stored = reader.query(route, (12, x, y), 4096, 0.0).unwrap();
        let base = reader.fgbo.route_baseline();
        let live = reader.query(base, (12, x, y), 4096, 0.0).unwrap();
        assert_eq!(stored.features, live.features);
        seen += stored.features.len();
    }
    assert!(seen > 0);
}

#[test]
fn damaged_directory_is_refused() {
    let src = test_fgb(100);
    let (out, _) = encode(&src, &EncodeOptions::default()).unwrap();
    let open = |bytes: &[u8]| {
        FgboReader::open(&mut whole(bytes), &mut IoStats::default()).unwrap_err()
    };
    let footer = Footer::decode(&out).unwrap();
    let mut bad = out.clone();
    bad[footer.dir_offset as usize] ^= 1;
    assert_eq!(open(&bad), Error::CrcMismatch);

    // a directory that reaches past the end of the file
    let moved = Footer {
        dir_offset: out.len() as u64,
        ..footer
    };
    let mut bad = out[..out.len() - FOOTER_SIZE].to_vec();
    bad.extend_from_slice(&moved.encode());
    assert_eq!(
        open(&bad).message(),
        "invalid FGBO format: directory out of range"
    );

    // no fgb at all
    assert_eq!(
        open(&[7; 100]).message(),
        "invalid FGBO format: no fgb magic at section offset 0"
    );
    assert_eq!(open(&[7; 4]).message(), "I/O error: failed to fill whole buffer");

    // the directory that was written is the one that is found
    let (from, to) = (footer.dir_offset as usize, (footer.dir_offset + footer.dir_size) as usize);
    let dir = Directory::decode(&out[from..to]).unwrap();
    assert_eq!(Reader::open(&out).fgbo.directory(), Some(&dir));
    assert_eq!(dir.build_info, "fgbo 0.1.0");
    assert_eq!(Directory::crc32(&out[from..to]), footer.dir_crc32);
}

#[test]
fn damaged_sidecar_is_refused() {
    let src = test_fgb(100);
    let (out, _) = encode(&src, &EncodeOptions::default()).unwrap();
    let table = src.len() + 4 + 8;

    // the second offset lies behind the third
    let mut bad = out.clone();
    bad[table + 8..table + 16].copy_from_slice(&u64::MAX.to_le_bytes());
    let mut reader = Reader::open(&bad);
    let e = reader
        .fgbo
        .importance_for(&mut reader.r, &mut reader.stats, 1)
        .unwrap_err();
    assert_eq!(
        e.message(),
        "invalid FGBO format: importance offset table out of order"
    );

    // arrays without entries leave out all vertices
    let mut bad = out.clone();
    bad[table..table + 228 * 8].fill(0);
    let (x, y) = tile_at(12, 128.9, 31.7);
    assert!(!Reader::open(&out).query_tile(12, x, y, 4096, 0.0).features.is_empty());
    let got = Reader::open(&bad).query_tile(12, x, y, 4096, 0.0);
    assert_eq!(got.source, TileSource::BodyImportance);
    assert!(got.features.is_empty());
}

#[test]
fn array_that_ends_before_a_ring_is_refused() {
    let mut w = new_writer("holes", GeometryType::Polygon);
    let outer = circle(135.0, 35.0, 0.2, 64).exterior().clone();
    let hole = circle(135.0, 35.0, 0.1, 64).exterior().clone();
    let geom = geo_types::Geometry::Polygon(geo_types::Polygon::new(outer, vec![hole]));
    w.add_feature_geom(geom, |_| {}).unwrap();
    let mut src = Vec::new();
    w.write(&mut src).unwrap();
    let (mut out, _) = encode(&src, &EncodeOptions::default()).unwrap();
    let (x, y) = tile_at(12, 135.0, 35.0);
    let table = src.len() + 4 + 8;
    let query = |bytes: &[u8]| {
        let mut reader = Reader::open(bytes);
        let route = reader.fgbo.route(12);
        reader.query(route, (12, x, y), 4096, 4.0)
    };
    assert_eq!(query(&out).unwrap().features.len(), 1);
    // ten entries
    out[table + 8..table + 16].copy_from_slice(&20u64.to_le_bytes());
    assert_eq!(
        query(&out).unwrap_err(),
        "invalid FGBO format: importance array too short"
    );
}

#[test]
fn inputs_that_are_no_fgb_are_refused() {
    let src = test_fgb(100);
    let refused = |bytes: &[u8], text: &str| {
        let e = encode(bytes, &EncodeOptions::default()).unwrap_err();
        assert!(matches!(e, Error::Fgb(_)));
        assert_eq!(e.message(), format!("FlatGeobuf error: {text}"));
        // as the reader for plain files says it
        let plain = FgbReader::open(Cursor::new(bytes)).err().unwrap();
        assert_eq!(plain.to_string(), text);
    };
    let no_magic = "Missing magic bytes. Is this an fgb file?";
    let cut = "failed to fill whole buffer";
    refused(&[7; 100], no_magic);
    refused(&[7; 9], no_magic);
    refused(&[7; 4], cut);
    refused(&[], cut);
    refused(&src[..8], cut);
    refused(&src[..11], cut);
    refused(&src[..40], cut);
    let mut newer = src.clone();
    newer[3] = 4;
    refused(&newer, no_magic);
    let sized = |n: u32| {
        let mut bad = src.clone();
        bad[8..12].copy_from_slice(&n.to_le_bytes());
        bad
    };
    refused(&sized(7), "Illegal header size: 7");
    refused(&sized(10 * 1024 * 1024 + 1), "Illegal header size: 10485761");
    refused(&sized(10 * 1024 * 1024), cut);
    let mut bad = src.clone();
    bad[12..16].copy_from_slice(&[0xFF; 4]);
    let plain = FgbReader::open(Cursor::new(&bad)).err().unwrap();
    refused(&bad, &plain.to_string());
    // an older version is read
    let mut older = src.clone();
    older[3] = 2;
    assert!(encode(&older, &EncodeOptions::default()).is_ok());
}

#[test]
fn header_errors() {
    let src = test_fgb(100);
    let open = |bytes: &[u8]| {
        FgbSection::open(&mut whole(bytes), &mut IoStats::default(), 0, bytes.len() as u64)
            .unwrap_err()
    };
    let mut bad = src.clone();
    bad[8..12].copy_from_slice(&(11u32 << 20).to_le_bytes());
    assert_eq!(
        open(&bad).message(),
        "invalid FGBO format: header too large: 11534336"
    );
    let mut bad = src.clone();
    bad[12..16].copy_from_slice(&[0xFF; 4]);
    assert!(open(&bad)
        .message()
        .starts_with("invalid FGBO format: invalid fgb header: "));
}

#[test]
fn inputs_without_index_or_count_are_refused() {
    let plain = |write_index: bool, features: usize| {
        let mut w = FgbWriter::create_with_options(
            "plain",
            GeometryType::Polygon,
            FgbWriterOptions {
                write_index,
                detect_type: false,
                promote_to_multi: false,
                ..Default::default()
            },
        )
        .unwrap();
        for _ in 0..features {
            w.add_feature_geom(geo_types::Geometry::Polygon(circle(1.0, 1.0, 0.5, 8)), |_| {})
                .unwrap();
        }
        let mut out = Vec::new();
        w.write(&mut out).unwrap();
        out
    };
    let text = |src: &[u8]| encode(src, &EncodeOptions::default()).unwrap_err().message();
    assert_eq!(
        text(&plain(false, 3)),
        "invalid input: input fgb has no spatial index (FGBO requires it); rebuild with `fgbo convert`"
    );
    assert_eq!(
        text(&plain(true, 0)),
        "invalid input: input fgb has no explicit features_count (FGBO requires it); rebuild with `fgbo convert`"
    );
}

#[test]
fn level_lists_are_checked() {
    let level = |min_zoom, max_zoom| LevelSpec { min_zoom, max_zoom };
    let text = |levels: Vec<LevelSpec>| validate_levels(&levels).unwrap_err().message();
    assert_eq!(validate_levels(&vec![]), Ok(()));
    assert_eq!(validate_levels(&EncodeOptions::default().levels), Ok(()));
    assert_eq!(
        text(vec![level(5, 4)]),
        "invalid input: invalid level: min_zoom 5 > max_zoom 4"
    );
    assert_eq!(
        text(vec![level(0, 4), level(4, 8)]),
        "invalid input: overview levels must be ascending and disjoint"
    );
}

#[test]
fn segments_stay_in_their_cells() {
    let wide = Geometry::Polygon(Polygon::new(
        (0..400)
            .map(|i| {
                let a = i as f64 / 400.0 * std::f64::consts::TAU;
                at(0.5 + 0.4 * a.cos(), 0.5 + 0.4 * a.sin())
            })
            .collect(),
        vec![],
    ));
    let fragments = segment_feature(&wide, 3, &cell, &edges, &along, &lerp);
    assert!(fragments.len() > 4);
    for f in &fragments {
        assert!(coord_count(f) <= 401);
    }
    // what is small stops the descent at once
    let small = Geometry::Point(at(0.3, 0.3));
    assert_eq!(
        segment_feature(&small, 12, &cell, &edges, &along, &lerp),
        vec![Geometry::Point(at(0.3, 0.3))]
    );
}

#[test]
fn fragments_are_cut_along_the_grid() {
    let n = 600;
    let wide = Geometry::LineString(
        (0..n)
            .map(|i| {
                let a = i as f64 / n as f64 * std::f64::consts::TAU;
                at(0.5 + 0.4 * a.cos(), 0.5 + 0.3 * a.sin())
            })
            .collect(),
    );
    let zbase = 4;
    let fragments = segment_feature(&wide, zbase, &cell, &edges, &along, &lerp);
    let mut cells: Vec<(u8, u64, u64)> = vec![];
    for f in &fragments {
        // the smallest grid cell around the fragment
        let mut coords = vec![];
        visit_coords(f, &mut coords);
        let around = (0..=zbase)
            .rev()
            .flat_map(|z| (0..1u64 << z).map(move |x| (z, x)))
            .flat_map(|(z, x)| (0..1u64 << z).map(move |y| (z, x, y)))
            .find(|&c| coords.iter().all(|p| cell(c).contains(p.x, p.y)))
            .unwrap();
        assert!(around.0 == zbase || coords.len() <= 64);
        assert!(!cells.contains(&around));
        cells.push(around);
    }
    // the pieces make up the whole line
    let length = |line: &Vec<Coord>| -> f64 {
        line.windows(2)
            .map(|w| (num(w[1].x) - num(w[0].x)).hypot(num(w[1].y) - num(w[0].y)))
            .sum()
    };
    let total: f64 = fragments
        .iter()
        .map(|f| match f {
            Geometry::LineString(l) => length(l),
            Geometry::MultiLineString(v) => v.iter().map(length).sum(),
            other => panic!("expected lines, got {other:?}"),
        })
        .sum();
    let Geometry::LineString(l) = &wide else {
        unreachable!()
    };
    assert!((total - length(l)).abs() < 1e-9);
}

#[test]
fn fine_grids_serve_what_is_spread_out() {
    let plane = Plane {
        project: to_mercator,
        unproject: to_lonlat,
        dist: seg_dist,
        quantize,
        narrow,
        cell,
        edges,
        along,
        lerp,
    };
    let spread = Geometry::LineString((0..200).map(|i| at(i as f64 / 2.0, 10.0)).collect());
    assert!(is_segmentable(&spread, 100, 14, &plane));
    assert!(is_segmentable(&spread, 100, 64, &plane));
    let fine = stage_feature(&spread, &vec![], 100, 200, &plane);
    let some = stage_feature(&spread, &vec![], 100, 14, &plane);
    assert_eq!(fine.fragments, some.fragments);
    assert!(fine.fragments.unwrap().len() > 1);
    // a hundred coordinates in one place are in one cell at every zoom
    let heap = Geometry::LineString((0..200).map(|_| at(10.0, 10.0)).collect());
    assert!(is_segmentable(&heap, 100, 63, &plane));
    assert!(is_segmentable(&heap, 200, 64, &plane));
    assert!(is_segmentable(&heap, 0, 64, &plane));
    assert!(!is_segmentable(&heap, 100, 64, &plane));
}

#[test]
fn routes_follow_the_directory() {
    let src = test_fgb(100);
    let opts = EncodeOptions {
        v_max: 80,
        zbase: 13,
        ..Default::default()
    };
    let (out, report) = encode(&src, &opts).unwrap();
    assert_eq!(report.segmented_features, 1);
    let reader = Reader::open(&out);
    let fgbo = &reader.fgbo;
    assert_eq!(fgbo.route(11).source, TileSource::Overview(2));
    let twelve = fgbo.route(12);
    assert_eq!(twelve.source, TileSource::BodyImportance);
    assert!(!twelve.use_segments);
    assert!(fgbo.excluded(twelve).is_empty());
    let thirteen = fgbo.route(13);
    assert!(thirteen.use_segments);
    assert_eq!(fgbo.excluded(thirteen).len(), 1);
    let base = fgbo.route_baseline();
    assert_eq!(base.source, TileSource::BodyLive);
    assert!(!base.use_segments);
    let layer = TileOptions {
        layer_name: Some("roads".into()),
        ..Default::default()
    };
    assert_eq!(tile_layer_name(fgbo, &layer), "roads");
    assert_eq!(tile_layer_name(fgbo, &TileOptions::default()), "testlayer");
}

#[test]
fn steps_follow_the_route() {
    let steps = |source, use_segments| {
        let route = TileRoute {
            source,
            use_segments,
        };
        let mut all = vec![];
        while let Some(step) = next_query(route, all.len()) {
            all.push(step);
        }
        assert_eq!(next_query(route, all.len() + 5), None);
        all
    };
    assert_eq!(
        steps(TileSource::Overview(2), false),
        vec![QueryStep::Overview(2)]
    );
    assert_eq!(
        steps(TileSource::BodyImportance, false),
        vec![QueryStep::Body]
    );
    assert_eq!(
        steps(TileSource::BodyImportance, true),
        vec![QueryStep::Body, QueryStep::Segments]
    );
    assert_eq!(steps(TileSource::BodyLive, false), vec![QueryStep::Body]);
}

#[test]
fn baseline_serves_the_plain_body() {
    let src = test_fgb(2000);
    let opts = EncodeOptions {
        v_max: 500,
        ..Default::default()
    };
    let (out, report) = encode(&src, &opts).unwrap();
    assert_eq!(report.segmented_features, 1);
    let mut plain = Reader::open(&src);
    let mut fgbo = Reader::open(&out);
    for (z, x, y) in [(2u8, 3u32, 1u32), (6, 55, 25), (13, 7060, 3260)] {
        let base = fgbo.fgbo.route_baseline();
        let got = fgbo.query(base, (z, x, y), 4096, 0.0).unwrap();
        let want = plain.query_tile(z, x, y, 4096, 0.0);
        assert_eq!(got, want, "tile {z}/{x}/{y}");
        assert_eq!(got.source, TileSource::BodyLive);
        assert_eq!(got.fragment_features, 0);
    }
}

#[test]
fn readers_of_one_file_render_the_same() {
    let src = test_fgb(2000);
    let (out, _) = encode(&src, &EncodeOptions::default()).unwrap();
    let mut used = Reader::open(&out);
    let tiles = [(13u8, 7060u32, 3260u32), (2, 3, 1), (6, 55, 25), (13, 7060, 3260)];
    for (z, x, y) in tiles {
        let mut fresh = Reader::open(&out);
        let a = used.render(z, x, y, &TileOptions::default());
        let b = fresh.render(z, x, y, &TileOptions::default());
        assert_eq!(a, b, "tile {z}/{x}/{y}");
    }
}

#[test]
fn large_index_is_searched_through_a_window() {
    // 91 * 91 points make an index of more than 256 KiB
    let mut w = new_writer("points", GeometryType::Point);
    for i in 0..91 {
        for j in 0..91 {
            let p = geo_types::Point::new(i as f64, j as f64 - 45.0);
            w.add_feature_geom(geo_types::Geometry::Point(p), |_| {}).unwrap();
        }
    }
    let mut bytes = Vec::new();
    w.write(&mut bytes).unwrap();
    let mut r = whole(&bytes);
    let mut stats = IoStats::default();
    let section = FgbSection::open(&mut r, &mut stats, 0, bytes.len() as u64).unwrap();
    assert!(matches!(
        section.search_plan(),
        Ok(SearchPlan::Windowed {
            group_bytes: 640,
            ..
        })
    ));
    let found = search(&section, &mut r, &mut stats, (9.5, 0.5, 12.5, 2.5)).unwrap();
    assert_eq!(found.len(), 6);
    let mut places: Vec<(f64, f64)> = features_of(
        &section,
        &mut r,
        &mut stats,
        (9.5, 0.5, 12.5, 2.5),
        &vec![],
    )
    .unwrap()
    .iter()
    .map(|(_, f)| match f.geometry {
        Geometry::Point(c) => (num(c.x), num(c.y)),
        _ => panic!("expected a point"),
    })
    .collect();
    places.sort_by(|a, b| a.partial_cmp(b).unwrap());
    let want = [
        (10.0, 1.0),
        (10.0, 2.0),
        (11.0, 1.0),
        (11.0, 2.0),
        (12.0, 1.0),
        (12.0, 2.0),
    ];
    assert_eq!(places, want);
}

#[test]
fn counts_are_those_of_the_sections() {
    let opts = EncodeOptions {
        v_max: 500,
        ..Default::default()
    };
    let (out, report) = encode(&test_fgb(2000), &opts).unwrap();
    let Reader {
        mut r,
        mut stats,
        mut fgbo,
    } = Reader::open(&out);
    let dir = fgbo.directory().unwrap().clone();
    for (i, entry) in dir.overviews.iter().enumerate() {
        fgbo.ensure_overview(&mut r, &mut stats, i).unwrap();
        let section = fgbo.overview_section(i).unwrap();
        assert_eq!(section.features_count, entry.feature_count);
        assert_eq!(report.overview_sizes[i].2, entry.feature_count);
    }
    fgbo.ensure_segments(&mut r, &mut stats).unwrap();
    let section = fgbo.segments_section().unwrap();
    assert_eq!(section.features_count, report.fragment_count);
    assert_eq!(dir.segments.unwrap().fragment_count, report.fragment_count);
    assert_eq!(dir.importance.unwrap().feature_count, 227);
}
