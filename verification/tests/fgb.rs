//! Sections of FlatGeobuf files, their records and properties.

use fgbo::decoder::query_section;
use fgbo::error::{Error, IoError};
use fgbo::fgb::{
    accept_record, column_names, decode_properties, feature_root, name_properties, parse_header, read_range,
    sort_items, Column, FeatureFields, FgbSection, Header, IoStats, PropValue, SearchPlan,
    SearchResultItem, WindowReader, COLUMN_BOOL, COLUMN_INT, COLUMN_STRING, COLUMN_USHORT,
};
use fgbo::geometry::{coords_eq, numbers_eq, numbers_le, numbers_lt, Coord};
use fgbo::le::{get_u16, get_u32, get_u64, put_u16, put_u32, put_u64};
use fgbo::sparse::{ChunkCache, MissingRange, SeekFrom, SparseReader};
use fgbo::text::{chars_of, find, parse_number, split, starts_with, trim, trim_suffix, NumberError};
use flatgeobuf::{ColumnType, FgbWriter, FgbWriterOptions, GeometryType};
use geozero::{ColumnValue, PropertyProcessor};

fn whole(bytes: &[u8]) -> SparseReader {
    let mut r = SparseReader::new(
        ChunkCache::new(),
        MissingRange::new(),
        bytes.len() as u64,
    );
    r.feed(0, bytes.to_vec());
    r
}

fn column(name: &str, column_type: u8) -> Column {
    Column {
        name: name.to_string(),
        column_type,
    }
}

fn header(columns: Option<Vec<Column>>) -> Header {
    Header {
        name: None,
        geometry_type: 0,
        has_z: false,
        features_count: 0,
        index_node_size: 0,
        columns,
        crs: None,
    }
}

fn item(offset: usize, index: usize) -> SearchResultItem {
    SearchResultItem { offset, index }
}

/// A layer with one feature that has a value of every type.
fn every_type() -> Vec<u8> {
    let mut w = FgbWriter::create_with_options(
        "types",
        GeometryType::Point,
        FgbWriterOptions {
            write_index: true,
            detect_type: false,
            promote_to_multi: false,
            ..Default::default()
        },
    )
    .unwrap();
    let types = [
        ("byte", ColumnType::Byte),
        ("ubyte", ColumnType::UByte),
        ("bool", ColumnType::Bool),
        ("short", ColumnType::Short),
        ("ushort", ColumnType::UShort),
        ("int", ColumnType::Int),
        ("uint", ColumnType::UInt),
        ("long", ColumnType::Long),
        ("ulong", ColumnType::ULong),
        ("float", ColumnType::Float),
        ("double", ColumnType::Double),
        ("string", ColumnType::String),
        ("json", ColumnType::Json),
        ("datetime", ColumnType::DateTime),
        ("binary", ColumnType::Binary),
    ];
    for (name, ty) in types {
        w.add_column(name, ty, |_, _| {});
    }
    let p = geo_types::Geometry::Point(geo_types::Point::new(1.0, 2.0));
    w.add_feature_geom(p, |feat| {
        let values = [
            ColumnValue::Byte(-1),
            ColumnValue::UByte(200),
            ColumnValue::Bool(true),
            ColumnValue::Short(-30000),
            ColumnValue::UShort(60000),
            ColumnValue::Int(-2_000_000_000),
            ColumnValue::UInt(4_000_000_000),
            ColumnValue::Long(i64::MIN),
            ColumnValue::ULong(u64::MAX),
            ColumnValue::Float(1.5),
            ColumnValue::Double(-0.25),
            ColumnValue::String("stra\u{df}e"),
            ColumnValue::Json("{}"),
            ColumnValue::DateTime("2026-06-06T00:00:00Z"),
            ColumnValue::Binary(&[1, 2, 255]),
        ];
        for (i, v) in values.iter().enumerate() {
            feat.property(i, types[i].0, v).unwrap();
        }
    })
    .unwrap();
    let mut out = Vec::new();
    w.write(&mut out).unwrap();
    out
}

#[test]
fn every_property_type_is_decoded() {
    let bytes = every_type();
    let mut r = whole(&bytes);
    let mut stats = IoStats::default();
    let section = FgbSection::open(&mut r, &mut stats, 0, bytes.len() as u64).unwrap();
    let hits = query_section(&section, &mut r, &mut stats, &vec![item(0, 0)], &vec![]).unwrap();
    let got: Vec<PropValue> = hits[0].properties.iter().map(|(_, v)| v.clone()).collect();
    assert_eq!(
        got,
        vec![
            PropValue::Byte(-1),
            PropValue::UByte(200),
            PropValue::Bool(true),
            PropValue::Short(-30000),
            PropValue::UShort(60000),
            PropValue::Int(-2_000_000_000),
            PropValue::UInt(4_000_000_000),
            PropValue::Long(i64::MIN),
            PropValue::ULong(u64::MAX),
            PropValue::Float(1.5f32.to_bits()),
            PropValue::Double((-0.25f64).to_bits()),
            PropValue::String("stra\u{df}e".into()),
            PropValue::Json("{}".into()),
            PropValue::DateTime("2026-06-06T00:00:00Z".into()),
            PropValue::Binary(vec![1, 2, 255]),
        ]
    );
    assert_eq!(hits[0].properties[11].0, "string");
    assert_eq!(column_names(section.header()).len(), 15);
}

#[test]
fn property_rows() {
    let h = header(Some(vec![
        column("a", COLUMN_INT),
        column("b", COLUMN_STRING),
        column("c", COLUMN_BOOL),
    ]));
    let row = |bytes: &[u8]| {
        decode_properties(
            &h,
            &FeatureFields {
                properties: Some(bytes.to_vec()),
            },
        )
    };
    assert_eq!(row(&[]), Ok(vec![]));
    let bytes = [2, 0, 1, 0, 0, 7, 0, 0, 0, 1, 0, 2, 0, 0, 0, b'h', b'i'];
    let got = row(&bytes).unwrap();
    assert_eq!(
        got,
        vec![
            (2, PropValue::Bool(true)),
            (0, PropValue::Int(7)),
            (1, PropValue::String("hi".into())),
        ]
    );
    let named = name_properties(&column_names(&h), got);
    assert_eq!(named[0], ("c".to_string(), PropValue::Bool(true)));
    assert_eq!(
        name_properties(&vec![], vec![(4, PropValue::UByte(1))]),
        vec![(String::new(), PropValue::UByte(1))]
    );

    // no columns, or no properties: an empty row
    let none = FeatureFields { properties: None };
    assert_eq!(decode_properties(&h, &none), Ok(vec![]));
    let some = FeatureFields {
        properties: Some(vec![9, 9]),
    };
    assert_eq!(decode_properties(&header(None), &some), Ok(vec![]));

    // a value that is cut off, a column that is not there
    let text = |r: Result<fgbo::fgb::PropRow, Error>| r.unwrap_err().message();
    let cut = text(row(&[0, 0, 1, 2]));
    let unknown = text(row(&[9, 0, 1]));
    let utf8 = text(row(&[1, 0, 1, 0, 0, 0, 0xFF]));
    assert_eq!(cut, "invalid FGBO format: malformed properties buffer");
    assert_eq!(unknown, "invalid FGBO format: malformed properties buffer");
    assert_eq!(utf8, "invalid FGBO format: invalid utf8 in property");
}

#[test]
fn unknown_column_type_is_refused() {
    let h = header(Some(vec![column("x", 99)]));
    let fields = FeatureFields {
        properties: Some(vec![0, 0, 1]),
    };
    assert_eq!(
        decode_properties(&h, &fields).unwrap_err().message(),
        format!(
            "invalid FGBO format: unsupported column type {:?}",
            ColumnType(99)
        )
    );
}

#[test]
fn index_of_one_entry_nodes_is_refused() {
    let mut w = FgbWriter::create_with_options(
        "plain",
        GeometryType::Point,
        FgbWriterOptions {
            write_index: false,
            detect_type: false,
            promote_to_multi: false,
            ..Default::default()
        },
    )
    .unwrap();
    let p = geo_types::Geometry::Point(geo_types::Point::new(1.0, 2.0));
    w.add_feature_geom(p, |_| {}).unwrap();
    let mut bytes = Vec::new();
    w.write(&mut bytes).unwrap();
    let open = |bytes: &[u8]| {
        FgbSection::open(
            &mut whole(bytes),
            &mut IoStats::default(),
            0,
            bytes.len() as u64,
        )
    };
    let plain = open(&bytes).unwrap();
    assert!(!plain.has_index());
    assert_eq!(
        plain.search_plan().unwrap_err().message(),
        "invalid FGBO format: section has no spatial index"
    );
    // write a node size of one where the header has its zero
    let end = plain.index_offset as usize;
    let patched = (12..end).find_map(|i| {
        let mut b = bytes.clone();
        b[i] = 1;
        match parse_header(&b[8..end]) {
            Ok(h) if h.index_node_size == 1 && h.features_count == 1 => Some(b),
            _ => None,
        }
    });
    assert_eq!(open(&patched.unwrap()), Err(Error::IndexSize));
}

#[test]
fn short_columns() {
    let h = header(Some(vec![column("n", COLUMN_USHORT)]));
    let fields = FeatureFields {
        properties: Some(vec![0, 0, 0x34, 0x12]),
    };
    assert_eq!(
        decode_properties(&h, &fields),
        Ok(vec![(0, PropValue::UShort(0x1234))])
    );
}

#[test]
fn records_and_headers_that_are_none() {
    assert!(parse_header(&[1, 2, 3]).is_err());
    let e = feature_root(&[4, 0, 0, 0, 255, 255, 255, 255]).unwrap_err();
    assert!(e.message().starts_with("invalid FGBO format: invalid feature: "));
}

#[test]
fn hits_are_sorted_by_offset() {
    let items = vec![item(30, 2), item(10, 0), item(20, 1), item(10, 9)];
    assert_eq!(
        sort_items(&items),
        vec![item(10, 0), item(10, 9), item(20, 1), item(30, 2)]
    );
}

#[test]
fn section_opens_where_it_stands() {
    let part = every_type();
    let mut file = vec![7u8; 100];
    file.extend_from_slice(&part);
    file.extend_from_slice(&[9; 50]);
    let size = part.len() as u64;
    let mut stats = IoStats::default();
    let own = FgbSection::open(&mut whole(&part), &mut stats, 0, size).unwrap();
    let moved = FgbSection::open(&mut whole(&file), &mut stats, 100, size).unwrap();
    assert_eq!(moved.header, own.header);
    assert_eq!(moved.offset, 100);
    assert_eq!(moved.index_offset, own.index_offset + 100);
    assert_eq!(moved.index_size, own.index_size);
    assert_eq!(moved.data_offset, own.data_offset + 100);
    assert_eq!(
        moved.read_feature(&mut whole(&file), &mut stats, 0),
        own.read_feature(&mut whole(&part), &mut stats, 0)
    );
    assert!(own.has_index());
    assert_eq!(
        own.search_plan(),
        Ok(SearchPlan::Whole {
            offset: own.index_offset,
            size: own.index_size
        })
    );
}

#[test]
fn sentinel_is_no_record() {
    let body = every_type();
    let mut file = body.clone();
    file.extend_from_slice(&fgbo::format::SENTINEL);
    file.extend_from_slice(&[1, 2, 3, 4, 5]);
    let mut r = whole(&file);
    let mut stats = IoStats::default();
    let section = FgbSection::open(&mut r, &mut stats, 0, file.len() as u64).unwrap();
    let behind = body.len() as u64 - section.data_offset;
    assert_eq!(
        section
            .read_feature(&mut r, &mut stats, behind)
            .unwrap_err()
            .message(),
        "invalid FGBO format: feature too large: 4294967295"
    );
}

#[test]
fn record_errors() {
    let bytes = every_type();
    let mut r = whole(&bytes);
    let mut stats = IoStats::default();
    let section = FgbSection::open(&mut r, &mut stats, 0, bytes.len() as u64).unwrap();
    let read = |items: Vec<SearchResultItem>, bytes: &[u8]| {
        section
            .read_features(&mut whole(bytes), &mut IoStats::default(), &items)
            .map_err(|e| e.message())
    };
    assert_eq!(read(vec![], &bytes), Ok(vec![]));
    let record = read(vec![item(0, 5)], &bytes).unwrap();
    assert_eq!(record[0].0, 5);
    assert_eq!(record[0].1, bytes[section.data_offset as usize..]);
    // a length that no record has
    let mut bad = bytes.clone();
    let at = section.data_offset as usize;
    bad[at..at + 4].copy_from_slice(&[0, 0, 0, 0x40]);
    assert_eq!(
        read(vec![item(0, 0)], &bad),
        Err("invalid FGBO format: feature too large: 1073741824".to_string())
    );
    // a first record that is longer than what was read for the last one
    assert_eq!(
        read(vec![item(0, 0), item(2, 1)], &{
            let mut bad = bytes.clone();
            bad[at..at + 6].copy_from_slice(&[255, 255, 0, 0, 0, 0]);
            bad
        }),
        Err("invalid FGBO format: feature record out of bounds".to_string())
    );
}

#[test]
fn requests_and_bytes_are_counted() {
    let mut r = whole(&[1, 2, 3, 4, 5]);
    let mut stats = IoStats::default();
    assert_eq!(read_range(&mut r, &mut stats, 1, 3), Ok(vec![2, 3, 4]));
    assert_eq!(
        read_range(&mut r, &mut stats, 3, 3),
        Err(Error::Io(IoError::UnexpectedEof))
    );
    assert_eq!((stats.requests(), stats.bytes()), (1, 3));
    stats.record(10);
    assert_eq!((stats.requests(), stats.bytes()), (2, 13));
    stats.reset();
    assert_eq!((stats.requests(), stats.bytes()), (0, 0));
}

#[test]
fn window_shows_its_part_only() {
    let mut r = whole(&[0, 1, 2, 3, 4, 5, 6, 7]);
    let mut stats = IoStats::default();
    let mut w = WindowReader::new(2, 4);
    assert_eq!(w.read(&mut r, &mut stats, 3), Ok(vec![2, 3, 4]));
    assert_eq!(w.read(&mut r, &mut stats, 3), Ok(vec![5]));
    assert_eq!(w.read(&mut r, &mut stats, 3), Ok(vec![]));
    assert_eq!(w.seek(SeekFrom::End(-1)), Ok(3));
    assert_eq!(w.read(&mut r, &mut stats, 3), Ok(vec![5]));
    assert_eq!(
        w.seek(SeekFrom::Current(-9)),
        Err(Error::Io(IoError::InvalidSeek))
    );
    assert_eq!((stats.requests(), stats.bytes()), (3, 5));
}

#[test]
fn numbers_compare_as_doubles_do() {
    let samples = [
        0.0,
        -0.0,
        1.0,
        -1.0,
        0.5,
        1e300,
        -1e300,
        f64::MIN_POSITIVE,
        5e-324,
        f64::INFINITY,
        f64::NEG_INFINITY,
        f64::NAN,
        -f64::NAN,
    ];
    for a in samples {
        for b in samples {
            let (x, y) = (a.to_bits(), b.to_bits());
            assert_eq!(numbers_eq(x, y), a == b, "{a} {b}");
            assert_eq!(numbers_lt(x, y), a < b, "{a} {b}");
            assert_eq!(numbers_le(x, y), a <= b, "{a} {b}");
        }
    }
    let c = |x: f64, y: f64| Coord {
        x: x.to_bits(),
        y: y.to_bits(),
    };
    assert!(coords_eq(c(0.0, 1.0), c(-0.0, 1.0)));
    assert!(!coords_eq(c(f64::NAN, 1.0), c(f64::NAN, 1.0)));
}

#[test]
fn little_endian_numbers() {
    let mut buf = Vec::new();
    put_u16(&mut buf, 0x0102);
    put_u32(&mut buf, 0x03040506);
    put_u64(&mut buf, 0x0708090A0B0C0D0E);
    assert_eq!(&buf[..6], &[2, 1, 6, 5, 4, 3]);
    assert_eq!(get_u16(&buf, 0), 0x0102);
    assert_eq!(get_u32(&buf, 2), 0x03040506);
    assert_eq!(get_u64(&buf, 6), 0x0708090A0B0C0D0E);
}

#[test]
fn text_helpers() {
    let v = |s: &str| chars_of(s);
    assert_eq!(parse_number(&v("18446744073709551615"), u64::MAX), Ok(u64::MAX));
    assert_eq!(
        parse_number(&v("18446744073709551616"), u64::MAX),
        Err(NumberError::TooLarge)
    );
    assert_eq!(parse_number(&v("+7"), 255), Ok(7));
    assert_eq!(parse_number(&v("-7"), 255), Err(NumberError::InvalidDigit));
    assert_eq!(parse_number(&v("+"), 255), Err(NumberError::InvalidDigit));
    assert_eq!(parse_number(&v(""), 255), Err(NumberError::Empty));
    assert_eq!(trim(&v("\u{a0} x y\t\n")), v("x y"));
    assert_eq!(split(&v("a,,b"), ','), vec![v("a"), v(""), v("b")]);
    assert_eq!(find(&v("1-2-3"), '-'), Some(1));
    assert_eq!(find(&v("123"), '-'), None);
    assert!(starts_with(&v("http://x"), &v("http://")));
    assert_eq!(trim_suffix(&v("x.mvt.mvt"), &v(".mvt")), v("x"));
}

#[test]
fn sections_from_parsed_headers() {
    let mut h = header(None);
    h.features_count = 100;
    h.index_node_size = 16;
    let section = FgbSection::from_parsed(1000, 0, 88, Ok(h.clone())).unwrap();
    // 100 leaves, 7 nodes above them and the root
    assert_eq!(section.index_offset, 1100);
    assert_eq!(section.index_size, 108 * 40);
    assert_eq!(section.data_offset, 1100 + 108 * 40);
    h.index_node_size = 1;
    assert_eq!(
        FgbSection::from_parsed(1000, 0, 88, Ok(h.clone())),
        Err(Error::IndexSize)
    );
    h.index_node_size = 2;
    h.features_count = u64::MAX;
    assert_eq!(
        FgbSection::from_parsed(1000, 0, 88, Ok(h)),
        Err(Error::IndexSize)
    );
    assert_eq!(
        FgbSection::from_parsed(0, 0, 1, Err("no".to_string())),
        Err(Error::format("invalid fgb header: no"))
    );
}

#[test]
fn records_that_were_parsed() {
    let fields = FeatureFields { properties: None };
    assert_eq!(accept_record(vec![1, 2], Ok(fields)), Ok(vec![1, 2]));
    assert_eq!(
        accept_record(vec![1, 2], Err("no".to_string())),
        Err(Error::format("invalid feature record: no"))
    );
}
