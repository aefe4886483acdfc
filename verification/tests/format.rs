//! The footer and the directory.

use fgbo::error::Error;
use fgbo::format::{
    Directory, Footer, ImportanceEntry, OverviewEntry, SegmentsEntry, DIRECTORY_VERSION,
    FOOTER_MAGIC, FOOTER_SIZE,
};

fn sample_dir() -> Directory {
    Directory {
        importance: Some(ImportanceEntry {
            offset: 1000,
            size: 200,
            feature_count: 10,
        }),
        overviews: vec![
            OverviewEntry {
                offset: 1200,
                size: 300,
                min_zoom: 0,
                max_zoom: 4,
                tolerance_q: 30000,
                feature_count: 5,
            },
            OverviewEntry {
                offset: 1500,
                size: 400,
                min_zoom: 5,
                max_zoom: 8,
                tolerance_q: 40000,
                feature_count: 9,
            },
        ],
        segments: Some(SegmentsEntry {
            offset: 1900,
            size: 500,
            zbase: 12,
            v_max: 16384,
            fragment_count: 42,
            segmented_ordinals: vec![3, 7],
        }),
        build_info: "fgbo 0.1.0".into(),
    }
}

#[test]
fn directory_roundtrip() {
    let dir = sample_dir();
    let enc = dir.encode();
    let dec = Directory::decode(&enc).unwrap();
    assert_eq!(dir, dec);
}

#[test]
fn footer_roundtrip() {
    let f = Footer {
        dir_offset: 123456,
        dir_size: 789,
        dir_crc32: 0xDEADBEEF,
    };
    let enc = f.encode();
    assert_eq!(enc.len(), FOOTER_SIZE);
    let dec = Footer::decode(&enc).unwrap();
    assert_eq!(f, dec);
}

#[test]
fn footer_rejects_plain_fgb() {
    let buf = [0u8; FOOTER_SIZE];
    assert!(matches!(Footer::decode(&buf), Err(Error::NotFgbo)));
}

#[test]
fn overview_selection() {
    let dir = sample_dir();
    assert_eq!(dir.overview_for_zoom(0).unwrap().min_zoom, 0);
    assert_eq!(dir.overview_for_zoom(4).unwrap().max_zoom, 4);
    assert_eq!(dir.overview_for_zoom(6).unwrap().min_zoom, 5);
    assert!(dir.overview_for_zoom(9).is_none());
}

#[test]
fn overview_positions() {
    let dir = sample_dir();
    assert_eq!(dir.overview_position(4), Some(0));
    assert_eq!(dir.overview_position(5), Some(1));
    assert_eq!(dir.overview_position(9), None);
}

#[test]
fn footer_layout() {
    let f = Footer {
        dir_offset: 0x0102030405060708,
        dir_size: 9,
        dir_crc32: 0xDEADBEEF,
    };
    let enc = f.encode();
    assert_eq!(&enc[..8], b"FGBOVRV1");
    assert_eq!(&enc[..8], &FOOTER_MAGIC);
    assert_eq!(&enc[8..16], &[8, 7, 6, 5, 4, 3, 2, 1]);
    assert_eq!(&enc[16..24], &[9, 0, 0, 0, 0, 0, 0, 0]);
    assert_eq!(&enc[24..28], &[0xEF, 0xBE, 0xAD, 0xDE]);
    assert_eq!(&enc[28..], &[0, 0, 0, 0]);
}

#[test]
fn footer_is_read_at_the_end() {
    let f = Footer {
        dir_offset: 5,
        dir_size: 6,
        dir_crc32: 7,
    };
    let mut buf = vec![1u8, 2, 3];
    buf.extend_from_slice(&f.encode());
    assert_eq!(Footer::decode(&buf).unwrap(), f);
    assert!(matches!(Footer::decode(&buf[..20]), Err(Error::NotFgbo)));
}

#[test]
fn directory_layout() {
    let dir = Directory {
        importance: None,
        overviews: vec![],
        segments: None,
        build_info: "ab".into(),
    };
    assert_eq!(
        dir.encode(),
        vec![DIRECTORY_VERSION, 0, 0, 0, 2, 0, b'a', b'b']
    );
}

#[test]
fn directory_rejects_bad_bytes() {
    let enc = sample_dir().encode();
    let text = |r: Result<Directory, Error>| r.unwrap_err().message();
    assert_eq!(
        text(Directory::decode(&enc[..enc.len() - 1])),
        "invalid FGBO format: directory truncated"
    );
    let mut other = enc.clone();
    other[0] = 2;
    assert_eq!(
        text(Directory::decode(&other)),
        "invalid FGBO format: unsupported directory version 2"
    );
    let mut broken = enc.clone();
    let last = broken.len() - 1;
    broken[last] = 0xFF;
    assert_eq!(
        text(Directory::decode(&broken)),
        "invalid FGBO format: invalid build_info utf8"
    );
}

#[test]
fn directories_differ_in_bytes() {
    let a = sample_dir();
    let mut b = sample_dir();
    b.overviews[1].tolerance_q += 1;
    assert_ne!(a.encode(), b.encode());
}

#[test]
fn checksum_of_known_bytes() {
    // the check value of CRC-32
    assert_eq!(Directory::crc32(b"123456789"), 0xCBF43926);
    assert_eq!(Directory::crc32(b""), 0);
}

#[test]
fn directory_needs_its_checksum() {
    let dir = sample_dir();
    let enc = dir.encode();
    let footer = Footer {
        dir_offset: 0,
        dir_size: enc.len() as u64,
        dir_crc32: 77,
    };
    assert_eq!(Directory::decode_checked(&enc, 77, footer), Ok(dir));
    assert_eq!(
        Directory::decode_checked(&enc, 78, footer),
        Err(Error::CrcMismatch)
    );
    assert_eq!(
        Directory::decode_checked(&[], 77, footer),
        Err(Error::format("directory truncated"))
    );
}

#[test]
fn every_cut_of_a_directory_is_refused() {
    let enc = sample_dir().encode();
    for k in 0..enc.len() {
        assert_eq!(
            Directory::decode(&enc[..k]).unwrap_err().message(),
            "invalid FGBO format: directory truncated",
            "{k} bytes"
        );
    }
}
