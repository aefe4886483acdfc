//! What the command line and the tile server decide from text.

use fgbo::bench::{
    median, most_common, source_label, BenchOptions, Sampler, MAX_ATTEMPTS, MAX_CANDIDATES,
};
use fgbo::cli::{
    human, input_format, is_url, parse_levels, parse_tile_row, InputFormat, LevelsError,
    TileAddressError,
};
use fgbo::decoder::TileSource;
use fgbo::encoder::LevelSpec;
use fgbo::synth::{has_notch, is_metro, BuildingKind, Rng};
use fgbo::text::NumberError;

fn level(min_zoom: u8, max_zoom: u8) -> LevelSpec {
    LevelSpec { min_zoom, max_zoom }
}

#[test]
fn levels_are_read() {
    assert_eq!(
        parse_levels("0-4,5-8,9-11"),
        Ok(vec![level(0, 4), level(5, 8), level(9, 11)])
    );
    assert_eq!(parse_levels(" 0-4 , +5-8"), Ok(vec![level(0, 4), level(5, 8)]));
}

#[test]
fn levels_refused() {
    let e = parse_levels("0-4,7").unwrap_err();
    assert_eq!(e, LevelsError::NoRange("7".to_string()));
    assert_eq!(e.message(), "invalid level spec: 7");
    let e = parse_levels("").unwrap_err();
    assert_eq!(e.message(), "invalid level spec: ");
    let text = |s: &str| {
        let e = parse_levels(s).unwrap_err();
        let own = s.split('-').next().unwrap().parse::<u8>();
        let own = own.err().or(s.rsplit('-').next().unwrap().parse::<u8>().err());
        (e.message(), own.unwrap().to_string())
    };
    for s in ["x-4", "-4", "1-", "1-300", "256-3"] {
        let (got, want) = text(s);
        assert_eq!(got, want, "{s}");
    }
    assert_eq!(parse_levels("1-"), Err(LevelsError::Zoom(NumberError::Empty)));
}

#[test]
fn sizes_are_shown() {
    assert_eq!(human(0), "0 B");
    assert_eq!(human(1023), "1023 B");
    assert_eq!(human(1024), "1.0 KiB");
    assert_eq!(human(1536), "1.5 KiB");
    assert_eq!(human(1024 * 1024 - 1), "1024.0 KiB");
    assert_eq!(human(10 * 1024 * 1024), "10.0 MiB");
}

#[test]
fn sizes_are_shown_as_floats_are() {
    let mut rng = Rng::new(7);
    for shift in 0..54 {
        for _ in 0..50 {
            let n = rng.next_u64() >> shift;
            let want = if n >= 1 << 20 {
                format!("{:.1} MiB", n as f64 / (1 << 20) as f64)
            } else if n >= 1024 {
                format!("{:.1} KiB", n as f64 / 1024.0)
            } else {
                format!("{n} B")
            };
            assert_eq!(human(n), want, "{n}");
        }
    }
    for n in [1024 + 256, 1024 + 128, 1 << 60, u64::MAX, 1075, 1076] {
        let want = if n >= 1 << 20 {
            format!("{:.1} MiB", n as f64 / (1 << 20) as f64)
        } else {
            format!("{:.1} KiB", n as f64 / 1024.0)
        };
        assert_eq!(human(n), want, "{n}");
    }
}

#[test]
fn urls_and_extensions() {
    assert!(is_url("http://example.org/a.fgb"));
    assert!(is_url("https://example.org/a.fgb"));
    assert!(!is_url("ftp://example.org/a.fgb"));
    assert!(!is_url("data/http://"));
    assert_eq!(input_format("geojson"), Some(InputFormat::GeoJson));
    assert_eq!(input_format("JSON"), Some(InputFormat::GeoJson));
    assert_eq!(input_format("Fgb"), Some(InputFormat::FlatGeobuf));
    assert_eq!(input_format("shp"), None);
    assert_eq!(input_format(""), None);
}

#[test]
fn tile_addresses() {
    assert_eq!(parse_tile_row(2, 3, "1"), Ok(1));
    assert_eq!(parse_tile_row(2, 3, "1.mvt"), Ok(1));
    assert_eq!(parse_tile_row(2, 3, "1.pbf"), Ok(1));
    assert_eq!(parse_tile_row(2, 3, "1.mvt.mvt"), Ok(1));
    assert_eq!(parse_tile_row(24, (1 << 24) - 1, "16777215"), Ok(16777215));
    assert_eq!(parse_tile_row(2, 3, "x.mvt"), Err(TileAddressError::InvalidY));
    assert_eq!(parse_tile_row(2, 4, "1"), Err(TileAddressError::OutOfRange));
    assert_eq!(parse_tile_row(2, 3, "4"), Err(TileAddressError::OutOfRange));
    assert_eq!(parse_tile_row(25, 0, "0"), Err(TileAddressError::OutOfRange));
    assert_eq!(TileAddressError::InvalidY.message(), "invalid y");
    assert_eq!(TileAddressError::OutOfRange.message(), "tile out of range");
}

#[test]
fn sampler_gathers_and_picks() {
    let mut s = Sampler::new();
    assert!(s.wants_more());
    assert!(s.attempt(1, 2));
    s.add(1, 2, 3);
    assert!(!s.attempt(1, 2));
    assert!(s.attempt(2, 1));
    s.add(2, 1, 0);
    assert!(s.attempt(5, 5));
    s.add(5, 5, 4);
    assert_eq!(s.attempts, 4);
    assert_eq!(s.total(), 7);
    assert_eq!(s.clone().take(2), (1, 2));
    assert_eq!(s.take(3), (5, 5));
    assert_eq!(s.total(), 3);
    assert_eq!(s.take(100), (1, 2));
    assert_eq!(s.total(), 0);
    let mut s = Sampler::new();
    for i in 0..MAX_CANDIDATES as u32 {
        assert!(s.wants_more());
        s.attempt(i, 0);
        s.add(i, 0, 1);
    }
    assert!(!s.wants_more());
    let mut s = Sampler::new();
    for _ in 0..MAX_ATTEMPTS {
        assert!(s.wants_more());
        s.attempt(0, 0);
    }
    assert!(!s.wants_more());
}

#[test]
fn medians() {
    assert_eq!(median(&vec![5]), 5);
    assert_eq!(median(&vec![9, 1, 5]), 5);
    assert_eq!(median(&vec![4, 1, 3, 2]), 3);
    assert_eq!(median(&vec![7, 7, 1, 1]), 7);
}

#[test]
fn commonest_path() {
    let o = TileSource::Overview;
    assert_eq!(most_common(&vec![]), None);
    assert_eq!(
        most_common(&vec![o(1), TileSource::BodyLive, o(1)]),
        Some(o(1))
    );
    // of equally common ones the last by name
    assert_eq!(
        most_common(&vec![o(1), TileSource::BodyLive]),
        Some(o(1))
    );
    assert_eq!(
        most_common(&vec![TileSource::BodyLive, TileSource::BodyImportance]),
        Some(TileSource::BodyLive)
    );
    assert_eq!(source_label(o(12)), "Overview(12)");
    assert_eq!(source_label(TileSource::BodyImportance), "BodyImportance");
    assert_eq!(source_label(TileSource::BodyLive), "BodyLive");
    assert_eq!(source_label(o(3)), format!("{:?}", o(3)));
}

#[test]
fn bench_defaults() {
    let o = BenchOptions::default();
    assert_eq!(o.zooms, vec![8, 10, 12, 14]);
    assert_eq!((o.tiles_per_zoom, o.seed), (8, 1));
}

#[test]
fn generator_is_xorshift() {
    let mut rng = Rng::new(1);
    let mut x = 1u64;
    for _ in 0..1000 {
        x ^= x >> 12;
        x ^= x << 25;
        x ^= x >> 27;
        assert_eq!(rng.next_u64(), x.wrapping_mul(0x2545F4914F6CDD1D));
    }
    assert_eq!(Rng::new(0), Rng::new(1));
    let f = Rng::new(42).next_fraction();
    assert_eq!(f, Rng::new(42).next_u64() >> 11);
}

#[test]
fn generator_never_gives_zero() {
    for seed in [0, 1, 2, 42, u64::MAX, 1 << 63] {
        let mut rng = Rng::new(seed);
        assert!((0..10_000).all(|_| rng.next_u64() != 0));
    }
}

#[test]
fn building_rules() {
    let unit = |f: u64| f as f64 / (1u64 << 53) as f64;
    let mut rng = Rng::new(3);
    for _ in 0..10_000 {
        let f = rng.next_fraction();
        let want = if unit(f) < 0.90 {
            "house"
        } else if unit(f) < 0.99 {
            "mid"
        } else {
            "large"
        };
        assert_eq!(BuildingKind::pick(f).name(), want);
        assert_eq!(has_notch(f), unit(f) < 0.3);
    }
    // the borders
    for (limit, bound) in [
        (fgbo::synth::MID_FROM, 0.90),
        (fgbo::synth::LARGE_FROM, 0.99),
        (fgbo::synth::PLAIN_FROM, 0.3),
    ] {
        assert!(unit(limit - 1) < bound);
        assert!(!(unit(limit) < bound));
    }
    assert!(is_metro(5, 40));
    assert!(!is_metro(6, 40));
    assert!(is_metro(0, 1));
}
