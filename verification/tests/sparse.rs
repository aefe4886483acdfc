//! Reading through a cache of fetched ranges.

use fgbo::error::{Error, IoError};
use fgbo::sparse::{next_step, ChunkCache, MissingRange, SeekFrom, SparseReader, Step};

#[test]
fn miss_then_hit() {
    let cache = ChunkCache::new();
    let missing = MissingRange::new();
    let mut r = SparseReader::new(cache, missing, 100);

    r.seek(SeekFrom::Start(10)).unwrap();
    assert!(r.read_exact(8).is_err());
    assert_eq!(r.missing.take(), Some((10, 8)));

    r.feed(8, (0..32).collect());
    r.seek(SeekFrom::Start(10)).unwrap();
    let buf = r.read_exact(8).unwrap();
    assert_eq!(buf, [2, 3, 4, 5, 6, 7, 8, 9]);
    assert!(r.missing.take().is_none());
}

#[test]
fn read_spans_chunks() {
    let mut cache = ChunkCache::new();
    let missing = MissingRange::new();
    cache.insert(0, vec![1; 4]);
    cache.insert(4, vec![2; 4]);
    let mut r = SparseReader::new(cache, missing, 8);
    let buf = r.read_exact(8).unwrap();
    assert_eq!(buf, [1, 1, 1, 1, 2, 2, 2, 2]);
}

#[test]
fn eof_is_clean() {
    let mut cache = ChunkCache::new();
    cache.insert(0, vec![9; 10]);
    let mut r = SparseReader::new(cache, MissingRange::new(), 10);
    let mut all = Vec::new();
    loop {
        let piece = r.read(32).unwrap();
        if piece.is_empty() {
            break;
        }
        all.extend_from_slice(&piece);
    }
    assert_eq!(all.len(), 10);
}

#[test]
fn contained_chunk_is_dropped() {
    let mut cache = ChunkCache::new();
    cache.insert(0, vec![1; 10]);
    cache.insert(2, vec![2; 4]);
    assert_eq!(cache.cached_bytes(), 10);
    // a longer chunk at the same place takes over
    cache.insert(0, vec![3; 12]);
    assert_eq!(cache.cached_bytes(), 12);
    cache.insert(6, vec![]);
    assert_eq!(cache.cached_bytes(), 12);
    // an overlap is kept
    cache.insert(8, vec![4; 12]);
    assert_eq!(cache.cached_bytes(), 24);
    let mut r = SparseReader::new(cache, MissingRange::new(), 20);
    let all = r.read_range(0, 20).unwrap();
    assert_eq!(&all[..8], &[3; 8]);
    assert_eq!(&all[12..], &[4; 8]);
}

#[test]
fn missing_range_starts_where_the_cache_ends() {
    let mut cache = ChunkCache::new();
    cache.insert(0, vec![1; 4]);
    let mut r = SparseReader::new(cache, MissingRange::new(), 100);
    assert_eq!(r.read_range(0, 10), Err(Error::Io(IoError::WouldBlock)));
    assert_eq!(r.missing.peek(), Some((4, 6)));
    assert_eq!(
        next_step(false, r.missing.take()),
        Step::Fetch { offset: 4, len: 6 }
    );
    // the end of the file is no missing range
    r.feed(90, vec![2; 10]);
    assert_eq!(r.read_range(95, 10), Err(Error::Io(IoError::UnexpectedEof)));
    assert_eq!(next_step(false, r.missing.take()), Step::Failed);
    assert_eq!(next_step(true, None), Step::Finished);
}

#[test]
fn retries_end_with_the_bytes_of_the_file() {
    let file: Vec<u8> = (0..200u8).collect();
    let mut r = SparseReader::new(ChunkCache::new(), MissingRange::new(), 200);
    let mut fetches = 0;
    let got = loop {
        match r.read_range(20, 150) {
            Ok(b) => break b,
            Err(_) => match next_step(false, r.missing.take()) {
                Step::Fetch { offset, .. } => {
                    // a server that gives at most seven bytes
                    let end = (offset as usize + 7).min(200);
                    r.feed(offset, file[offset as usize..end].to_vec());
                    fetches += 1;
                }
                other => panic!("unexpected {other:?}"),
            },
        }
    };
    assert_eq!(got, &file[20..170]);
    assert_eq!(fetches, 22);
}

#[test]
fn seeks() {
    let mut r = SparseReader::new(ChunkCache::new(), MissingRange::new(), 100);
    assert_eq!(r.seek(SeekFrom::End(-30)), Ok(70));
    assert_eq!(r.seek(SeekFrom::Current(5)), Ok(75));
    assert_eq!(
        r.seek(SeekFrom::Current(-76)),
        Err(Error::Io(IoError::InvalidSeek))
    );
    assert_eq!(r.pos, 75);
    assert_eq!(r.seek(SeekFrom::Start(300)), Ok(300));
    assert_eq!(r.read(8), Ok(vec![]));
    assert_eq!(r.file_len(), 100);
}

#[test]
fn missing_range_is_consumed() {
    let mut m = MissingRange::new();
    assert_eq!(m.peek(), None);
    m.set(3, 4);
    assert_eq!(m.peek(), Some((3, 4)));
    assert_eq!(m.take(), Some((3, 4)));
    assert_eq!(m.take(), None);
}

#[test]
fn chunk_in_any_older_one_is_dropped() {
    let mut cache = ChunkCache::new();
    cache.insert(10, vec![1; 5]);
    cache.insert(0, vec![2; 100]);
    assert_eq!(cache.cached_bytes(), 105);
    // the nearest chunk before it ends too early; the one before that holds it
    cache.insert(20, vec![3; 5]);
    assert_eq!(cache.cached_bytes(), 105);
    let mut r = SparseReader::new(cache, MissingRange::new(), 100);
    assert_eq!(r.read_range(20, 5), Ok(vec![2; 5]));
}

#[test]
fn chunk_behind_a_shorter_one_is_read() {
    let mut cache = ChunkCache::new();
    cache.insert(4, vec![7, 7]);
    cache.insert(0, vec![0, 1, 2, 3, 7, 7, 6, 5, 4, 3]);
    let mut r = SparseReader::new(cache, MissingRange::new(), 10);
    r.seek(SeekFrom::Start(8)).unwrap();
    assert_eq!(r.read(1), Ok(vec![4]));
    assert_eq!(r.read_range(0, 10), Ok(vec![0, 1, 2, 3, 7, 7, 6, 5, 4, 3]));
}

#[test]
fn fetching_more_than_was_asked_for_goes_on() {
    let file: Vec<u8> = (0..16).collect();
    let mut r = SparseReader::new(ChunkCache::new(), MissingRange::new(), 16);
    r.feed(10, file[10..12].to_vec());
    assert_eq!(r.read_range(0, 16), Err(Error::Io(IoError::WouldBlock)));
    assert_eq!(r.missing.take(), Some((0, 16)));
    r.feed(0, file.clone());
    assert_eq!(r.read_range(12, 1), Ok(vec![12]));
    assert_eq!(r.read_range(0, 16), Ok(file));
    assert_eq!(r.missing.take(), None);
}

#[test]
fn feeding_keeps_what_could_be_read() {
    let file: Vec<u8> = (0..40).collect();
    let mut r = SparseReader::new(ChunkCache::new(), MissingRange::new(), 40);
    for (from, to) in [(15, 18), (0, 10), (10, 30)] {
        r.feed(from, file[from as usize..to].to_vec());
    }
    assert_eq!(r.read_range(5, 25), Ok(file[5..30].to_vec()));
    r.feed(5, file[5..20].to_vec());
    assert_eq!(r.read_range(5, 25), Ok(file[5..30].to_vec()));
    // the position follows what was read
    assert_eq!(r.pos, 30);
}

#[test]
fn cache_never_shrinks() {
    let mut cache = ChunkCache::new();
    let mut before = 0;
    let mut fed = 0;
    for (offset, len) in [(10, 5), (8, 20), (8, 4), (8, 30), (0, 0), (0, 100), (50, 60), (0, 99)] {
        cache.insert(offset, vec![1; len]);
        fed += len as u64;
        assert!(cache.cached_bytes() >= before && cache.cached_bytes() <= fed);
        before = cache.cached_bytes();
    }
    // 10..15, 8..38 in place of 8..28, 0..100 and 50..110
    assert_eq!(before, 5 + 30 + 100 + 60);
}
