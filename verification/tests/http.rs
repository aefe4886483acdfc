//! Range requests and their answers.

use fgbo::error::{Error, IoError};
use fgbo::http::{probe_len, range_header, HttpRangeReader, PARTIAL_CONTENT};
use fgbo::sparse::SeekFrom;

#[test]
fn probe_names_the_length() {
    assert_eq!(PARTIAL_CONTENT, 206);
    assert_eq!(
        probe_len(206, "206 Partial Content", Some("bytes 0-0/12345")),
        Ok(12345)
    );
    assert_eq!(probe_len(206, "", Some("bytes 0-0/ 7 ")), Ok(7));
    assert_eq!(probe_len(206, "", Some("42")), Ok(42));
}

#[test]
fn probe_refusals() {
    let text = |r: Result<u64, Error>| r.unwrap_err().message();
    assert_eq!(
        text(probe_len(200, "200 OK", Some("bytes 0-0/12345"))),
        "invalid input: server does not support range requests (status 200 OK)"
    );
    assert_eq!(
        text(probe_len(206, "", None)),
        "invalid input: missing Content-Range header"
    );
    assert_eq!(
        text(probe_len(206, "", Some("bytes 0-0/*"))),
        "invalid input: unparsable Content-Range: bytes 0-0/*"
    );
}

#[test]
fn range_header_names_first_and_last_byte() {
    assert_eq!(range_header(0, 1), "bytes=0-0");
    assert_eq!(range_header(100, 50), "bytes=100-149");
}

#[test]
fn reads_stay_in_the_file() {
    let mut r = HttpRangeReader::new(100);
    assert_eq!(r.len(), 100);
    assert!(!r.is_empty());
    assert!(HttpRangeReader::new(0).is_empty());
    assert_eq!(r.request(10), Some((0, 9)));
    r.advance(10);
    assert_eq!(r.request(1000), Some((10, 99)));
    assert_eq!(r.request(0), None);
    assert_eq!(r.seek(SeekFrom::End(0)), Ok(100));
    assert_eq!(r.request(10), None);
    assert_eq!(r.seek(SeekFrom::Current(-40)), Ok(60));
    assert_eq!(
        r.seek(SeekFrom::End(-101)),
        Err(Error::Io(IoError::InvalidSeek))
    );
    assert_eq!(r.pos, 60);
}
