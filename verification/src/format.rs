//! FGBO binary format: footer and directory.
//!
//! Layout of an FGBO file:
//!
//! ```text
//! plain FlatGeobuf (magic/header/index/data)     valid fgb body
//! sentinel (4 bytes 0xFF)                        stops EOF-style readers
//! section: importance sidecar
//! section: overview level 0..n (mini fgb)
//! section: segments (mini fgb of fragments)
//! directory
//! footer (fixed 32 bytes)
//! ```
//!
//! All integers are little-endian.

use crate::error::{Error, Fault, Result};
use crate::le::{get_u16, get_u32, get_u64, put_u16, put_u32, put_u64};
use crate::le::{
    le_seq, le_value, lemma_le_bounds, lemma_le_seq_len, lemma_stands_byte, lemma_stands_number,
    lemma_stands_split, stands_at,
};
use crate::le::{digits, law_numbers_are_little_endian};
use crate::outside::{crc32_hash, crc32_of, utf8_string};
use crate::text::{decimal, with_decimal};
use vstd::prelude::*;
use vstd::slice::{slice_subrange, slice_to_vec};
use vstd::utf8::{decode_utf8, encode_utf8, valid_utf8};

verus! {

/// Footer magic: "FGBOVRV1".
pub const FOOTER_MAGIC: [u8; 8] = [0x46, 0x47, 0x42, 0x4F, 0x56, 0x52, 0x56, 0x31];

/// Fixed footer size in bytes.
pub const FOOTER_SIZE: usize = 32;

/// Sentinel placed at the start of the extension area. Read as a feature
/// length prefix by a non-conforming sequential reader, it is an absurd
/// size (4 GiB - 1) that triggers an immediate error instead of garbage.
pub const SENTINEL: [u8; 4] = [0xFF, 0xFF, 0xFF, 0xFF];

pub const DIRECTORY_VERSION: u8 = 1;

/// Fixed-size footer at the end of the file.
#[derive(Debug, Clone, Copy, PartialEq, Eq, Structural)]
pub struct Footer {
    pub dir_offset: u64,
    pub dir_size: u64,
    pub dir_crc32: u32,
}

/// The 32 bytes of a footer: magic, directory offset, directory size,
/// directory checksum, four reserved zeros.
pub open spec fn footer_seq(f: Footer) -> Seq<u8> {
    FOOTER_MAGIC@ + le_seq(f.dir_offset as nat, 8) + le_seq(f.dir_size as nat, 8) + le_seq(
        f.dir_crc32 as nat,
        4,
    ) + seq![0u8, 0u8, 0u8, 0u8]
}

/// The footer in the last 32 bytes of `buf`, if the magic is there.
pub open spec fn footer_of(buf: Seq<u8>) -> Option<Footer> {
    let at = buf.len() - 32;
    if buf.len() >= 32 && buf.subrange(at, at + 8) == FOOTER_MAGIC@ {
        Some(
            Footer {
                dir_offset: le_value(buf.subrange(at + 8, at + 16)) as u64,
                dir_size: le_value(buf.subrange(at + 16, at + 24)) as u64,
                dir_crc32: le_value(buf.subrange(at + 24, at + 28)) as u32,
            },
        )
    } else {
        None
    }
}

impl Footer {
    pub fn encode(&self) -> (r: [u8; 32])
        ensures
            r@ == footer_seq(*self),
            r@.len() == FOOTER_SIZE,
    {
        let mut b: Vec<u8> = Vec::new();
        let mut i: usize = 0;
        while i < 8
            invariant
                i <= 8,
                b@ == FOOTER_MAGIC@.take(i as int),
            decreases 8 - i,
        {
            assert(FOOTER_MAGIC@.take(i + 1) =~= FOOTER_MAGIC@.take(i as int).push(
                FOOTER_MAGIC@[i as int],
            ));
            b.push(FOOTER_MAGIC[i]);
            i = i + 1;
        }
        assert(b@ =~= FOOTER_MAGIC@);
        put_u64(&mut b, self.dir_offset);
        put_u64(&mut b, self.dir_size);
        put_u32(&mut b, self.dir_crc32);
        b.push(0);
        b.push(0);
        b.push(0);
        b.push(0);
        proof {
            lemma_le_seq_len(self.dir_offset as nat, 8);
            lemma_le_seq_len(self.dir_size as nat, 8);
            lemma_le_seq_len(self.dir_crc32 as nat, 4);
            assert(b@ =~= footer_seq(*self));
        }
        let r: [u8; 32] = [
            b[0], b[1], b[2], b[3], b[4], b[5], b[6], b[7],
            b[8], b[9], b[10], b[11], b[12], b[13], b[14], b[15],
            b[16], b[17], b[18], b[19], b[20], b[21], b[22], b[23],
            b[24], b[25], b[26], b[27], b[28], b[29], b[30], b[31],
        ];
        assert(r@ =~= b@);
        r
    }

    /// Decode the footer from the last 32 bytes of a file.
    /// Returns `Err(Error::NotFgbo)` if the magic does not match.
    pub fn decode(buf: &[u8]) -> (r: Result<Footer>)
        ensures
            match r {
                Ok(f) => footer_of(buf@) == Some(f),
                Err(e) => e@ == Fault::NotFgbo && footer_of(buf@) is None,
            },
    {
        if buf.len() < FOOTER_SIZE {
            return Err(Error::NotFgbo);
        }
        let at: usize = buf.len() - FOOTER_SIZE;
        let mut i: usize = 0;
        while i < 8
            invariant
                i <= 8,
                at + 32 == buf@.len(),
                at + 32 <= usize::MAX,
                forall|j: int| 0 <= j < i ==> buf@[at + j] == FOOTER_MAGIC@[j],
            decreases 8 - i,
        {
            if buf[at + i] != FOOTER_MAGIC[i] {
                assert(buf@.subrange(at as int, at + 8)[i as int] != FOOTER_MAGIC@[i as int]);
                return Err(Error::NotFgbo);
            }
            i = i + 1;
        }
        assert(buf@.subrange(at as int, at + 8) =~= FOOTER_MAGIC@);
        Ok(
            Footer {
                dir_offset: get_u64(buf, at + 8),
                dir_size: get_u64(buf, at + 16),
                dir_crc32: get_u32(buf, at + 24),
            },
        )
    }
}

/// Importance sidecar section entry.
#[derive(Debug, Clone, Copy, PartialEq, Eq, Structural)]
pub struct ImportanceEntry {
    pub offset: u64,
    pub size: u64,
    pub feature_count: u64,
}

/// Overview level section entry. The section content is a complete
/// mini-FlatGeobuf (magic + header + index + data).
#[derive(Debug, Clone, Copy, PartialEq, Eq, Structural)]
pub struct OverviewEntry {
    pub offset: u64,
    pub size: u64,
    /// Recommended zoom range (inclusive).
    pub min_zoom: u8,
    pub max_zoom: u8,
    /// Quantized squared simplification tolerance of this level.
    pub tolerance_q: u16,
    pub feature_count: u64,
}

/// Segments section entry. The section content is a complete mini-FlatGeobuf
/// holding fragments of large features clipped at the `zbase` grid.
#[derive(Debug, Clone, PartialEq)]
pub struct SegmentsEntry {
    pub offset: u64,
    pub size: u64,
    /// Zoom of the clipping grid.
    pub zbase: u8,
    /// Vertex-count threshold above which a feature was segmented.
    pub v_max: u32,
    pub fragment_count: u64,
    /// Ordinals (file order) of body features that were segmented.
    /// Sorted ascending. Readers must exclude these from the body at z >= zbase.
    pub segmented_ordinals: Vec<u64>,
}

/// FGBO directory: locations and metadata of all extension sections.
#[derive(Debug, Clone, PartialEq)]
pub struct Directory {
    pub importance: Option<ImportanceEntry>,
    /// Sorted by min_zoom ascending.
    pub overviews: Vec<OverviewEntry>,
    pub segments: Option<SegmentsEntry>,
    /// Tool version / build info (determinism check aid).
    pub build_info: String,
}

/// A [`SegmentsEntry`] as a mathematical value.
#[verifier::ext_equal]
pub struct SegmentsModel {
    pub offset: u64,
    pub size: u64,
    pub zbase: u8,
    pub v_max: u32,
    pub fragment_count: u64,
    pub segmented_ordinals: Seq<u64>,
}

/// A [`Directory`] as a mathematical value.
#[verifier::ext_equal]
pub struct DirectoryModel {
    pub importance: Option<ImportanceEntry>,
    pub overviews: Seq<OverviewEntry>,
    pub segments: Option<SegmentsModel>,
    pub build_info: Seq<char>,
}

impl View for SegmentsEntry {
    type V = SegmentsModel;

    open spec fn view(&self) -> SegmentsModel {
        SegmentsModel {
            offset: self.offset,
            size: self.size,
            zbase: self.zbase,
            v_max: self.v_max,
            fragment_count: self.fragment_count,
            segmented_ordinals: self.segmented_ordinals@,
        }
    }
}

impl View for Directory {
    type V = DirectoryModel;

    open spec fn view(&self) -> DirectoryModel {
        DirectoryModel {
            importance: self.importance,
            overviews: self.overviews@,
            segments: match self.segments {
                Some(e) => Some(e@),
                None => None,
            },
            build_info: self.build_info@,
        }
    }
}

impl Default for Directory {
    fn default() -> (d: Directory)
        ensures
            d.importance is None,
            d.overviews@.len() == 0,
            d.segments is None,
            d.build_info@.len() == 0,
    {
        Directory {
            importance: None,
            overviews: Vec::new(),
            segments: None,
            build_info: String::new(),
        }
    }
}

// ---- what the bytes of a directory are ------------------------------------

pub open spec fn importance_seq(e: Option<ImportanceEntry>) -> Seq<u8> {
    match e {
        Some(e) => seq![1u8] + le_seq(e.offset as nat, 8) + le_seq(e.size as nat, 8) + le_seq(
            e.feature_count as nat,
            8,
        ),
        None => seq![0u8],
    }
}

pub open spec fn overview_seq(e: OverviewEntry) -> Seq<u8> {
    le_seq(e.offset as nat, 8) + le_seq(e.size as nat, 8) + seq![e.min_zoom, e.max_zoom] + le_seq(
        e.tolerance_q as nat,
        2,
    ) + le_seq(e.feature_count as nat, 8)
}

pub open spec fn overviews_seq(es: Seq<OverviewEntry>) -> Seq<u8>
    decreases es.len(),
{
    if es.len() == 0 {
        Seq::empty()
    } else {
        overviews_seq(es.drop_last()) + overview_seq(es.last())
    }
}

/// Numbers of eight bytes each, one after the other.
pub open spec fn u64s_seq(s: Seq<u64>) -> Seq<u8>
    decreases s.len(),
{
    if s.len() == 0 {
        Seq::empty()
    } else {
        u64s_seq(s.drop_last()) + le_seq(s.last() as nat, 8)
    }
}

pub open spec fn segments_seq(e: Option<SegmentsModel>) -> Seq<u8> {
    match e {
        Some(e) => seq![1u8] + le_seq(e.offset as nat, 8) + le_seq(e.size as nat, 8) + seq![
            e.zbase,
        ] + le_seq(e.v_max as nat, 4) + le_seq(e.fragment_count as nat, 8) + le_seq(
            e.segmented_ordinals.len(),
            8,
        ) + u64s_seq(e.segmented_ordinals),
        None => seq![0u8],
    }
}

/// The build info: its length in two bytes, then the text in UTF-8.
pub open spec fn info_seq(info: Seq<char>) -> Seq<u8> {
    le_seq(encode_utf8(info).len(), 2) + encode_utf8(info)
}

/// The bytes of a directory. The overview count takes one byte and the length
/// of the build info two, so only their low digits are kept.
pub open spec fn directory_seq(d: DirectoryModel) -> Seq<u8> {
    seq![DIRECTORY_VERSION] + importance_seq(d.importance) + le_seq(d.overviews.len(), 1)
        + overviews_seq(d.overviews) + segments_seq(d.segments) + info_seq(d.build_info)
}

/// The counts of a directory fit the bytes that hold them.
pub open spec fn directory_encodable(d: DirectoryModel) -> bool {
    &&& d.overviews.len() <= 255
    &&& encode_utf8(d.build_info).len() <= 65535
    &&& d.segments matches Some(s) ==> s.segmented_ordinals.len() <= u64::MAX
}

// ---- what directory some bytes hold ---------------------------------------

/// Number held in `width` bytes of `buf` at `at`.
pub open spec fn field(buf: Seq<u8>, at: int, width: int) -> nat {
    le_value(buf.subrange(at, at + width))
}

/// The importance entry at `at` and the position after it; `None` where the
/// bytes end too soon.
pub open spec fn importance_at(buf: Seq<u8>, at: int) -> Option<(Option<ImportanceEntry>, int)> {
    if at + 1 > buf.len() {
        None
    } else if buf[at] != 1 {
        Some((None, at + 1))
    } else if at + 25 > buf.len() {
        None
    } else {
        Some(
            (
                Some(
                    ImportanceEntry {
                        offset: field(buf, at + 1, 8) as u64,
                        size: field(buf, at + 9, 8) as u64,
                        feature_count: field(buf, at + 17, 8) as u64,
                    },
                ),
                at + 25,
            ),
        )
    }
}

/// The overview entry in the 28 bytes at `at`.
pub open spec fn overview_at(buf: Seq<u8>, at: int) -> OverviewEntry {
    OverviewEntry {
        offset: field(buf, at, 8) as u64,
        size: field(buf, at + 8, 8) as u64,
        min_zoom: buf[at + 16],
        max_zoom: buf[at + 17],
        tolerance_q: field(buf, at + 18, 2) as u16,
        feature_count: field(buf, at + 20, 8) as u64,
    }
}

/// The overview entries at `at`, behind their count, and the position after
/// them.
pub open spec fn overviews_at(buf: Seq<u8>, at: int) -> Option<(Seq<OverviewEntry>, int)> {
    if at + 1 > buf.len() {
        None
    } else {
        let n = buf[at] as nat;
        if at + 1 + 28 * n > buf.len() {
            None
        } else {
            Some((Seq::new(n, |i: int| overview_at(buf, at + 1 + 28 * i)), at + 1 + 28 * n))
        }
    }
}

/// `n` numbers of eight bytes each at `at`.
pub open spec fn u64s_at(buf: Seq<u8>, at: int, n: nat) -> Seq<u64> {
    Seq::new(n, |i: int| field(buf, at + 8 * i, 8) as u64)
}

/// The segments entry at `at` and the position after it.
pub open spec fn segments_at(buf: Seq<u8>, at: int) -> Option<(Option<SegmentsModel>, int)> {
    if at + 1 > buf.len() {
        None
    } else if buf[at] != 1 {
        Some((None, at + 1))
    } else if at + 38 > buf.len() {
        None
    } else {
        let n = field(buf, at + 30, 8);
        if at + 38 + 8 * n > buf.len() {
            None
        } else {
            Some(
                (
                    Some(
                        SegmentsModel {
                            offset: field(buf, at + 1, 8) as u64,
                            size: field(buf, at + 9, 8) as u64,
                            zbase: buf[at + 17],
                            v_max: field(buf, at + 18, 4) as u32,
                            fragment_count: field(buf, at + 22, 8) as u64,
                            segmented_ordinals: u64s_at(buf, at + 38, n),
                        },
                    ),
                    at + 38 + 8 * n,
                ),
            )
        }
    }
}

/// The bytes of the build info at `at`, behind their length.
pub open spec fn info_at(buf: Seq<u8>, at: int) -> Option<Seq<u8>> {
    if at + 2 > buf.len() {
        None
    } else {
        let n = field(buf, at, 2);
        if at + 2 + n > buf.len() {
            None
        } else {
            Some(buf.subrange(at + 2, at + 2 + n))
        }
    }
}

pub open spec fn truncated() -> Fault {
    Fault::Format("directory truncated"@)
}

/// The directory that `buf` holds, or what is wrong with it. Bytes after the
/// directory do not matter.
pub open spec fn directory_of(buf: Seq<u8>) -> core::result::Result<DirectoryModel, Fault> {
    if buf.len() == 0 {
        Err(truncated())
    } else if buf[0] != DIRECTORY_VERSION {
        Err(Fault::Format("unsupported directory version "@ + decimal(buf[0] as nat)))
    } else {
        match importance_at(buf, 1) {
            None => Err(truncated()),
            Some((importance, p1)) => match overviews_at(buf, p1) {
                None => Err(truncated()),
                Some((overviews, p2)) => match segments_at(buf, p2) {
                    None => Err(truncated()),
                    Some((segments, p3)) => match info_at(buf, p3) {
                        None => Err(truncated()),
                        Some(info) => if valid_utf8(info) {
                            Ok(
                                DirectoryModel {
                                    importance,
                                    overviews,
                                    segments,
                                    build_info: decode_utf8(info),
                                },
                            )
                        } else {
                            Err(Fault::Format("invalid build_info utf8"@))
                        },
                    },
                },
            },
        }
    }
}

/// The first overview level, in order, whose zoom range holds `z`.
pub open spec fn level_for_zoom(es: Seq<OverviewEntry>, z: u8) -> Option<int>
    decreases es.len(),
{
    if es.len() == 0 {
        None
    } else {
        match level_for_zoom(es.drop_last(), z) {
            Some(i) => Some(i),
            None => if es.last().min_zoom <= z <= es.last().max_zoom {
                Some(es.len() - 1)
            } else {
                None
            },
        }
    }
}

/// Appends the importance entry.
fn put_importance(buf: &mut Vec<u8>, e: &Option<ImportanceEntry>)
    ensures
        final(buf)@ == old(buf)@ + importance_seq(*e),
{
    match e {
        Some(e) => {
            buf.push(1);
            put_u64(buf, e.offset);
            put_u64(buf, e.size);
            put_u64(buf, e.feature_count);
        },
        None => buf.push(0),
    }
    assert(buf@ =~= old(buf)@ + importance_seq(*e));
}

/// Appends the overview entries behind the low byte of their count.
fn put_overviews(buf: &mut Vec<u8>, es: &Vec<OverviewEntry>)
    ensures
        final(buf)@ == old(buf)@ + (le_seq(es@.len(), 1) + overviews_seq(es@)),
{
    let n: usize = es.len();
    buf.push((n % 256) as u8);
    let ghost head = buf@;
    proof {
        reveal_with_fuel(le_seq, 2);
        assert(head =~= old(buf)@ + le_seq(es@.len(), 1));
    }
    let mut i: usize = 0;
    assert(es@.take(0) =~= Seq::<OverviewEntry>::empty());
    assert(buf@ =~= head + overviews_seq(es@.take(0)));
    while i < n
        invariant
            i <= n,
            n == es@.len(),
            buf@ == head + overviews_seq(es@.take(i as int)),
        decreases n - i,
    {
        let ghost before = buf@;
        let e: &OverviewEntry = &es[i];
        put_u64(buf, e.offset);
        put_u64(buf, e.size);
        buf.push(e.min_zoom);
        buf.push(e.max_zoom);
        put_u16(buf, e.tolerance_q);
        put_u64(buf, e.feature_count);
        proof {
            assert(buf@ =~= before + overview_seq(*e));
            let now = es@.take(i + 1);
            assert(now.drop_last() =~= es@.take(i as int));
            assert(now.last() == *e);
            assert(buf@ =~= head + overviews_seq(now));
        }
        i = i + 1;
    }
    assert(es@.take(n as int) =~= es@);
    assert(buf@ =~= old(buf)@ + (le_seq(es@.len(), 1) + overviews_seq(es@)));
}

/// Appends numbers of eight bytes each.
pub(crate) fn put_u64s(buf: &mut Vec<u8>, s: &Vec<u64>)
    ensures
        final(buf)@ == old(buf)@ + u64s_seq(s@),
{
    let n: usize = s.len();
    let mut i: usize = 0;
    assert(s@.take(0) =~= Seq::<u64>::empty());
    assert(buf@ =~= old(buf)@ + u64s_seq(s@.take(0)));
    while i < n
        invariant
            i <= n,
            n == s@.len(),
            buf@ == old(buf)@ + u64s_seq(s@.take(i as int)),
        decreases n - i,
    {
        put_u64(buf, s[i]);
        proof {
            let now = s@.take(i + 1);
            assert(now.drop_last() =~= s@.take(i as int));
            assert(buf@ =~= old(buf)@ + u64s_seq(now));
        }
        i = i + 1;
    }
    assert(s@.take(n as int) =~= s@);
}

/// Appends the segments entry.
fn put_segments(buf: &mut Vec<u8>, e: &Option<SegmentsEntry>)
    ensures
        final(buf)@ == old(buf)@ + segments_seq(
            match *e {
                Some(e) => Some(e@),
                None => None,
            },
        ),
{
    match e {
        Some(e) => {
            buf.push(1);
            put_u64(buf, e.offset);
            put_u64(buf, e.size);
            buf.push(e.zbase);
            put_u32(buf, e.v_max);
            put_u64(buf, e.fragment_count);
            put_u64(buf, e.segmented_ordinals.len() as u64);
            put_u64s(buf, &e.segmented_ordinals);
            assert(buf@ =~= old(buf)@ + segments_seq(Some(e@)));
        },
        None => {
            buf.push(0);
            assert(buf@ =~= old(buf)@ + segments_seq(None));
        },
    }
}

/// Appends the build info behind the low bytes of its length.
fn put_info(buf: &mut Vec<u8>, info: &String)
    ensures
        final(buf)@ == old(buf)@ + info_seq(info@),
{
    let bytes: &[u8] = info.as_str().as_bytes();
    proof {
        reveal_with_fuel(le_seq, 3);
        let len = bytes@.len();
        assert(len % 65536 % 256 == len % 256);
        assert((len % 65536) / 256 % 256 == len / 256 % 256);
        assert(le_seq(len, 2) =~= le_seq((len % 65536) as nat, 2));
    }
    put_u16(buf, (bytes.len() % 65536) as u16);
    buf.extend_from_slice(bytes);
    assert(buf@ =~= old(buf)@ + info_seq(info@));
}

/// A position in the bytes of a directory.
struct Cursor<'a> {
    buf: &'a [u8],
    pos: usize,
}

impl<'a> Cursor<'a> {
    spec fn wf(self) -> bool {
        self.pos <= self.buf@.len()
    }

    /// The outcome of reading `n` bytes from `before`.
    spec fn moved(before: Self, after: Self, n: int, ok: bool) -> bool {
        &&& after.buf == before.buf
        &&& after.wf()
        &&& ok <==> before.pos + n <= before.buf@.len()
        &&& ok ==> after.pos == before.pos + n
    }

    fn bytes(&mut self, n: usize) -> (r: Result<&'a [u8]>)
        requires
            old(self).wf(),
        ensures
            Self::moved(*old(self), *final(self), n as int, r is Ok),
            match r {
                Ok(s) => s@ == old(self).buf@.subrange(old(self).pos as int, old(self).pos + n),
                Err(e) => e@ == truncated(),
            },
    {
        if n > self.buf.len() - self.pos {
            return Err(Error::format("directory truncated"));
        }
        let s: &'a [u8] = slice_subrange(self.buf, self.pos, self.pos + n);
        self.pos = self.pos + n;
        Ok(s)
    }

    fn u8(&mut self) -> (r: Result<u8>)
        requires
            old(self).wf(),
        ensures
            Self::moved(*old(self), *final(self), 1, r is Ok),
            match r {
                Ok(v) => v == old(self).buf@[old(self).pos as int],
                Err(e) => e@ == truncated(),
            },
    {
        match self.bytes(1) {
            Ok(s) => Ok(s[0]),
            Err(e) => Err(e),
        }
    }

    fn u16(&mut self) -> (r: Result<u16>)
        requires
            old(self).wf(),
        ensures
            Self::moved(*old(self), *final(self), 2, r is Ok),
            match r {
                Ok(v) => v as nat == field(old(self).buf@, old(self).pos as int, 2),
                Err(e) => e@ == truncated(),
            },
    {
        match self.bytes(2) {
            Ok(s) => {
                assert(s@.subrange(0, 2) =~= s@);
                Ok(get_u16(s, 0))
            },
            Err(e) => Err(e),
        }
    }

    fn u32(&mut self) -> (r: Result<u32>)
        requires
            old(self).wf(),
        ensures
            Self::moved(*old(self), *final(self), 4, r is Ok),
            match r {
                Ok(v) => v as nat == field(old(self).buf@, old(self).pos as int, 4),
                Err(e) => e@ == truncated(),
            },
    {
        match self.bytes(4) {
            Ok(s) => {
                assert(s@.subrange(0, 4) =~= s@);
                Ok(get_u32(s, 0))
            },
            Err(e) => Err(e),
        }
    }

    fn u64(&mut self) -> (r: Result<u64>)
        requires
            old(self).wf(),
        ensures
            Self::moved(*old(self), *final(self), 8, r is Ok),
            match r {
                Ok(v) => v as nat == field(old(self).buf@, old(self).pos as int, 8),
                Err(e) => e@ == truncated(),
            },
    {
        match self.bytes(8) {
            Ok(s) => {
                assert(s@.subrange(0, 8) =~= s@);
                Ok(get_u64(s, 0))
            },
            Err(e) => Err(e),
        }
    }

    fn importance(&mut self) -> (r: Result<Option<ImportanceEntry>>)
        requires
            old(self).wf(),
        ensures
            final(self).buf == old(self).buf,
            final(self).wf(),
            match r {
                Ok(v) => importance_at(old(self).buf@, old(self).pos as int) == Some(
                    (v, final(self).pos as int),
                ),
                Err(e) => e@ == truncated() && importance_at(
                    old(self).buf@,
                    old(self).pos as int,
                ) is None,
            },
    {
        if self.u8()? != 1 {
            return Ok(None);
        }
        let offset: u64 = self.u64()?;
        let size: u64 = self.u64()?;
        let feature_count: u64 = self.u64()?;
        Ok(Some(ImportanceEntry { offset, size, feature_count }))
    }

    fn overviews(&mut self) -> (r: Result<Vec<OverviewEntry>>)
        requires
            old(self).wf(),
        ensures
            final(self).buf == old(self).buf,
            final(self).wf(),
            match r {
                Ok(v) => overviews_at(old(self).buf@, old(self).pos as int) == Some(
                    (v@, final(self).pos as int),
                ),
                Err(e) => e@ == truncated() && overviews_at(
                    old(self).buf@,
                    old(self).pos as int,
                ) is None,
            },
    {
        let n: usize = self.u8()? as usize;
        let ghost buf = self.buf@;
        let ghost start = self.pos as int;
        let mut v: Vec<OverviewEntry> = Vec::new();
        let mut i: usize = 0;
        while i < n
            invariant
                self.wf(),
                self.buf == old(self).buf,
                buf == self.buf@,
                start == old(self).pos + 1 <= buf.len(),
                n == buf[old(self).pos as int],
                i <= n,
                self.pos == start + 28 * i,
                v@ == Seq::new(i as nat, |k: int| overview_at(buf, start + 28 * k)),
            decreases n - i,
        {
            let offset: u64 = self.u64()?;
            let size: u64 = self.u64()?;
            let min_zoom: u8 = self.u8()?;
            let max_zoom: u8 = self.u8()?;
            let tolerance_q: u16 = self.u16()?;
            let feature_count: u64 = self.u64()?;
            v.push(
                OverviewEntry { offset, size, min_zoom, max_zoom, tolerance_q, feature_count },
            );
            assert(v@ =~= Seq::new((i + 1) as nat, |k: int| overview_at(buf, start + 28 * k)));
            i = i + 1;
        }
        Ok(v)
    }

    fn segments(&mut self) -> (r: Result<Option<SegmentsEntry>>)
        requires
            old(self).wf(),
        ensures
            final(self).buf == old(self).buf,
            final(self).wf(),
            match r {
                Ok(v) => segments_at(old(self).buf@, old(self).pos as int) == Some(
                    (
                        match v {
                            Some(e) => Some(e@),
                            None => None,
                        },
                        final(self).pos as int,
                    ),
                ),
                Err(e) => e@ == truncated() && segments_at(
                    old(self).buf@,
                    old(self).pos as int,
                ) is None,
            },
    {
        if self.u8()? != 1 {
            return Ok(None);
        }
        let offset: u64 = self.u64()?;
        let size: u64 = self.u64()?;
        let zbase: u8 = self.u8()?;
        let v_max: u32 = self.u32()?;
        let fragment_count: u64 = self.u64()?;
        let n: u64 = self.u64()?;
        let ghost buf = self.buf@;
        let ghost start = self.pos as int;
        let mut ordinals: Vec<u64> = Vec::new();
        let mut i: u64 = 0;
        while i < n
            invariant
                self.wf(),
                self.buf == old(self).buf,
                buf == self.buf@,
                start == old(self).pos + 38 <= buf.len(),
                buf[old(self).pos as int] == 1,
                n == field(buf, old(self).pos + 30, 8),
                i <= n,
                self.pos == start + 8 * i,
                ordinals@ == u64s_at(buf, start, i as nat),
            decreases n - i,
        {
            let o: u64 = self.u64()?;
            ordinals.push(o);
            assert(ordinals@ =~= u64s_at(buf, start, (i + 1) as nat));
            i = i + 1;
        }
        Ok(
            Some(
                SegmentsEntry {
                    offset,
                    size,
                    zbase,
                    v_max,
                    fragment_count,
                    segmented_ordinals: ordinals,
                },
            ),
        )
    }

    fn info(&mut self) -> (r: Result<String>)
        requires
            old(self).wf(),
        ensures
            match r {
                Ok(s) => info_at(old(self).buf@, old(self).pos as int) matches Some(b) && valid_utf8(
                    b,
                ) && s@ == decode_utf8(b),
                Err(e) => match info_at(old(self).buf@, old(self).pos as int) {
                    None => e@ == truncated(),
                    Some(b) => !valid_utf8(b) && e@ == Fault::Format("invalid build_info utf8"@),
                },
            },
    {
        let n: usize = self.u16()? as usize;
        let bytes: &[u8] = self.bytes(n)?;
        match utf8_string(slice_to_vec(bytes)) {
            Some(s) => {
                proof {
                    vstd::utf8::encode_utf8_decode_utf8(s@);
                }
                Ok(s)
            },
            None => Err(Error::format("invalid build_info utf8")),
        }
    }
}

impl Directory {
    pub fn encode(&self) -> (buf: Vec<u8>)
        ensures
            buf@ == directory_seq(self@),
    {
        let mut buf: Vec<u8> = Vec::new();
        buf.push(DIRECTORY_VERSION);
        put_importance(&mut buf, &self.importance);
        put_overviews(&mut buf, &self.overviews);
        put_segments(&mut buf, &self.segments);
        put_info(&mut buf, &self.build_info);
        assert(buf@ =~= directory_seq(self@));
        buf
    }

    /// Decode a directory. The bytes may go on behind it.
    pub fn decode(buf: &[u8]) -> (r: Result<Directory>)
        ensures
            match r {
                Ok(d) => directory_of(buf@) == core::result::Result::<DirectoryModel, Fault>::Ok(
                    d@,
                ),
                Err(e) => directory_of(buf@) == core::result::Result::<DirectoryModel, Fault>::Err(
                    e@,
                ),
            },
    {
        let mut r: Cursor = Cursor { buf, pos: 0 };
        let version: u8 = r.u8()?;
        if version != DIRECTORY_VERSION {
            return Err(
                Error::Format(with_decimal("unsupported directory version ", version as u64)),
            );
        }
        let importance: Option<ImportanceEntry> = r.importance()?;
        let overviews: Vec<OverviewEntry> = r.overviews()?;
        let segments: Option<SegmentsEntry> = r.segments()?;
        let build_info: String = r.info()?;
        Ok(Directory { importance, overviews, segments, build_info })
    }

    /// Decode a directory with the checksum `crc`, if this is the checksum
    /// that the footer names.
    pub fn decode_checked(buf: &[u8], crc: u32, footer: Footer) -> (r: Result<Directory>)
        ensures
            match r {
                Ok(d) => crc == footer.dir_crc32 && directory_of(buf@) == core::result::Result::<
                    DirectoryModel,
                    Fault,
                >::Ok(d@),
                Err(e) => if crc != footer.dir_crc32 {
                    e@ == Fault::CrcMismatch
                } else {
                    directory_of(buf@) == core::result::Result::<DirectoryModel, Fault>::Err(e@)
                },
            },
    {
        if crc != footer.dir_crc32 {
            return Err(Error::CrcMismatch);
        }
        Directory::decode(buf)
    }

    /// Checksum of an encoded directory.
    pub fn crc32(encoded: &[u8]) -> (r: u32)
        ensures
            r == crc32_of(encoded@),
    {
        crc32_hash(encoded)
    }

    /// Position of the overview level for zoom `z`, if any covers it.
    pub fn overview_position(&self, z: u8) -> (r: Option<usize>)
        ensures
            match r {
                Some(i) => level_for_zoom(self@.overviews, z) == Some(i as int),
                None => level_for_zoom(self@.overviews, z) is None,
            },
    {
        let n: usize = self.overviews.len();
        let mut i: usize = 0;
        assert(self.overviews@.take(0) =~= Seq::<OverviewEntry>::empty());
        while i < n
            invariant
                i <= n,
                n == self.overviews@.len(),
                level_for_zoom(self.overviews@.take(i as int), z) is None,
            decreases n - i,
        {
            proof {
                assert(self.overviews@.take(i + 1).drop_last() =~= self.overviews@.take(i as int));
            }
            let e: &OverviewEntry = &self.overviews[i];
            if z >= e.min_zoom && z <= e.max_zoom {
                proof {
                    lemma_level_stable(self.overviews@, z, i + 1);
                }
                return Some(i);
            }
            i = i + 1;
        }
        assert(self.overviews@.take(n as int) =~= self.overviews@);
        None
    }

    /// Pick the overview level for zoom `z`, if any covers it.
    pub fn overview_for_zoom(&self, z: u8) -> (r: Option<&OverviewEntry>)
        ensures
            match r {
                Some(e) => level_for_zoom(self@.overviews, z) matches Some(i)
                    && *e == self@.overviews[i],
                None => level_for_zoom(self@.overviews, z) is None,
            },
    {
        match self.overview_position(z) {
            Some(i) => {
                proof {
                    law_level_covers_zoom(self@.overviews, z);
                }
                Some(&self.overviews[i])
            },
            None => None,
        }
    }
}

/// A level found among the first levels stays the answer for all of them.
proof fn lemma_level_stable(es: Seq<OverviewEntry>, z: u8, k: int)
    requires
        0 <= k <= es.len(),
        level_for_zoom(es.take(k), z) is Some,
    ensures
        level_for_zoom(es, z) == level_for_zoom(es.take(k), z),
    decreases es.len(),
{
    if k < es.len() {
        assert(es.drop_last().take(k) =~= es.take(k));
        lemma_level_stable(es.drop_last(), z, k);
    } else {
        assert(es.take(k) =~= es);
    }
}

// ---- laws -----------------------------------------------------------------

/// The level picked for a zoom is the first one whose range holds the zoom,
/// and one is picked whenever a range holds it.
pub proof fn law_level_covers_zoom(es: Seq<OverviewEntry>, z: u8)
    ensures
        match level_for_zoom(es, z) {
            Some(i) => 0 <= i < es.len() && es[i].min_zoom <= z <= es[i].max_zoom && (forall|j: int|
                0 <= j < i ==> !(#[trigger] es[j].min_zoom <= z <= es[j].max_zoom)),
            None => forall|j: int|
                0 <= j < es.len() ==> !(#[trigger] es[j].min_zoom <= z <= es[j].max_zoom),
        },
    decreases es.len(),
{
    if es.len() > 0 {
        law_level_covers_zoom(es.drop_last(), z);
        assert(forall|j: int| 0 <= j < es.len() - 1 ==> es.drop_last()[j] == es[j]);
    }
}

/// A footer written at the end of a file, behind any bytes, is the footer
/// found there.
pub proof fn law_footer_round_trip(before: Seq<u8>, f: Footer)
    ensures
        footer_of(before + footer_seq(f)) == Some(f),
        footer_seq(f).len() == 32,
{
    let buf = before + footer_seq(f);
    let at = before.len() as int;
    lemma_le_bounds();
    lemma_le_seq_len(f.dir_offset as nat, 8);
    lemma_le_seq_len(f.dir_size as nat, 8);
    lemma_le_seq_len(f.dir_crc32 as nat, 4);
    assert(buf.subrange(at, buf.len() as int) =~= footer_seq(f));
    let p1 = FOOTER_MAGIC@;
    let p2 = p1 + le_seq(f.dir_offset as nat, 8);
    let p3 = p2 + le_seq(f.dir_size as nat, 8);
    let p4 = p3 + le_seq(f.dir_crc32 as nat, 4);
    lemma_stands_split(buf, at, p4, seq![0u8, 0u8, 0u8, 0u8]);
    lemma_stands_split(buf, at, p3, le_seq(f.dir_crc32 as nat, 4));
    lemma_stands_split(buf, at, p2, le_seq(f.dir_size as nat, 8));
    lemma_stands_split(buf, at, p1, le_seq(f.dir_offset as nat, 8));
    lemma_stands_number(buf, at + 8, f.dir_offset as nat, 8);
    lemma_stands_number(buf, at + 16, f.dir_size as nat, 8);
    lemma_stands_number(buf, at + 24, f.dir_crc32 as nat, 4);
}

/// A file that does not end in a footer with the magic is not taken for an
/// FGBO file, whatever it holds.
pub proof fn law_footer_needs_magic(buf: Seq<u8>)
    requires
        buf.len() < 32 || buf.subrange(buf.len() - 32, buf.len() - 24) != FOOTER_MAGIC@,
    ensures
        footer_of(buf) is None,
{
}

proof fn lemma_importance_stands(buf: Seq<u8>, at: int, e: Option<ImportanceEntry>)
    requires
        stands_at(buf, at, importance_seq(e)),
    ensures
        importance_at(buf, at) == Some((e, at + importance_seq(e).len())),
{
    match e {
        None => {
            lemma_stands_byte(buf, at, 0);
        },
        Some(e) => {
            lemma_le_bounds();
            lemma_le_seq_len(e.offset as nat, 8);
            lemma_le_seq_len(e.size as nat, 8);
            lemma_le_seq_len(e.feature_count as nat, 8);
            let p1 = seq![1u8];
            let p2 = p1 + le_seq(e.offset as nat, 8);
            let p3 = p2 + le_seq(e.size as nat, 8);
            lemma_stands_split(buf, at, p3, le_seq(e.feature_count as nat, 8));
            lemma_stands_split(buf, at, p2, le_seq(e.size as nat, 8));
            lemma_stands_split(buf, at, p1, le_seq(e.offset as nat, 8));
            lemma_stands_byte(buf, at, 1);
            lemma_stands_number(buf, at + 1, e.offset as nat, 8);
            lemma_stands_number(buf, at + 9, e.size as nat, 8);
            lemma_stands_number(buf, at + 17, e.feature_count as nat, 8);
        },
    }
}

proof fn lemma_overview_stands(buf: Seq<u8>, at: int, e: OverviewEntry)
    requires
        stands_at(buf, at, overview_seq(e)),
    ensures
        overview_seq(e).len() == 28,
        overview_at(buf, at) == e,
{
    lemma_le_bounds();
    lemma_le_seq_len(e.offset as nat, 8);
    lemma_le_seq_len(e.size as nat, 8);
    lemma_le_seq_len(e.tolerance_q as nat, 2);
    lemma_le_seq_len(e.feature_count as nat, 8);
    let p1 = le_seq(e.offset as nat, 8);
    let p2 = p1 + le_seq(e.size as nat, 8);
    let p3 = p2 + seq![e.min_zoom, e.max_zoom];
    let p4 = p3 + le_seq(e.tolerance_q as nat, 2);
    lemma_stands_split(buf, at, p4, le_seq(e.feature_count as nat, 8));
    lemma_stands_split(buf, at, p3, le_seq(e.tolerance_q as nat, 2));
    lemma_stands_split(buf, at, p2, seq![e.min_zoom, e.max_zoom]);
    lemma_stands_split(buf, at, p1, le_seq(e.size as nat, 8));
    assert(buf.subrange(at + 16, at + 18)[0] == e.min_zoom);
    assert(buf.subrange(at + 16, at + 18)[1] == e.max_zoom);
    lemma_stands_number(buf, at, e.offset as nat, 8);
    lemma_stands_number(buf, at + 8, e.size as nat, 8);
    lemma_stands_number(buf, at + 18, e.tolerance_q as nat, 2);
    lemma_stands_number(buf, at + 20, e.feature_count as nat, 8);
}

proof fn lemma_overviews_len(es: Seq<OverviewEntry>)
    ensures
        overviews_seq(es).len() == 28 * es.len(),
    decreases es.len(),
{
    if es.len() > 0 {
        lemma_overviews_len(es.drop_last());
        let e = es.last();
        assert(overview_seq(e).subrange(0, overview_seq(e).len() as int) =~= overview_seq(e));
        lemma_overview_stands(overview_seq(e), 0, e);
    }
}

proof fn lemma_overviews_stand(buf: Seq<u8>, at: int, es: Seq<OverviewEntry>)
    requires
        stands_at(buf, at, overviews_seq(es)),
    ensures
        Seq::new(es.len(), |i: int| overview_at(buf, at + 28 * i)) == es,
    decreases es.len(),
{
    let read = Seq::new(es.len(), |i: int| overview_at(buf, at + 28 * i));
    if es.len() > 0 {
        let init = es.drop_last();
        lemma_overviews_len(init);
        lemma_stands_split(buf, at, overviews_seq(init), overview_seq(es.last()));
        lemma_overviews_stand(buf, at, init);
        lemma_overview_stands(buf, at + 28 * init.len(), es.last());
        let read_init = Seq::new(init.len(), |i: int| overview_at(buf, at + 28 * i));
        assert forall|i: int| 0 <= i < es.len() implies read[i] == es[i] by {
            if i < init.len() {
                assert(read_init[i] == init[i]);
            }
        }
    }
    assert(read =~= es);
}

pub(crate) proof fn lemma_u64s_len(s: Seq<u64>)
    ensures
        u64s_seq(s).len() == 8 * s.len(),
    decreases s.len(),
{
    if s.len() > 0 {
        lemma_u64s_len(s.drop_last());
        lemma_le_seq_len(s.last() as nat, 8);
    }
}

pub(crate) proof fn lemma_u64s_stand(buf: Seq<u8>, at: int, s: Seq<u64>)
    requires
        stands_at(buf, at, u64s_seq(s)),
    ensures
        u64s_at(buf, at, s.len()) == s,
    decreases s.len(),
{
    if s.len() > 0 {
        let init = s.drop_last();
        lemma_le_bounds();
        lemma_u64s_len(init);
        lemma_stands_split(buf, at, u64s_seq(init), le_seq(s.last() as nat, 8));
        lemma_u64s_stand(buf, at, init);
        lemma_stands_number(buf, at + 8 * init.len(), s.last() as nat, 8);
        assert forall|i: int| 0 <= i < s.len() implies u64s_at(buf, at, s.len())[i] == s[i] by {
            if i < init.len() {
                assert(u64s_at(buf, at, init.len())[i] == init[i]);
            }
        }
    }
    assert(u64s_at(buf, at, s.len()) =~= s);
}

proof fn lemma_segments_stand(buf: Seq<u8>, at: int, e: Option<SegmentsModel>)
    requires
        stands_at(buf, at, segments_seq(e)),
        e matches Some(m) ==> m.segmented_ordinals.len() <= u64::MAX,
    ensures
        segments_at(buf, at) == Some((e, at + segments_seq(e).len())),
{
    match e {
        None => {
            lemma_stands_byte(buf, at, 0);
        },
        Some(e) => {
            let n = e.segmented_ordinals.len();
            lemma_le_bounds();
            lemma_le_seq_len(e.offset as nat, 8);
            lemma_le_seq_len(e.size as nat, 8);
            lemma_le_seq_len(e.v_max as nat, 4);
            lemma_le_seq_len(e.fragment_count as nat, 8);
            lemma_le_seq_len(n, 8);
            lemma_u64s_len(e.segmented_ordinals);
            let p1 = seq![1u8];
            let p2 = p1 + le_seq(e.offset as nat, 8);
            let p3 = p2 + le_seq(e.size as nat, 8);
            let p4 = p3 + seq![e.zbase];
            let p5 = p4 + le_seq(e.v_max as nat, 4);
            let p6 = p5 + le_seq(e.fragment_count as nat, 8);
            let p7 = p6 + le_seq(n, 8);
            lemma_stands_split(buf, at, p7, u64s_seq(e.segmented_ordinals));
            lemma_stands_split(buf, at, p6, le_seq(n, 8));
            lemma_stands_split(buf, at, p5, le_seq(e.fragment_count as nat, 8));
            lemma_stands_split(buf, at, p4, le_seq(e.v_max as nat, 4));
            lemma_stands_split(buf, at, p3, seq![e.zbase]);
            lemma_stands_split(buf, at, p2, le_seq(e.size as nat, 8));
            lemma_stands_split(buf, at, p1, le_seq(e.offset as nat, 8));
            lemma_stands_byte(buf, at, 1);
            lemma_stands_byte(buf, at + 17, e.zbase);
            lemma_stands_number(buf, at + 1, e.offset as nat, 8);
            lemma_stands_number(buf, at + 9, e.size as nat, 8);
            lemma_stands_number(buf, at + 18, e.v_max as nat, 4);
            lemma_stands_number(buf, at + 22, e.fragment_count as nat, 8);
            lemma_stands_number(buf, at + 30, n, 8);
            lemma_u64s_stand(buf, at + 38, e.segmented_ordinals);
        },
    }
}

proof fn lemma_info_stands(buf: Seq<u8>, at: int, info: Seq<char>)
    requires
        stands_at(buf, at, info_seq(info)),
        encode_utf8(info).len() <= 65535,
    ensures
        info_at(buf, at) == Some(encode_utf8(info)),
{
    let b = encode_utf8(info);
    lemma_le_bounds();
    lemma_le_seq_len(b.len(), 2);
    lemma_stands_split(buf, at, le_seq(b.len(), 2), b);
    lemma_stands_number(buf, at, b.len(), 2);
}

/// Where the parts of an encoded directory stand.
proof fn lemma_directory_parts(d: DirectoryModel, buf: Seq<u8>)
    requires
        stands_at(buf, 0, directory_seq(d)),
    ensures
        ({
            let p1 = 1 + importance_seq(d.importance).len();
            let p2 = p1 + le_seq(d.overviews.len(), 1).len();
            let p3 = p2 + overviews_seq(d.overviews).len();
            let p4 = p3 + segments_seq(d.segments).len();
            &&& stands_at(buf, 0, seq![DIRECTORY_VERSION])
            &&& stands_at(buf, 1, importance_seq(d.importance))
            &&& stands_at(buf, p1 as int, le_seq(d.overviews.len(), 1))
            &&& stands_at(buf, p2 as int, overviews_seq(d.overviews))
            &&& stands_at(buf, p3 as int, segments_seq(d.segments))
            &&& stands_at(buf, p4 as int, info_seq(d.build_info))
        }),
{
    let q1 = seq![DIRECTORY_VERSION];
    let q2 = q1 + importance_seq(d.importance);
    let q3 = q2 + le_seq(d.overviews.len(), 1);
    let q4 = q3 + overviews_seq(d.overviews);
    let q5 = q4 + segments_seq(d.segments);
    lemma_stands_split(buf, 0, q5, info_seq(d.build_info));
    lemma_stands_split(buf, 0, q4, segments_seq(d.segments));
    lemma_stands_split(buf, 0, q3, overviews_seq(d.overviews));
    lemma_stands_split(buf, 0, q2, le_seq(d.overviews.len(), 1));
    lemma_stands_split(buf, 0, q1, importance_seq(d.importance));
}

proof fn lemma_count_stands(buf: Seq<u8>, at: int, n: nat)
    requires
        stands_at(buf, at, le_seq(n, 1)),
        n <= 255,
    ensures
        le_seq(n, 1).len() == 1,
        0 <= at < buf.len(),
        buf[at] == n,
{
    reveal_with_fuel(le_seq, 2);
    assert(le_seq(n, 1) =~= seq![n as u8]);
    lemma_stands_byte(buf, at, n as u8);
}

/// What the parts of an encoded directory are read as, and where they end.
proof fn lemma_directory_stands(d: DirectoryModel, buf: Seq<u8>)
    requires
        directory_encodable(d),
        stands_at(buf, 0, directory_seq(d)),
    ensures
        ({
            let p1 = 1 + importance_seq(d.importance).len() as int;
            let p2 = p1 + 1 + overviews_seq(d.overviews).len();
            let p3 = p2 + segments_seq(d.segments).len();
            &&& buf[0] == DIRECTORY_VERSION
            &&& importance_at(buf, 1) == Some((d.importance, p1))
            &&& overviews_at(buf, p1) == Some((d.overviews, p2))
            &&& segments_at(buf, p2) == Some((d.segments, p3))
            &&& info_at(buf, p3) == Some(encode_utf8(d.build_info))
            &&& p3 + 2 + encode_utf8(d.build_info).len() == directory_seq(d).len()
        }),
{
    lemma_directory_parts(d, buf);
    let p1 = 1 + importance_seq(d.importance).len();
    let p2 = p1 + le_seq(d.overviews.len(), 1).len();
    let p3 = p2 + overviews_seq(d.overviews).len();
    let p4 = p3 + segments_seq(d.segments).len();
    lemma_stands_byte(buf, 0, DIRECTORY_VERSION);
    lemma_importance_stands(buf, 1, d.importance);
    lemma_count_stands(buf, p1 as int, d.overviews.len());
    lemma_overviews_len(d.overviews);
    lemma_overviews_stand(buf, p2 as int, d.overviews);
    assert(overviews_at(buf, p1 as int) == Some((d.overviews, p3 as int)));
    lemma_segments_stand(buf, p3 as int, d.segments);
    lemma_info_stands(buf, p4 as int, d.build_info);
    lemma_le_seq_len(encode_utf8(d.build_info).len(), 2);
}

/// Decoding gives back the directory that was encoded, whatever follows it.
/// Left out are directories whose counts do not fit the bytes that hold them.
pub proof fn law_directory_round_trip(d: DirectoryModel, rest: Seq<u8>)
    requires
        directory_encodable(d),
    ensures
        directory_of(directory_seq(d) + rest) == core::result::Result::<DirectoryModel, Fault>::Ok(
            d,
        ),
{
    let buf = directory_seq(d) + rest;
    assert(buf.subrange(0, directory_seq(d).len() as int) =~= directory_seq(d));
    lemma_directory_stands(d, buf);
    vstd::utf8::encode_utf8_valid_utf8(d.build_info);
    vstd::utf8::encode_utf8_decode_utf8(d.build_info);
}

/// Directories with different content have different bytes.
pub proof fn law_directory_bytes_distinct(a: DirectoryModel, b: DirectoryModel)
    requires
        directory_encodable(a),
        directory_encodable(b),
        directory_seq(a) == directory_seq(b),
    ensures
        a == b,
{
    law_directory_round_trip(a, Seq::empty());
    law_directory_round_trip(b, Seq::empty());
}

/// A field that lies in the first `k` bytes.
proof fn lemma_field_prefix(buf: Seq<u8>, k: int, at: int, width: int)
    requires
        0 <= at,
        0 <= width,
        at + width <= k <= buf.len(),
    ensures
        field(buf.subrange(0, k), at, width) == field(buf, at, width),
{
    assert(buf.subrange(0, k).subrange(at, at + width) =~= buf.subrange(at, at + width));
}

/// The first `k` bytes hold the importance entry, or end too soon.
proof fn lemma_importance_prefix(buf: Seq<u8>, k: int, at: int)
    requires
        0 <= at,
        0 <= k <= buf.len(),
    ensures
        importance_at(buf.subrange(0, k), at) matches Some(r) ==> importance_at(buf, at) == Some(r)
            && at <= r.1 <= k,
{
    if at + 25 <= k {
        lemma_field_prefix(buf, k, at + 1, 8);
        lemma_field_prefix(buf, k, at + 9, 8);
        lemma_field_prefix(buf, k, at + 17, 8);
    }
}

/// The first `k` bytes hold the overview entries, or end too soon.
proof fn lemma_overviews_prefix(buf: Seq<u8>, k: int, at: int)
    requires
        0 <= at,
        0 <= k <= buf.len(),
    ensures
        overviews_at(buf.subrange(0, k), at) matches Some(r) ==> overviews_at(buf, at) == Some(r)
            && at <= r.1 <= k,
{
    let pre = buf.subrange(0, k);
    if let Some((es, end)) = overviews_at(pre, at) {
        let (all, _) = overviews_at(buf, at)->0;
        assert forall|i: int| 0 <= i < es.len() implies es[i] == all[i] by {
            let p = at + 1 + 28 * i;
            lemma_field_prefix(buf, k, p, 8);
            lemma_field_prefix(buf, k, p + 8, 8);
            lemma_field_prefix(buf, k, p + 18, 2);
            lemma_field_prefix(buf, k, p + 20, 8);
        }
        assert(es =~= all);
    }
}

/// The first `k` bytes hold the segments entry, or end too soon.
proof fn lemma_segments_prefix(buf: Seq<u8>, k: int, at: int)
    requires
        0 <= at,
        0 <= k <= buf.len(),
    ensures
        segments_at(buf.subrange(0, k), at) matches Some(r) ==> segments_at(buf, at) == Some(r)
            && at <= r.1 <= k,
{
    let pre = buf.subrange(0, k);
    if at + 38 <= k {
        lemma_field_prefix(buf, k, at + 1, 8);
        lemma_field_prefix(buf, k, at + 9, 8);
        lemma_field_prefix(buf, k, at + 18, 4);
        lemma_field_prefix(buf, k, at + 22, 8);
        lemma_field_prefix(buf, k, at + 30, 8);
        let n = field(buf, at + 30, 8);
        if at + 38 + 8 * n <= k {
            let a = u64s_at(pre, at + 38, n);
            let b = u64s_at(buf, at + 38, n);
            assert forall|i: int| 0 <= i < n implies a[i] == b[i] by {
                lemma_field_prefix(buf, k, at + 38 + 8 * i, 8);
            }
            assert(a =~= b);
        }
    }
}

/// A directory that is cut off is refused: decoding fewer bytes than encoding
/// gave finds that they are truncated. Left out are directories whose counts
/// do not fit the bytes that hold them.
pub proof fn law_truncated_directory_is_refused(d: DirectoryModel, k: int)
    requires
        directory_encodable(d),
        0 <= k < directory_seq(d).len(),
    ensures
        directory_of(directory_seq(d).subrange(0, k)) == core::result::Result::<
            DirectoryModel,
            Fault,
        >::Err(truncated()),
{
    let buf = directory_seq(d);
    let pre = buf.subrange(0, k);
    assert(buf.subrange(0, buf.len() as int) =~= buf);
    lemma_directory_stands(d, buf);
    let p1 = 1 + importance_seq(d.importance).len() as int;
    let p2 = p1 + 1 + overviews_seq(d.overviews).len();
    let p3 = p2 + segments_seq(d.segments).len();
    lemma_importance_prefix(buf, k, 1);
    lemma_overviews_prefix(buf, k, p1);
    lemma_segments_prefix(buf, k, p2);
    assert(info_at(pre, p3) is None) by {
        if p3 + 2 <= k {
            lemma_field_prefix(buf, k, p3, 2);
        }
    }
}

// ---- where the bytes stand ------------------------------------------------------

/// The footer takes 32 bytes: "FGBOVRV1", the offset and the size of the
/// directory in eight bytes each, its checksum in four, and four zeros.
pub proof fn law_footer_layout(f: Footer)
    ensures
        ({
            let b = footer_seq(f);
            &&& b.len() == 32
            &&& b.subrange(0, 8) == seq![0x46u8, 0x47, 0x42, 0x4f, 0x56, 0x52, 0x56, 0x31]
            &&& b.subrange(8, 16) == digits(f.dir_offset as nat, 8)
            &&& b.subrange(16, 24) == digits(f.dir_size as nat, 8)
            &&& b.subrange(24, 28) == digits(f.dir_crc32 as nat, 4)
            &&& b.subrange(28, 32) == seq![0u8, 0, 0, 0]
        }),
{
    law_numbers_are_little_endian(f.dir_offset as nat, 8);
    law_numbers_are_little_endian(f.dir_size as nat, 8);
    law_numbers_are_little_endian(f.dir_crc32 as nat, 4);
    let b = footer_seq(f);
    assert(b.subrange(0, 8) =~= seq![0x46u8, 0x47, 0x42, 0x4f, 0x56, 0x52, 0x56, 0x31]);
    assert(b.subrange(8, 16) =~= digits(f.dir_offset as nat, 8));
    assert(b.subrange(16, 24) =~= digits(f.dir_size as nat, 8));
    assert(b.subrange(24, 28) =~= digits(f.dir_crc32 as nat, 4));
    assert(b.subrange(28, 32) =~= seq![0u8, 0, 0, 0]);
}

/// The importance entry is a one, and the offset, the size and the number of
/// features in eight bytes each; or a zero alone.
pub proof fn law_importance_layout(e: ImportanceEntry)
    ensures
        importance_seq(None) == seq![0u8],
        ({
            let b = importance_seq(Some(e));
            &&& b.len() == 25
            &&& b[0] == 1
            &&& b.subrange(1, 9) == digits(e.offset as nat, 8)
            &&& b.subrange(9, 17) == digits(e.size as nat, 8)
            &&& b.subrange(17, 25) == digits(e.feature_count as nat, 8)
        }),
{
    law_numbers_are_little_endian(e.offset as nat, 8);
    law_numbers_are_little_endian(e.size as nat, 8);
    law_numbers_are_little_endian(e.feature_count as nat, 8);
    let b = importance_seq(Some(e));
    assert(b.subrange(1, 9) =~= digits(e.offset as nat, 8));
    assert(b.subrange(9, 17) =~= digits(e.size as nat, 8));
    assert(b.subrange(17, 25) =~= digits(e.feature_count as nat, 8));
}

/// An overview entry takes 28 bytes: offset and size in eight bytes each, the
/// least and the greatest zoom, the threshold in two bytes and the number of
/// features in eight.
pub proof fn law_overview_layout(e: OverviewEntry)
    ensures
        ({
            let b = overview_seq(e);
            &&& b.len() == 28
            &&& b.subrange(0, 8) == digits(e.offset as nat, 8)
            &&& b.subrange(8, 16) == digits(e.size as nat, 8)
            &&& b[16] == e.min_zoom
            &&& b[17] == e.max_zoom
            &&& b.subrange(18, 20) == digits(e.tolerance_q as nat, 2)
            &&& b.subrange(20, 28) == digits(e.feature_count as nat, 8)
        }),
{
    law_numbers_are_little_endian(e.offset as nat, 8);
    law_numbers_are_little_endian(e.size as nat, 8);
    law_numbers_are_little_endian(e.tolerance_q as nat, 2);
    law_numbers_are_little_endian(e.feature_count as nat, 8);
    let b = overview_seq(e);
    assert(b.subrange(0, 8) =~= digits(e.offset as nat, 8));
    assert(b.subrange(8, 16) =~= digits(e.size as nat, 8));
    assert(b.subrange(18, 20) =~= digits(e.tolerance_q as nat, 2));
    assert(b.subrange(20, 28) =~= digits(e.feature_count as nat, 8));
}

/// Numbers of eight bytes each stand one after the other.
pub proof fn law_numbers_layout(s: Seq<u64>, n: u64)
    ensures
        u64s_seq(Seq::empty()).len() == 0,
        u64s_seq(s.push(n)) == u64s_seq(s) + digits(n as nat, 8),
{
    law_numbers_are_little_endian(n as nat, 8);
    assert(s.push(n).drop_last() =~= s);
}

/// The segments entry is a one, offset and size in eight bytes each, the zoom
/// of the grid, the limit in four bytes, the number of fragments and that of
/// the segmented features in eight bytes each, and then their ordinals; or a
/// zero alone.
pub proof fn law_segments_layout(e: SegmentsModel)
    ensures
        segments_seq(None) == seq![0u8],
        ({
            let b = segments_seq(Some(e));
            &&& b.len() == 38 + u64s_seq(e.segmented_ordinals).len()
            &&& b[0] == 1
            &&& b.subrange(1, 9) == digits(e.offset as nat, 8)
            &&& b.subrange(9, 17) == digits(e.size as nat, 8)
            &&& b[17] == e.zbase
            &&& b.subrange(18, 22) == digits(e.v_max as nat, 4)
            &&& b.subrange(22, 30) == digits(e.fragment_count as nat, 8)
            &&& b.subrange(30, 38) == digits(e.segmented_ordinals.len(), 8)
            &&& b.subrange(38, b.len() as int) == u64s_seq(e.segmented_ordinals)
        }),
{
    law_numbers_are_little_endian(e.offset as nat, 8);
    law_numbers_are_little_endian(e.size as nat, 8);
    law_numbers_are_little_endian(e.v_max as nat, 4);
    law_numbers_are_little_endian(e.fragment_count as nat, 8);
    law_numbers_are_little_endian(e.segmented_ordinals.len(), 8);
    let b = segments_seq(Some(e));
    assert(b.subrange(1, 9) =~= digits(e.offset as nat, 8));
    assert(b.subrange(9, 17) =~= digits(e.size as nat, 8));
    assert(b.subrange(18, 22) =~= digits(e.v_max as nat, 4));
    assert(b.subrange(22, 30) =~= digits(e.fragment_count as nat, 8));
    assert(b.subrange(30, 38) =~= digits(e.segmented_ordinals.len(), 8));
    assert(b.subrange(38, b.len() as int) =~= u64s_seq(e.segmented_ordinals));
}

/// A directory is the version 1, the importance entry, the number of
/// overviews in one byte, the overview entries, the segments entry, and the
/// build info behind its length in two bytes.
pub proof fn law_directory_layout(d: DirectoryModel, e: OverviewEntry)
    ensures
        overviews_seq(Seq::empty()).len() == 0,
        overviews_seq(d.overviews.push(e)) == overviews_seq(d.overviews) + overview_seq(e),
        ({
            let info = encode_utf8(d.build_info);
            directory_seq(d) == seq![1u8] + importance_seq(d.importance) + digits(
                d.overviews.len(),
                1,
            ) + overviews_seq(d.overviews) + segments_seq(d.segments) + digits(info.len(), 2)
                + info
        }),
{
    let info = encode_utf8(d.build_info);
    law_numbers_are_little_endian(d.overviews.len(), 1);
    law_numbers_are_little_endian(info.len(), 2);
    assert(d.overviews.push(e).drop_last() =~= d.overviews);
    assert(directory_seq(d) =~= seq![1u8] + importance_seq(d.importance) + digits(
        d.overviews.len(),
        1,
    ) + overviews_seq(d.overviews) + segments_seq(d.segments) + digits(info.len(), 2) + info);
}

/// A directory of another version is refused.
pub proof fn law_other_version_is_refused(buf: Seq<u8>)
    requires
        buf.len() > 0,
        buf[0] != 1,
    ensures
        directory_of(buf) == core::result::Result::<DirectoryModel, Fault>::Err(
            Fault::Format("unsupported directory version "@ + decimal(buf[0] as nat)),
        ),
{
}

} // verus!
