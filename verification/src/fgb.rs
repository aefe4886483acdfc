//! Low-level access to a FlatGeobuf "section": a complete fgb byte range
//! (magic + header + optional index + data) embedded at an arbitrary offset
//! of a larger file. Used both for the body and for overview and segments
//! sections.
//!
//! All reads are explicit seek+read so that I/O can be counted; the same
//! access pattern maps to HTTP range requests.

use crate::error::{Error, Fault, IoError, Result};
use crate::format::{field, SENTINEL};
use crate::le::{digits, law_next_byte_counts_more, law_numbers_are_little_endian};
use crate::le::{get_le, get_u16, get_u32, lemma_stands_number, lemma_stands_split};
use crate::le::{le_bound, le_value, lemma_le_bounds, lemma_le_bytes_round_trip, stands_at};
use crate::outside::{
    feature_fields, fgb_feature, fgb_header, header_column, header_fields, packed_index_size,
    tree_nodes, utf8_string,
};
use crate::sparse::{
    agrees, as_signed, chunks_wf, fetch, law_reads_are_the_file, law_whole_file_reads,
    lemma_holder, missing_after, piece, range_of, seek_target, whole_file, Fetched,
};
use crate::sparse::{signed, SeekFrom, SparseModel, SparseReader};
use crate::text::{decimal, with_decimal};
use vstd::arithmetic::power::{lemma_pow0, lemma_pow1};
use vstd::prelude::*;
use vstd::slice::{slice_subrange, slice_to_vec};
use vstd::utf8::{
    decode_utf8, encode_utf8, encode_utf8_decode_utf8, encode_utf8_valid_utf8, valid_utf8,
};

verus! {

/// fgb magic ("fgb" 3 "fgb" 0).
pub const FGB_MAGIC: [u8; 8] = [0x66, 0x67, 0x62, 3, 0x66, 0x67, 0x62, 0];

/// The bytes of the magic.
pub open spec fn fgb_magic_seq() -> Seq<u8> {
    seq![0x66u8, 0x67, 0x62, 3, 0x66, 0x67, 0x62, 0]
}

/// One column of a layer.
#[derive(Debug, Clone, PartialEq)]
pub struct Column {
    pub name: String,
    /// The code of the column type.
    pub column_type: u8,
}

/// A column as a mathematical value.
#[verifier::ext_equal]
pub struct ColumnModel {
    pub name: Seq<char>,
    pub column_type: u8,
}

impl View for Column {
    type V = ColumnModel;

    open spec fn view(&self) -> ColumnModel {
        ColumnModel { name: self.name@, column_type: self.column_type }
    }
}

/// The coordinate reference system of a layer.
#[derive(Debug, Clone, PartialEq)]
pub struct Crs {
    pub org: Option<String>,
    pub code: i32,
    pub wkt: Option<String>,
}

/// A coordinate reference system as a mathematical value.
#[verifier::ext_equal]
pub struct CrsModel {
    pub org: Option<Seq<char>>,
    pub code: i32,
    pub wkt: Option<Seq<char>>,
}

impl View for Crs {
    type V = CrsModel;

    open spec fn view(&self) -> CrsModel {
        CrsModel { org: text_of(self.org), code: self.code, wkt: text_of(self.wkt) }
    }
}

/// An optional text as a sequence of characters.
pub open spec fn text_of(s: Option<String>) -> Option<Seq<char>> {
    match s {
        Some(s) => Some(s@),
        None => None,
    }
}

/// The columns as mathematical values.
pub open spec fn columns_of(cols: Seq<Column>) -> Seq<ColumnModel> {
    Seq::new(cols.len(), |i: int| cols[i]@)
}

/// The header of a layer.
#[derive(Debug, Clone, PartialEq)]
pub struct Header {
    pub name: Option<String>,
    /// The code of the geometry type.
    pub geometry_type: u8,
    pub has_z: bool,
    pub features_count: u64,
    pub index_node_size: u16,
    pub columns: Option<Vec<Column>>,
    pub crs: Option<Crs>,
}

/// A header as a mathematical value.
#[verifier::ext_equal]
pub struct HeaderModel {
    pub name: Option<Seq<char>>,
    pub geometry_type: u8,
    pub has_z: bool,
    pub features_count: u64,
    pub index_node_size: u16,
    pub columns: Option<Seq<ColumnModel>>,
    pub crs: Option<CrsModel>,
}

impl View for Header {
    type V = HeaderModel;

    open spec fn view(&self) -> HeaderModel {
        HeaderModel {
            name: text_of(self.name),
            geometry_type: self.geometry_type,
            has_z: self.has_z,
            features_count: self.features_count,
            index_node_size: self.index_node_size,
            columns: match self.columns {
                Some(cols) => Some(columns_of(cols@)),
                None => None,
            },
            crs: match self.crs {
                Some(c) => Some(c@),
                None => None,
            },
        }
    }
}

/// The fields of a header, with the number of its columns in their place.
#[derive(Debug, Clone, PartialEq)]
pub struct HeaderFields {
    pub name: Option<String>,
    pub geometry_type: u8,
    pub has_z: bool,
    pub features_count: u64,
    pub index_node_size: u16,
    pub column_count: Option<u32>,
    pub crs: Option<Crs>,
}

impl HeaderFields {
    /// These are the fields of the header `m`.
    pub open spec fn agrees(self, m: HeaderModel) -> bool {
        &&& text_of(self.name) == m.name
        &&& self.geometry_type == m.geometry_type
        &&& self.has_z == m.has_z
        &&& self.features_count == m.features_count
        &&& self.index_node_size == m.index_node_size
        &&& match (self.column_count, m.columns) {
            (Some(n), Some(cols)) => n == cols.len(),
            (None, None) => true,
            _ => false,
        }
        &&& match (self.crs, m.crs) {
            (Some(a), Some(b)) => a@ == b,
            (None, None) => true,
            _ => false,
        }
    }
}

/// The fields of a feature record that the library reads.
#[derive(Debug, Clone, PartialEq)]
pub struct FeatureFields {
    pub properties: Option<Vec<u8>>,
}

/// A feature record as a mathematical value.
#[verifier::ext_equal]
pub struct FeatureModel {
    pub properties: Option<Seq<u8>>,
}

impl View for FeatureFields {
    type V = FeatureModel;

    open spec fn view(&self) -> FeatureModel {
        FeatureModel {
            properties: match self.properties {
                Some(p) => Some(p@),
                None => None,
            },
        }
    }
}

/// Parses a size-prefixed header, columns included.
pub fn parse_header(buf: &[u8]) -> (r: core::result::Result<Header, String>)
    ensures
        match r {
            Ok(h) => fgb_header(buf@) == core::result::Result::<HeaderModel, Seq<char>>::Ok(h@),
            Err(e) => fgb_header(buf@) == core::result::Result::<HeaderModel, Seq<char>>::Err(e@),
        },
{
    let fields: HeaderFields = header_fields(buf)?;
    let ghost m = fgb_header(buf@)->Ok_0;
    let columns: Option<Vec<Column>> = match fields.column_count {
        None => None,
        Some(n) => {
            let mut cols: Vec<Column> = Vec::new();
            let mut i: u32 = 0;
            while i < n
                invariant
                    i <= n <= 1_000_000,
                    cols@.len() == i,
                    fgb_header(buf@) == core::result::Result::<HeaderModel, Seq<char>>::Ok(m),
                    m.columns matches Some(all) && n == all.len() && forall|j: int|
                        0 <= j < i ==> (#[trigger] cols@[j])@ == all[j],
                decreases n - i,
            {
                if let Some(c) = header_column(buf, i) {
                    cols.push(c);
                }
                i = i + 1;
            }
            assert(columns_of(cols@) =~= m.columns->0);
            Some(cols)
        },
    };
    let h: Header = Header {
        name: fields.name,
        geometry_type: fields.geometry_type,
        has_z: fields.has_z,
        features_count: fields.features_count,
        index_node_size: fields.index_node_size,
        columns,
        crs: fields.crs,
    };
    assert(h@ == m);
    Ok(h)
}

/// I/O statistics: emulates "how many range requests / bytes would this be
/// over HTTP".
#[derive(Debug, Clone, Copy, PartialEq, Eq, Structural)]
pub struct IoStats {
    pub requests: u64,
    pub bytes: u64,
}

impl Default for IoStats {
    fn default() -> (s: IoStats)
        ensures
            s == (IoStats { requests: 0, bytes: 0 }),
    {
        IoStats { requests: 0, bytes: 0 }
    }
}

impl IoStats {
    /// The counters after one more request of so many bytes; they wrap
    /// around at 64 bits.
    pub open spec fn with(self, bytes: int) -> IoStats {
        IoStats {
            requests: ((self.requests + 1) % 0x1_0000_0000_0000_0000) as u64,
            bytes: ((self.bytes + bytes) % 0x1_0000_0000_0000_0000) as u64,
        }
    }

    pub fn record(&mut self, bytes: u64)
        ensures
            *final(self) == old(self).with(bytes as int),
    {
        self.requests = self.requests.wrapping_add(1);
        self.bytes = self.bytes.wrapping_add(bytes);
    }

    pub fn requests(&self) -> (n: u64)
        ensures
            n == self.requests,
    {
        self.requests
    }

    pub fn bytes(&self) -> (n: u64)
        ensures
            n == self.bytes,
    {
        self.bytes
    }

    pub fn reset(&mut self)
        ensures
            *final(self) == (IoStats { requests: 0, bytes: 0 }),
    {
        self.requests = 0;
        self.bytes = 0;
    }
}

/// Where a reading stands: what can be read, what was recorded as missing,
/// and what was counted.
#[verifier::ext_equal]
pub struct Session {
    pub source: SparseModel,
    pub missing: Option<(u64, u64)>,
    pub stats: IoStats,
}

/// The session of a reader and its counters.
pub open spec fn session(r: SparseReader, stats: IoStats) -> Session {
    Session { source: r@, missing: r.missing@, stats }
}

/// A result over mathematical values.
pub open spec fn outcome<T: View>(r: Result<T>) -> core::result::Result<T::V, Fault> {
    match r {
        Ok(v) => Ok(v@),
        Err(e) => Err(e@),
    }
}

/// Reading `n` bytes at `offset`: a success is counted as one request.
pub open spec fn ranged(s: Session, offset: int, n: int) -> (
    Session,
    core::result::Result<Seq<u8>, Fault>,
) {
    let got = range_of(s.source, offset, n);
    (
        Session {
            missing: missing_after(s.source, offset, n, s.missing),
            stats: if got is Ok {
                s.stats.with(n)
            } else {
                s.stats
            },
            ..s
        },
        got,
    )
}

/// Read `len` bytes at absolute `offset`, recording stats.
pub fn read_range(r: &mut SparseReader, stats: &mut IoStats, offset: u64, len: usize) -> (res:
    Result<Vec<u8>>)
    requires
        old(r).wf(),
    ensures
        final(r).wf(),
        (session(*final(r), *final(stats)), outcome(res)) == ranged(
            session(*old(r), *old(stats)),
            offset as int,
            len as int,
        ),
        res matches Ok(b) ==> b@.len() == len && offset < 0x8000_0000_0000_0000 && (len > 0
            ==> offset + len <= old(r)@.len),
{
    let buf: Vec<u8> = r.read_range(offset, len)?;
    stats.record(len as u64);
    Ok(buf)
}

/// A window over `[offset, offset+len)` of an underlying reader, with stats
/// counting. The index search reads through one.
#[derive(Debug, Clone, Copy, PartialEq, Eq, Structural)]
pub struct WindowReader {
    pub offset: u64,
    pub len: u64,
    pub pos: u64,
}

impl WindowReader {
    /// The window ends inside the range of file offsets.
    pub open spec fn wf(self) -> bool {
        self.offset + self.len <= u64::MAX
    }

    pub fn new(offset: u64, len: u64) -> (w: WindowReader)
        ensures
            w == (WindowReader { offset, len, pos: 0 }),
    {
        WindowReader { offset, len, pos: 0 }
    }

    /// Read some bytes at the position in the window, at most `buf_len`; none
    /// at the end of the window or of the file.
    pub fn read(&mut self, r: &mut SparseReader, stats: &mut IoStats, buf_len: usize) -> (res:
        Result<Vec<u8>>)
        requires
            old(self).wf(),
            old(r).wf(),
        ensures
            final(self).wf(),
            final(r).wf(),
            (*final(self), session(*final(r), *final(stats)), outcome(res)) == window_read(
                *old(self),
                session(*old(r), *old(stats)),
                buf_len as int,
            ),
    {
        let remaining: u64 = self.len.saturating_sub(self.pos);
        let want: usize = if (buf_len as u64) < remaining {
            buf_len
        } else {
            remaining as usize
        };
        if want == 0 {
            let none: Vec<u8> = Vec::new();
            assert(none@ =~= Seq::<u8>::empty());
            return Ok(none);
        }
        r.seek(SeekFrom::Start(self.offset + self.pos))?;
        let ghost model = r@;
        let ghost at = r.at();
        proof {
            lemma_holder(model.chunks, at);
        }
        let bytes: Vec<u8> = r.read(want)?;
        self.pos = self.pos + bytes.len() as u64;
        stats.record(bytes.len() as u64);
        proof {
            if model.len <= at {
                assert(bytes@ =~= Seq::<u8>::empty());
            }
        }
        Ok(bytes)
    }

    pub fn seek(&mut self, to: SeekFrom) -> (res: Result<u64>)
        requires
            i64::MIN <= seek_target(old(self).pos as int, old(self).len as int, to) <= i64::MAX,
        ensures
            final(self).offset == old(self).offset,
            final(self).len == old(self).len,
            ({
                let target = seek_target(old(self).pos as int, old(self).len as int, to);
                match res {
                    Ok(p) => target >= 0 && p == target && final(self).pos == target,
                    Err(e) => target < 0 && e@ == Fault::Io(IoError::InvalidSeek) && final(self).pos
                        == old(self).pos,
                }
            }),
    {
        let new: i64 = match to {
            SeekFrom::Start(o) => signed(o),
            SeekFrom::Current(d) => signed(self.pos) + d,
            SeekFrom::End(d) => signed(self.len) + d,
        };
        if new < 0 {
            return Err(Error::Io(IoError::InvalidSeek));
        }
        self.pos = new as u64;
        Ok(self.pos)
    }
}

/// Reading through a window.
pub open spec fn window_read(w: WindowReader, s: Session, buf_len: int) -> (
    WindowReader,
    Session,
    core::result::Result<Seq<u8>, Fault>,
) {
    let in_window = w.len - w.pos;
    let want = if buf_len < in_window {
        buf_len
    } else {
        in_window
    };
    let at = w.offset + w.pos;
    let in_file = s.source.len - at;
    let ask = if want <= in_file {
        want
    } else {
        in_file
    };
    if want <= 0 {
        (w, s, Ok(Seq::empty()))
    } else if as_signed(at) < 0 {
        (w, s, Err(Fault::Io(IoError::InvalidSeek)))
    } else if ask <= 0 {
        (w, Session { stats: s.stats.with(0), ..s }, Ok(Seq::empty()))
    } else {
        match piece(s.source.chunks, at, ask) {
            Some(b) => (
                WindowReader { pos: (w.pos + b.len()) as u64, ..w },
                Session { stats: s.stats.with(b.len() as int), ..s },
                Ok(b),
            ),
            None => (
                w,
                Session { missing: Some((at as u64, ask as u64)), ..s },
                Err(Fault::Io(IoError::WouldBlock)),
            ),
        }
    }
}

/// Largest header that is read.
pub const MAX_HEADER_BYTES: u32 = 10 * 1024 * 1024;

/// Parsed metadata of one fgb section.
#[derive(Debug, Clone, PartialEq)]
pub struct FgbSection {
    /// Absolute offset of the section (start of magic bytes).
    pub offset: u64,
    /// Section size in bytes (0 = unknown / until EOF).
    pub size: u64,
    pub header: Header,
    /// Absolute offset of the index.
    pub index_offset: u64,
    pub index_size: u64,
    /// Absolute offset of the data (feature) section.
    pub data_offset: u64,
    pub features_count: u64,
    pub node_size: u16,
}

/// A section as a mathematical value.
#[verifier::ext_equal]
pub struct SectionModel {
    pub offset: u64,
    pub size: u64,
    pub header: HeaderModel,
    pub index_offset: u64,
    pub index_size: u64,
    pub data_offset: u64,
    pub features_count: u64,
    pub node_size: u16,
}

impl View for FgbSection {
    type V = SectionModel;

    open spec fn view(&self) -> SectionModel {
        SectionModel {
            offset: self.offset,
            size: self.size,
            header: self.header@,
            index_offset: self.index_offset,
            index_size: self.index_size,
            data_offset: self.data_offset,
            features_count: self.features_count,
            node_size: self.node_size,
        }
    }
}

/// The size of the index that a header announces.
pub open spec fn index_bytes(h: HeaderModel) -> nat {
    if h.index_node_size > 0 && h.features_count > 0 {
        40 * tree_nodes(h.features_count as nat, h.index_node_size as nat)
    } else {
        0
    }
}

/// The index that a header announces has nodes of two entries or more, and
/// its size and the offset of its end can be represented.
pub open spec fn index_fits(h: HeaderModel, index_offset: int) -> bool {
    &&& h.index_node_size != 1 || h.features_count == 0
    &&& index_bytes(h) <= usize::MAX
    &&& index_offset + index_bytes(h) <= u64::MAX
}

/// The section at `offset` with a header of so many bytes.
pub open spec fn section_with(
    offset: u64,
    size: u64,
    header_size: int,
    h: HeaderModel,
) -> SectionModel {
    SectionModel {
        offset,
        size,
        header: h,
        index_offset: (offset + 12 + header_size) as u64,
        index_size: index_bytes(h) as u64,
        data_offset: (offset + 12 + header_size + index_bytes(h)) as u64,
        features_count: h.features_count,
        node_size: h.index_node_size,
    }
}

/// Whether the first bytes of a section carry the magic. The version bytes
/// are not looked at.
pub open spec fn has_fgb_magic(head: Seq<u8>) -> bool {
    &&& head.subrange(0, 3) == fgb_magic_seq().subrange(0, 3)
    &&& head.subrange(4, 7) == fgb_magic_seq().subrange(4, 7)
}

/// Whether a buffer starts with the magic bytes of fgb, whatever the version.
pub(crate) fn starts_with_magic(head: &[u8]) -> (r: bool)
    requires
        head@.len() >= 8,
    ensures
        r == has_fgb_magic(head@),
{
    assert(head@.subrange(0, 3) == fgb_magic_seq().subrange(0, 3) <==> head@[0] == 0x66 && head@[1]
        == 0x67 && head@[2] == 0x62) by {
        lemma_three(head@, 0, 0x66, 0x67, 0x62);
        assert(fgb_magic_seq().subrange(0, 3) =~= seq![0x66u8, 0x67, 0x62]);
    }
    assert(head@.subrange(4, 7) == fgb_magic_seq().subrange(4, 7) <==> head@[4] == 0x66 && head@[5]
        == 0x67 && head@[6] == 0x62) by {
        lemma_three(head@, 4, 0x66, 0x67, 0x62);
        assert(fgb_magic_seq().subrange(4, 7) =~= seq![0x66u8, 0x67, 0x62]);
    }
    head[0] == FGB_MAGIC[0] && head[1] == FGB_MAGIC[1] && head[2] == FGB_MAGIC[2] && head[4]
        == FGB_MAGIC[4] && head[5] == FGB_MAGIC[5] && head[6] == FGB_MAGIC[6]
}

/// Opening the section at `offset`.
pub open spec fn opened(s: Session, offset: u64, size: u64) -> (
    Session,
    core::result::Result<SectionModel, Fault>,
) {
    let (s1, first) = ranged(s, offset as int, 12);
    match first {
        Err(f) => (s1, Err(f)),
        Ok(head) => {
            let header_size = field(head, 8, 4);
            if !has_fgb_magic(head) {
                (
                    s1,
                    Err(Fault::Format("no fgb magic at section offset "@ + decimal(offset as nat))),
                )
            } else if header_size > MAX_HEADER_BYTES {
                (s1, Err(Fault::Format("header too large: "@ + decimal(header_size))))
            } else {
                let (s2, second) = ranged(s1, offset + 12, header_size as int);
                match second {
                    Err(f) => (s2, Err(f)),
                    Ok(rest) => match fgb_header(head.subrange(8, 12) + rest) {
                        Err(text) => (s2, Err(Fault::Format("invalid fgb header: "@ + text))),
                        Ok(h) => if index_fits(h, offset + 12 + header_size) {
                            (s2, Ok(section_with(offset, size, header_size as int, h)))
                        } else {
                            (s2, Err(Fault::IndexSize))
                        },
                    },
                }
            }
        },
    }
}

/// A tree has at least as many nodes as items.
proof fn lemma_tree_nodes_min(n: nat, k: nat)
    ensures
        tree_nodes(n, k) > n,
    decreases n,
{
    let above = (n + k - 1) as nat / k;
    if k >= 2 && 1 < above < n {
        lemma_tree_nodes_min(above, k);
    }
}

/// The number of nodes of a packed R-tree, if it is at most `max`.
fn tree_nodes_within(n: u64, k: u16, max: u64) -> (r: Option<u64>)
    requires
        n > 0,
        k >= 2,
    ensures
        match r {
            Some(t) => t == tree_nodes(n as nat, k as nat) && t <= max,
            None => tree_nodes(n as nat, k as nat) > max,
        },
{
    let mut total: u64 = 0;
    let mut level: u64 = n;
    let wide: u64 = k as u64;
    loop
        invariant
            level > 0,
            wide == k,
            k >= 2,
            total <= max,
            total + tree_nodes(level as nat, k as nat) == tree_nodes(n as nat, k as nat),
        decreases level,
    {
        proof {
            lemma_tree_nodes_min(level as nat, k as nat);
        }
        if max - total <= level {
            return None;
        }
        // the nodes above: one for each `k` of this level, the last one
        // possibly not full
        let above: u64 = (level - 1) / wide + 1;
        proof {
            let l = level as int;
            let w = wide as int;
            assert((l + w - 1) / w == (l - 1) / w + 1) by (nonlinear_arith)
                requires
                    w >= 2,
                    l >= 1,
            ;
            assert(l >= 2 ==> (l - 1) / w + 1 < l) by (nonlinear_arith)
                requires
                    w >= 2,
                    l >= 1,
            ;
        }
        if above <= 1 {
            return Some(total + level + 1);
        }
        total = total + level;
        level = above;
    }
}

impl FgbSection {
    /// The section at `offset` with the given header, which takes
    /// `header_size` bytes.
    pub fn from_header(offset: u64, size: u64, header_size: u32, header: Header) -> (s: FgbSection)
        requires
            offset + 12 + header_size <= u64::MAX,
            index_fits(header@, offset + 12 + header_size),
        ensures
            s@ == section_with(offset, size, header_size as int, header@),
    {
        let features_count: u64 = header.features_count;
        let node_size: u16 = header.index_node_size;
        let index_offset: u64 = offset + 8 + 4 + header_size as u64;
        proof {
            lemma_tree_nodes_min(features_count as nat, node_size as nat);
        }
        let index_size: u64 = if node_size > 0 && features_count > 0 {
            packed_index_size(features_count as usize, node_size) as u64
        } else {
            0
        };
        let data_offset: u64 = index_offset + index_size;
        FgbSection {
            offset,
            size,
            header,
            index_offset,
            index_size,
            data_offset,
            features_count,
            node_size,
        }
    }

    /// Whether the index that the header announces can be addressed.
    fn check_index(header: &Header, index_offset: u64) -> (ok: bool)
        ensures
            ok == index_fits(header@, index_offset as int),
    {
        if header.index_node_size == 0 || header.features_count == 0 {
            return true;
        }
        if header.index_node_size == 1 {
            return false;
        }
        let past: u64 = u64::MAX - index_offset;
        let room: u64 = if past < usize::MAX as u64 {
            past
        } else {
            usize::MAX as u64
        };
        match tree_nodes_within(header.features_count, header.index_node_size, room / 40) {
            Some(_) => true,
            None => false,
        }
    }

    /// The section at `offset` whose header, of `header_size` bytes, was parsed
    /// with the given result.
    pub fn from_parsed(
        offset: u64,
        size: u64,
        header_size: u32,
        parsed: core::result::Result<Header, String>,
    ) -> (res: Result<FgbSection>)
        requires
            offset + 12 + header_size <= u64::MAX,
        ensures
            outcome(res) == match parsed {
                Err(e) => core::result::Result::<SectionModel, Fault>::Err(
                    Fault::Format("invalid fgb header: "@ + e@),
                ),
                Ok(h) => if index_fits(h@, offset + 12 + header_size) {
                    core::result::Result::<SectionModel, Fault>::Ok(
                        section_with(offset, size, header_size as int, h@),
                    )
                } else {
                    core::result::Result::<SectionModel, Fault>::Err(Fault::IndexSize)
                },
            },
    {
        match parsed {
            Err(e) => {
                let mut text: String = "invalid fgb header: ".to_owned();
                text.append(e.as_str());
                Err(Error::Format(text))
            },
            Ok(header) => {
                let index_offset: u64 = offset + 12 + header_size as u64;
                if !FgbSection::check_index(&header, index_offset) {
                    return Err(Error::IndexSize);
                }
                Ok(FgbSection::from_header(offset, size, header_size, header))
            },
        }
    }

    /// Open an fgb section at `offset` in `r`.
    pub fn open(r: &mut SparseReader, stats: &mut IoStats, offset: u64, size: u64) -> (res: Result<
        FgbSection,
    >)
        requires
            old(r).wf(),
        ensures
            final(r).wf(),
            (session(*final(r), *final(stats)), outcome(res)) == opened(
                session(*old(r), *old(stats)),
                offset,
                size,
            ),
    {
        let head: Vec<u8> = read_range(r, stats, offset, 12)?;
        if !starts_with_magic(head.as_slice()) {
            return Err(Error::Format(with_decimal("no fgb magic at section offset ", offset)));
        }
        let header_size: u32 = get_u32(head.as_slice(), 8);
        if header_size > MAX_HEADER_BYTES {
            return Err(Error::Format(with_decimal("header too large: ", header_size as u64)));
        }
        let mut header_buf: Vec<u8> = slice_to_vec(slice_subrange(head.as_slice(), 8, 12));
        let mut rest: Vec<u8> = read_range(r, stats, offset + 12, header_size as usize)?;
        header_buf.append(&mut rest);
        let parsed: core::result::Result<Header, String> = parse_header(header_buf.as_slice());
        FgbSection::from_parsed(offset, size, header_size, parsed)
    }

    pub fn header(&self) -> (h: &Header)
        ensures
            h@ == self@.header,
    {
        &self.header
    }

    pub fn has_index(&self) -> (r: bool)
        ensures
            r == (self@.index_size > 0),
    {
        self.index_size > 0
    }
}

/// Three bytes of a buffer, one by one.
proof fn lemma_three(s: Seq<u8>, at: int, a: u8, b: u8, c: u8)
    requires
        0 <= at,
        at + 3 <= s.len(),
    ensures
        s.subrange(at, at + 3) == seq![a, b, c] <==> s[at] == a && s[at + 1] == b && s[at + 2] == c,
{
    let t = s.subrange(at, at + 3);
    assert(t[0] == s[at] && t[1] == s[at + 1] && t[2] == s[at + 2]);
    if s[at] == a && s[at + 1] == b && s[at + 2] == c {
        assert(t =~= seq![a, b, c]);
    }
}

/// Maximum gap between consecutive hits sharing one coalesced range read.
pub const COALESCE_GAP_BYTES: u64 = 64 * 1024;

/// Indexes up to this size are fetched whole in one request.
pub const SMALL_INDEX_BYTES: u64 = 256 * 1024;

/// Minimum coalesced request size (avoids a 4-byte read + follow-up).
pub const MIN_GROUP_READ_BYTES: u64 = 16 * 1024;

/// Sanity cap on a single feature record.
pub const MAX_FEATURE_BYTES: u32 = 512 * 1024 * 1024;

/// One hit of an index search.
#[derive(Debug, Clone, Copy, PartialEq, Eq, Structural)]
pub struct SearchResultItem {
    /// Byte offset of the feature record, relative to the data section.
    pub offset: usize,
    /// Ordinal of the feature in file order.
    pub index: usize,
}

/// How to search the index of a section.
#[derive(Debug, Clone, Copy, PartialEq, Eq, Structural)]
pub enum SearchPlan {
    /// Fetch the whole index in one range read and search it in memory.
    Whole { offset: u64, size: u64 },
    /// Traverse the index through a window, buffering one node group per
    /// underlying range read.
    Windowed { offset: u64, size: u64, group_bytes: usize },
}

/// How the index of a section is searched: small indexes are fetched whole,
/// large ones traversed node by node.
pub open spec fn plan_of(s: SectionModel) -> core::result::Result<SearchPlan, Fault> {
    if s.index_size == 0 {
        Err(Fault::Format("section has no spatial index"@))
    } else if s.index_size <= SMALL_INDEX_BYTES {
        Ok(SearchPlan::Whole { offset: s.index_offset, size: s.index_size })
    } else {
        Ok(
            SearchPlan::Windowed {
                offset: s.index_offset,
                size: s.index_size,
                group_bytes: if s.node_size <= 2 {
                    80
                } else {
                    (40 * s.node_size) as usize
                },
            },
        )
    }
}

/// `s` with `x` put behind every hit that does not lie after it.
pub open spec fn insert_by_offset(s: Seq<SearchResultItem>, x: SearchResultItem) -> Seq<
    SearchResultItem,
>
    decreases s.len(),
{
    if s.len() == 0 || s.last().offset <= x.offset {
        s.push(x)
    } else {
        insert_by_offset(s.drop_last(), x).push(s.last())
    }
}

/// The hits in ascending order of their offset, hits of one offset in the
/// order in which they came.
pub open spec fn by_offset(s: Seq<SearchResultItem>) -> Seq<SearchResultItem>
    decreases s.len(),
{
    if s.len() == 0 {
        s
    } else {
        insert_by_offset(by_offset(s.drop_last()), s.last())
    }
}

/// Offsets do not descend.
pub open spec fn ascending(s: Seq<SearchResultItem>) -> bool {
    forall|i: int, j: int| 0 <= i <= j < s.len() ==> (#[trigger] s[i]).offset <= (#[trigger] s[j]).offset
}

/// Sorting the hits only reorders them, and puts them in ascending order.
pub proof fn law_sorted_hits(s: Seq<SearchResultItem>)
    ensures
        by_offset(s).len() == s.len(),
        ascending(by_offset(s)),
        by_offset(s).to_multiset() == s.to_multiset(),
    decreases s.len(),
{
    broadcast use vstd::seq_lib::group_to_multiset_ensures;

    if s.len() > 0 {
        let init = s.drop_last();
        law_sorted_hits(init);
        lemma_insert_by_offset(by_offset(init), s.last());
        assert(s =~= init.push(s.last()));
    }
}

proof fn lemma_insert_by_offset(s: Seq<SearchResultItem>, x: SearchResultItem)
    requires
        ascending(s),
    ensures
        insert_by_offset(s, x).len() == s.len() + 1,
        ascending(insert_by_offset(s, x)),
        insert_by_offset(s, x).to_multiset() == s.to_multiset().insert(x),
        insert_by_offset(s, x).last().offset == if s.len() > 0 && s.last().offset > x.offset {
            s.last().offset
        } else {
            x.offset
        },
    decreases s.len(),
{
    broadcast use vstd::seq_lib::group_to_multiset_ensures;

    if s.len() > 0 && s.last().offset > x.offset {
        let init = s.drop_last();
        lemma_insert_by_offset(init, x);
        let t = insert_by_offset(init, x);
        assert(init.len() > 0 ==> init.last().offset <= s.last().offset);
        assert(t.last().offset <= s.last().offset);
        assert forall|i: int| 0 <= i < t.len() implies (#[trigger] t[i]).offset
            <= s.last().offset by {
            assert(t[i].offset <= t[t.len() - 1].offset);
        }
        assert(s =~= init.push(s.last()));
        assert(t.push(s.last()).to_multiset() =~= s.to_multiset().insert(x));
    }
}

/// Sorts the hits by their offset; hits of one offset keep their order.
pub fn sort_items(items: &Vec<SearchResultItem>) -> (out: Vec<SearchResultItem>)
    ensures
        out@ == by_offset(items@),
{
    let n: usize = items.len();
    let mut out: Vec<SearchResultItem> = Vec::new();
    let mut i: usize = 0;
    assert(items@.take(0) =~= Seq::<SearchResultItem>::empty());
    while i < n
        invariant
            i <= n,
            n == items@.len(),
            out@ == by_offset(items@.take(i as int)),
        decreases n - i,
    {
        let x: SearchResultItem = items[i];
        let ghost before = out@;
        proof {
            let now = items@.take(i + 1);
            assert(now.drop_last() =~= items@.take(i as int));
            assert(now.last() == x);
        }
        let mut k: usize = out.len();
        proof {
            assert(before.take(k as int) =~= before);
            assert(insert_by_offset(before, x) + before.skip(k as int) =~= insert_by_offset(
                before,
                x,
            ));
        }
        while k > 0 && out[k - 1].offset > x.offset
            invariant
                k <= out@.len(),
                out@ == before,
                insert_by_offset(before, x) == insert_by_offset(before.take(k as int), x)
                    + before.skip(k as int),
            decreases k,
        {
            proof {
                let part = before.take(k as int);
                assert(part.drop_last() =~= before.take(k - 1));
                assert(insert_by_offset(part, x) + before.skip(k as int) =~= insert_by_offset(
                    before.take(k - 1),
                    x,
                ) + before.skip(k - 1));
            }
            k = k - 1;
        }
        out.insert(k, x);
        assert(out@ =~= insert_by_offset(before.take(k as int), x) + before.skip(k as int));
        i = i + 1;
    }
    assert(items@.take(n as int) =~= items@);
    out
}

impl FgbSection {
    /// How to search the index of this section.
    pub fn search_plan(&self) -> (r: Result<SearchPlan>)
        ensures
            match r {
                Ok(p) => plan_of(self@) == core::result::Result::<SearchPlan, Fault>::Ok(p),
                Err(e) => plan_of(self@) == core::result::Result::<SearchPlan, Fault>::Err(e@),
            },
    {
        if !self.has_index() {
            return Err(Error::format("section has no spatial index"));
        }
        if self.index_size <= SMALL_INDEX_BYTES {
            return Ok(SearchPlan::Whole { offset: self.index_offset, size: self.index_size });
        }
        let wide: usize = if self.node_size < 2 {
            2
        } else {
            self.node_size as usize
        };
        Ok(
            SearchPlan::Windowed {
                offset: self.index_offset,
                size: self.index_size,
                group_bytes: wide * 40,
            },
        )
    }
}

/// Reading the size-prefixed feature record at absolute offset `abs`.
pub open spec fn feature_read(s: Session, abs: int) -> (
    Session,
    core::result::Result<Seq<u8>, Fault>,
) {
    let (s1, first) = ranged(s, abs, 4);
    match first {
        Err(f) => (s1, Err(f)),
        Ok(prefix) => {
            let len = field(prefix, 0, 4);
            if len > MAX_FEATURE_BYTES {
                (s1, Err(Fault::Format("feature too large: "@ + decimal(len))))
            } else {
                let (s2, second) = ranged(s1, abs + 4, len as int);
                match second {
                    Err(f) => (s2, Err(f)),
                    Ok(body) => (s2, checked_record(prefix + body)),
                }
            }
        },
    }
}

/// A record as it is, if it is a valid feature.
pub open spec fn checked_record(record: Seq<u8>) -> core::result::Result<Seq<u8>, Fault> {
    match fgb_feature(record) {
        Ok(_) => Ok(record),
        Err(text) => Err(Fault::Format("invalid feature record: "@ + text)),
    }
}

/// The end of the section, and that of a record of any size at the given
/// data-relative offset, can be written as numbers.
pub open spec fn addressable(sec: SectionModel, offset: usize) -> bool {
    &&& sec.offset + sec.size <= u64::MAX
    &&& sec.data_offset + offset + MAX_FEATURE_BYTES + 4 <= u64::MAX
    &&& offset + MAX_FEATURE_BYTES + 4 <= usize::MAX
}

/// Hits from `e` on that still belong to the group of the hit before them.
pub open spec fn group_end(items: Seq<SearchResultItem>, e: int) -> int
    decreases items.len() - e,
{
    if e < 1 || e >= items.len() || items[e].offset - items[e - 1].offset > COALESCE_GAP_BYTES {
        e
    } else {
        group_end(items, e + 1)
    }
}

/// Where the first read of a group ends: after the length prefix of its last
/// record, but not before a minimum size, as far as the section reaches.
pub open spec fn group_read_end(sec: SectionModel, first: int, last: int) -> int {
    let section_end = if sec.size > 0 {
        sec.offset + sec.size
    } else {
        u64::MAX as int
    };
    let least = last + 4;
    let padded = if least >= first + MIN_GROUP_READ_BYTES {
        least
    } else {
        first + MIN_GROUP_READ_BYTES
    };
    let limit = if section_end >= least {
        section_end
    } else {
        least
    };
    if padded <= limit {
        padded
    } else {
        limit
    }
}

/// The bytes of the group of hits `from..to`, up to the end of its last
/// record.
pub open spec fn group_bytes(
    s: Session,
    sec: SectionModel,
    items: Seq<SearchResultItem>,
    from: int,
    to: int,
) -> (Session, core::result::Result<Seq<u8>, Fault>) {
    let first = sec.data_offset + items[from].offset;
    let last = sec.data_offset + items[to - 1].offset;
    let (s1, got) = ranged(s, first, group_read_end(sec, first, last) - first);
    match got {
        Err(f) => (s1, Err(f)),
        Ok(buf) => {
            let last_len = field(buf, last - first, 4);
            let needed = last - first + 4 + last_len;
            if last_len > MAX_FEATURE_BYTES {
                (s1, Err(Fault::Format("feature too large: "@ + decimal(last_len))))
            } else if needed > buf.len() {
                let (s2, more) = ranged(s1, first + buf.len(), needed - buf.len());
                match more {
                    Err(f) => (s2, Err(f)),
                    Ok(more) => (s2, Ok(buf + more)),
                }
            } else {
                (s1, Ok(buf))
            }
        },
    }
}

/// The records of the hits `i..to`, cut out of the bytes that start at
/// absolute offset `first`.
pub open spec fn records_in(
    buf: Seq<u8>,
    first: int,
    sec: SectionModel,
    items: Seq<SearchResultItem>,
    i: int,
    to: int,
) -> core::result::Result<Seq<(u64, Seq<u8>)>, Fault>
    decreases to - i,
{
    if i >= to {
        Ok(Seq::empty())
    } else {
        let rel = sec.data_offset + items[i].offset - first;
        let len = field(buf, rel, 4);
        if rel + 4 > buf.len() {
            Err(Fault::Format("coalesced read out of bounds"@))
        } else if len > MAX_FEATURE_BYTES || rel + 4 + len > buf.len() {
            Err(Fault::Format("feature record out of bounds"@))
        } else {
            match checked_record(buf.subrange(rel, rel + 4 + len)) {
                Err(f) => Err(f),
                Ok(record) => match records_in(buf, first, sec, items, i + 1, to) {
                    Err(f) => Err(f),
                    Ok(rest) => Ok(seq![(items[i].index as u64, record)] + rest),
                },
            }
        }
    }
}

/// Reading the records of the hits from `from` on, group by group.
pub open spec fn features_read(
    s: Session,
    sec: SectionModel,
    items: Seq<SearchResultItem>,
    from: int,
) -> (Session, core::result::Result<Seq<(u64, Seq<u8>)>, Fault>)
    decreases items.len() - from,
{
    let to = group_end(items, from + 1);
    if from >= items.len() || !(from < to <= items.len()) {
        (s, Ok(Seq::empty()))
    } else {
        let (s1, got) = group_bytes(s, sec, items, from, to);
        match got {
            Err(f) => (s1, Err(f)),
            Ok(buf) => match records_in(
                buf,
                sec.data_offset + items[from].offset,
                sec,
                items,
                from,
                to,
            ) {
                Err(f) => (s1, Err(f)),
                Ok(records) => {
                    let (s2, rest) = features_read(s1, sec, items, to);
                    match rest {
                        Err(f) => (s2, Err(f)),
                        Ok(rest) => (s2, Ok(records + rest)),
                    }
                },
            },
        }
    }
}

proof fn lemma_group_end(items: Seq<SearchResultItem>, e: int)
    requires
        1 <= e <= items.len(),
    ensures
        e <= group_end(items, e) <= items.len(),
    decreases items.len() - e,
{
    if e < items.len() && items[e].offset - items[e - 1].offset <= COALESCE_GAP_BYTES {
        lemma_group_end(items, e + 1);
    }
}

/// Records with their ordinals as mathematical values.
pub open spec fn records_of(v: Seq<(u64, Vec<u8>)>) -> Seq<(u64, Seq<u8>)> {
    Seq::new(v.len(), |i: int| (v[i].0, v[i].1@))
}

/// The outcome of reading records.
pub open spec fn records_outcome(r: Result<Vec<(u64, Vec<u8>)>>) -> core::result::Result<
    Seq<(u64, Seq<u8>)>,
    Fault,
> {
    match r {
        Ok(v) => Ok(records_of(v@)),
        Err(e) => Err(e@),
    }
}

/// The record, if it was parsed as a feature.
pub fn accept_record(
    record: Vec<u8>,
    parsed: core::result::Result<FeatureFields, String>,
) -> (r: Result<Vec<u8>>)
    ensures
        outcome(r) == match parsed {
            Ok(_) => core::result::Result::<Seq<u8>, Fault>::Ok(record@),
            Err(e) => core::result::Result::<Seq<u8>, Fault>::Err(
                Fault::Format("invalid feature record: "@ + e@),
            ),
        },
{
    match parsed {
        Ok(_) => Ok(record),
        Err(e) => {
            let mut text: String = "invalid feature record: ".to_owned();
            text.append(e.as_str());
            Err(Error::Format(text))
        },
    }
}

/// The record, if it is a valid feature.
fn check_record(record: Vec<u8>) -> (r: Result<Vec<u8>>)
    ensures
        outcome(r) == checked_record(record@),
{
    let parsed: core::result::Result<FeatureFields, String> = feature_fields(record.as_slice());
    accept_record(record, parsed)
}

impl FgbSection {
    /// Read one size-prefixed feature record at data-relative `offset`.
    /// Returns the full size-prefixed buffer.
    pub fn read_feature(&self, r: &mut SparseReader, stats: &mut IoStats, offset: u64) -> (res:
        Result<Vec<u8>>)
        requires
            old(r).wf(),
            self@.data_offset + offset <= u64::MAX,
        ensures
            final(r).wf(),
            (session(*final(r), *final(stats)), outcome(res)) == feature_read(
                session(*old(r), *old(stats)),
                self@.data_offset + offset,
            ),
    {
        let abs: u64 = self.data_offset + offset;
        let mut buf: Vec<u8> = read_range(r, stats, abs, 4)?;
        let len: u32 = get_u32(buf.as_slice(), 0);
        if len > MAX_FEATURE_BYTES {
            return Err(Error::Format(with_decimal("feature too large: ", len as u64)));
        }
        let mut body: Vec<u8> = read_range(r, stats, abs + 4, len as usize)?;
        buf.append(&mut body);
        check_record(buf)
    }

    /// Whether the records up to data-relative `offset` can be addressed.
    pub fn can_address(&self, offset: usize) -> (r: bool)
        ensures
            r == addressable(self@, offset),
    {
        let most: u64 = MAX_FEATURE_BYTES as u64 + 4;
        self.size <= u64::MAX - self.offset && offset as u64 <= u64::MAX - most && self.data_offset
            <= u64::MAX - most - offset as u64 && offset <= usize::MAX - most as usize
    }

    /// The bytes of one group of hits.
    fn read_group(
        &self,
        r: &mut SparseReader,
        stats: &mut IoStats,
        items: &Vec<SearchResultItem>,
        from: usize,
        to: usize,
    ) -> (res: Result<Vec<u8>>)
        requires
            old(r).wf(),
            from < to <= items@.len(),
            ascending(items@),
            addressable(self@, items@[to - 1].offset),
        ensures
            final(r).wf(),
            (session(*final(r), *final(stats)), outcome(res)) == group_bytes(
                session(*old(r), *old(stats)),
                self@,
                items@,
                from as int,
                to as int,
            ),
    {
        let section_end: u64 = if self.size > 0 {
            self.offset + self.size
        } else {
            u64::MAX
        };
        assert(items@[from as int].offset <= items@[to - 1].offset);
        let first: u64 = self.data_offset + items[from].offset as u64;
        let last: u64 = self.data_offset + items[to - 1].offset as u64;
        // read through the last feature's length prefix, padding small
        // groups up to a minimum request size (one round trip beats a
        // tiny read + follow-up for the body)
        let least: u64 = last + 4;
        let padded: u64 = if least >= first + MIN_GROUP_READ_BYTES {
            least
        } else {
            first + MIN_GROUP_READ_BYTES
        };
        let limit: u64 = if section_end >= least {
            section_end
        } else {
            least
        };
        let read_end: u64 = if padded <= limit {
            padded
        } else {
            limit
        };
        let mut buf: Vec<u8> = read_range(r, stats, first, (read_end - first) as usize)?;

        // the last feature may extend beyond what we have
        let last_in_buf: usize = (last - first) as usize;
        let last_len: u32 = get_u32(buf.as_slice(), last_in_buf);
        if last_len > MAX_FEATURE_BYTES {
            return Err(Error::Format(with_decimal("feature too large: ", last_len as u64)));
        }
        let needed: usize = last_in_buf + 4 + last_len as usize;
        let have: usize = buf.len();
        if needed > have {
            let mut more: Vec<u8> = read_range(r, stats, first + have as u64, needed - have)?;
            buf.append(&mut more);
        }
        Ok(buf)
    }

    /// The records of one group of hits, cut out of its bytes.
    fn cut_group(
        &self,
        buf: &Vec<u8>,
        items: &Vec<SearchResultItem>,
        from: usize,
        to: usize,
    ) -> (res: Result<Vec<(u64, Vec<u8>)>>)
        requires
            from < to <= items@.len(),
            ascending(items@),
            addressable(self@, items@[to - 1].offset),
        ensures
            records_outcome(res) == records_in(
                buf@,
                self@.data_offset + items@[from as int].offset,
                self@,
                items@,
                from as int,
                to as int,
            ),
    {
        let mut out: Vec<(u64, Vec<u8>)> = Vec::new();
        let size: usize = buf.len();
        let ghost first = self@.data_offset + items@[from as int].offset;
        let ghost whole = records_in(buf@, first, self@, items@, from as int, to as int);
        let base: usize = items[from].offset;
        let mut i: usize = from;
        while i < to
            invariant
                from <= i <= to <= items@.len(),
                from < to,
                size == buf@.len(),
                ascending(items@),
                addressable(self@, items@[to - 1].offset),
                base == items@[from as int].offset,
                first == self@.data_offset + base,
                whole == records_in(buf@, first, self@, items@, from as int, to as int),
                match whole {
                    Ok(all) => records_in(
                        buf@,
                        first,
                        self@,
                        items@,
                        i as int,
                        to as int,
                    ) matches Ok(rest) && all == records_of(out@) + rest,
                    Err(f) => records_in(buf@, first, self@, items@, i as int, to as int)
                        == core::result::Result::<Seq<(u64, Seq<u8>)>, Fault>::Err(f),
                },
            decreases to - i,
        {
            let item: SearchResultItem = items[i];
            assert(items@[from as int].offset <= items@[i as int].offset);
            assert(items@[i as int].offset <= items@[to - 1].offset);
            let rel: usize = item.offset - base;
            if size < 4 || rel > size - 4 {
                return Err(Error::format("coalesced read out of bounds"));
            }
            let len: u32 = get_u32(buf.as_slice(), rel);
            if len > MAX_FEATURE_BYTES || len as usize > size - 4 - rel {
                return Err(Error::format("feature record out of bounds"));
            }
            let record: Vec<u8> = slice_to_vec(
                slice_subrange(buf.as_slice(), rel, rel + 4 + len as usize),
            );
            let record: Vec<u8> = check_record(record)?;
            let ghost before = records_of(out@);
            let ghost added = (item.index as u64, record@);
            out.push((item.index as u64, record));
            i = i + 1;
            proof {
                assert(records_of(out@) =~= before.push(added));
                if whole is Ok {
                    let rest = records_in(buf@, first, self@, items@, i as int, to as int)->Ok_0;
                    assert(before + (seq![added] + rest) =~= records_of(out@) + rest);
                }
            }
        }
        assert(records_of(out@) + Seq::<(u64, Seq<u8>)>::empty() =~= records_of(out@));
        Ok(out)
    }

    /// Read many feature records with range coalescing: consecutive hits
    /// whose gap is at most [`COALESCE_GAP_BYTES`] share one range read
    /// (over-reading the skipped bytes), the way an HTTP reader would
    /// batch requests. Returns `(ordinal, size-prefixed buffer)` pairs in
    /// offset order.
    pub fn read_features(
        &self,
        r: &mut SparseReader,
        stats: &mut IoStats,
        items: &Vec<SearchResultItem>,
    ) -> (res: Result<Vec<(u64, Vec<u8>)>>)
        requires
            old(r).wf(),
            ascending(items@),
            items@.len() > 0 ==> addressable(self@, items@.last().offset),
        ensures
            final(r).wf(),
            (session(*final(r), *final(stats)), records_outcome(res)) == features_read(
                session(*old(r), *old(stats)),
                self@,
                items@,
                0,
            ),
    {
        let n: usize = items.len();
        let mut out: Vec<(u64, Vec<u8>)> = Vec::new();
        let ghost start = session(*r, *stats);
        let ghost whole = features_read(start, self@, items@, 0);
        let mut group_start: usize = 0;
        assert(records_of(out@) =~= Seq::<(u64, Seq<u8>)>::empty());
        proof {
            if whole.1 is Ok {
                assert(records_of(out@) + whole.1->Ok_0 =~= whole.1->Ok_0);
            }
        }
        while group_start < n
            invariant
                r.wf(),
                n == items@.len(),
                group_start <= n,
                ascending(items@),
                items@.len() > 0 ==> addressable(self@, items@.last().offset),
                start == session(*old(r), *old(stats)),
                whole == features_read(start, self@, items@, 0),
                ({
                    let rest = features_read(
                        session(*r, *stats),
                        self@,
                        items@,
                        group_start as int,
                    );
                    &&& rest.0 == whole.0
                    &&& match whole.1 {
                        Ok(all) => rest.1 matches Ok(rest) && all == records_of(out@) + rest,
                        Err(f) => rest.1 == core::result::Result::<
                            Seq<(u64, Seq<u8>)>,
                            Fault,
                        >::Err(f),
                    }
                }),
            decreases n - group_start,
        {
            // grow the group while gaps stay small
            let mut to: usize = group_start + 1;
            proof {
                lemma_group_end(items@, group_start + 1);
            }
            while to < n && (items[to].offset - items[to - 1].offset) as u64 <= COALESCE_GAP_BYTES
                invariant
                    n == items@.len(),
                    group_start < to <= n,
                    ascending(items@),
                    group_end(items@, to as int) == group_end(items@, group_start + 1),
                decreases n - to,
            {
                to = to + 1;
                assert(to < n ==> items@[to - 1].offset <= items@[to as int].offset);
            }
            assert(items@[to - 1].offset <= items@[n - 1].offset);
            let buf: Vec<u8> = self.read_group(r, stats, items, group_start, to)?;
            let mut records: Vec<(u64, Vec<u8>)> = self.cut_group(&buf, items, group_start, to)?;
            let ghost before = records_of(out@);
            let ghost added = records_of(records@);
            out.append(&mut records);
            group_start = to;
            proof {
                assert(records_of(out@) =~= before + added);
                if whole.1 is Ok {
                    let rest = features_read(session(*r, *stats), self@, items@, to as int).1->Ok_0;
                    assert(before + (added + rest) =~= records_of(out@) + rest);
                }
            }
        }
        assert(records_of(out@) + Seq::<(u64, Seq<u8>)>::empty() =~= records_of(out@));
        Ok(out)
    }
}

/// The size-prefixed record that stands in a file at `abs`.
pub open spec fn record_at(file: Seq<u8>, abs: int) -> Seq<u8> {
    file.subrange(abs, abs + 4 + field(file, abs, 4))
}

/// The record at `abs` ends inside the file.
pub open spec fn fits_in(file: Seq<u8>, abs: int) -> bool {
    0 <= abs && abs + 4 + field(file, abs, 4) <= file.len()
}

/// What can be read is part of the file.
pub open spec fn reads_file(s: Session, file: Seq<u8>) -> bool {
    &&& chunks_wf(s.source.chunks)
    &&& agrees(s.source.chunks, file)
    &&& s.source.len == file.len()
}

/// A range that was read is the range of the file.
pub proof fn lemma_ranged_is_the_file(s: Session, file: Seq<u8>, offset: int, n: int)
    requires
        reads_file(s, file),
        0 <= offset,
        0 <= n,
    ensures
        reads_file(ranged(s, offset, n).0, file),
        ranged(s, offset, n).1 matches Ok(b) ==> b.len() == n && (n > 0 ==> offset + n
            <= file.len() && b == file.subrange(offset, offset + n)),
{
    if ranged(s, offset, n).1 is Ok {
        law_reads_are_the_file(s.source, file, offset, n);
    }
}

/// A feature record that was read is the record of the file.
pub proof fn law_feature_is_the_file(s: Session, file: Seq<u8>, abs: int)
    requires
        reads_file(s, file),
        0 <= abs,
        feature_read(s, abs).1 is Ok,
    ensures
        feature_read(s, abs).1->Ok_0 == record_at(file, abs),
        abs + 4 + field(file, abs, 4) <= file.len(),
        reads_file(feature_read(s, abs).0, file),
{
    lemma_ranged_is_the_file(s, file, abs, 4);
    let (s1, first) = ranged(s, abs, 4);
    let prefix = first->Ok_0;
    let len = field(prefix, 0, 4);
    assert(prefix.subrange(0, 4) =~= prefix);
    lemma_ranged_is_the_file(s1, file, abs + 4, len as int);
    let body = ranged(s1, abs + 4, len as int).1->Ok_0;
    assert(prefix + body =~= record_at(file, abs));
}

/// The bytes of a group are a run of the file that reaches to the end of the
/// last record.
proof fn lemma_group_is_the_file(
    s: Session,
    sec: SectionModel,
    items: Seq<SearchResultItem>,
    file: Seq<u8>,
    from: int,
    to: int,
)
    requires
        reads_file(s, file),
        ascending(items),
        0 <= from < to <= items.len(),
        group_bytes(s, sec, items, from, to).1 is Ok,
    ensures
        reads_file(group_bytes(s, sec, items, from, to).0, file),
        ({
            let first = sec.data_offset + items[from].offset;
            let buf = group_bytes(s, sec, items, from, to).1->Ok_0;
            first + buf.len() <= file.len() && buf == file.subrange(first, first + buf.len())
        }),
{
    let first = sec.data_offset + items[from].offset;
    let last = sec.data_offset + items[to - 1].offset;
    assert(items[from].offset <= items[to - 1].offset);
    let n = group_read_end(sec, first, last) - first;
    lemma_ranged_is_the_file(s, file, first, n);
    let (s1, got) = ranged(s, first, n);
    let buf = got->Ok_0;
    let needed = last - first + 4 + field(buf, last - first, 4);
    if needed > buf.len() {
        lemma_ranged_is_the_file(s1, file, first + buf.len(), needed - buf.len());
        let more = ranged(s1, first + buf.len(), needed - buf.len()).1->Ok_0;
        assert(buf + more =~= file.subrange(first, first + needed));
    }
}

proof fn lemma_records_are_the_file(
    buf: Seq<u8>,
    first: int,
    sec: SectionModel,
    items: Seq<SearchResultItem>,
    file: Seq<u8>,
    i: int,
    to: int,
)
    requires
        0 <= first,
        first + buf.len() <= file.len(),
        buf == file.subrange(first, first + buf.len()),
        0 <= i <= to <= items.len(),
        forall|j: int| i <= j < to ==> first <= sec.data_offset + (#[trigger] items[j]).offset,
        records_in(buf, first, sec, items, i, to) is Ok,
    ensures
        ({
            let out = records_in(buf, first, sec, items, i, to)->Ok_0;
            &&& out.len() == to - i
            &&& forall|j: int|
                0 <= j < to - i ==> #[trigger] out[j] == (
                    items[i + j].index as u64,
                    record_at(file, sec.data_offset + items[i + j].offset),
                )
            &&& forall|j: int|
                i <= j < to ==> fits_in(file, sec.data_offset + (#[trigger] items[j]).offset)
        }),
    decreases to - i,
{
    if i < to {
        let rel = sec.data_offset + items[i].offset - first;
        let len = field(buf, rel, 4);
        assert(first <= sec.data_offset + items[i].offset);
        assert(buf.subrange(rel, rel + 4) =~= file.subrange(first + rel, first + rel + 4));
        assert(buf.subrange(rel, rel + 4 + len) =~= record_at(file, first + rel));
        lemma_records_are_the_file(buf, first, sec, items, file, i + 1, to);
        let rest = records_in(buf, first, sec, items, i + 1, to)->Ok_0;
        let out = records_in(buf, first, sec, items, i, to)->Ok_0;
        assert forall|j: int| 0 <= j < to - i implies #[trigger] out[j] == (
            items[i + j].index as u64,
            record_at(file, sec.data_offset + items[i + j].offset),
        ) by {
            if j > 0 {
                assert(out[j] == rest[j - 1]);
            }
        }
    }
}

/// Coalescing does not change what is read: with each hit comes its ordinal
/// and the record that stands at its offset in the file, as
/// [`FgbSection::read_feature`] would give it, in the order of the hits.
pub proof fn law_features_are_the_file(
    s: Session,
    sec: SectionModel,
    items: Seq<SearchResultItem>,
    file: Seq<u8>,
    from: int,
)
    requires
        reads_file(s, file),
        ascending(items),
        0 <= from <= items.len(),
        features_read(s, sec, items, from).1 is Ok,
    ensures
        ({
            let out = features_read(s, sec, items, from).1->Ok_0;
            &&& out.len() == items.len() - from
            &&& forall|j: int|
                0 <= j < items.len() - from ==> #[trigger] out[j] == (
                    items[from + j].index as u64,
                    record_at(file, sec.data_offset + items[from + j].offset),
                )
            &&& forall|j: int|
                from <= j < items.len() ==> fits_in(
                    file,
                    sec.data_offset + (#[trigger] items[j]).offset,
                )
        }),
    decreases items.len() - from,
{
    if from < items.len() {
        lemma_group_end(items, from + 1);
        let to = group_end(items, from + 1);
        let first = sec.data_offset + items[from].offset;
        let (s1, got) = group_bytes(s, sec, items, from, to);
        lemma_group_is_the_file(s, sec, items, file, from, to);
        assert forall|j: int| from <= j < to implies first <= sec.data_offset + (
        #[trigger] items[j]).offset by {
            assert(items[from].offset <= items[j].offset);
        }
        lemma_records_are_the_file(got->Ok_0, first, sec, items, file, from, to);
        law_features_are_the_file(s1, sec, items, file, to);
        let records = records_in(got->Ok_0, first, sec, items, from, to)->Ok_0;
        let rest = features_read(s1, sec, items, to).1->Ok_0;
        let out = features_read(s, sec, items, from).1->Ok_0;
        assert forall|j: int| 0 <= j < items.len() - from implies #[trigger] out[j] == (
            items[from + j].index as u64,
            record_at(file, sec.data_offset + items[from + j].offset),
        ) by {
            if j < to - from {
                assert(out[j] == records[j]);
            } else {
                assert(out[j] == rest[j - (to - from)]);
            }
        }
    }
}

/// With the whole file in the cache, a range of it is read.
pub proof fn lemma_whole_ranged(s: Session, file: Seq<u8>, offset: int, n: int)
    requires
        s.source == whole_file(file),
        0 < file.len() < 0x8000_0000_0000_0000,
        0 <= offset,
        0 <= n,
        offset + n <= file.len(),
    ensures
        reads_file(s, file),
        ranged(s, offset, n).0.source == s.source,
        ranged(s, offset, n).1 == core::result::Result::<Seq<u8>, Fault>::Ok(
            file.subrange(offset, offset + n),
        ),
{
    law_whole_file_reads(file, 0, 1);
    assert(file.subrange(0, file.len() as int) =~= file);
    if n > 0 {
        law_whole_file_reads(file, offset, n);
    } else {
        assert(file.subrange(offset, offset) =~= Seq::<u8>::empty());
    }
}

/// The number of runs of neighbouring hits from `from` on: a run ends where
/// the gap to the next hit is too large for one read.
pub open spec fn runs_of(items: Seq<SearchResultItem>, from: int) -> nat
    decreases items.len() - from,
{
    let to = group_end(items, from + 1);
    if from >= items.len() || !(from < to <= items.len()) {
        0
    } else {
        1 + runs_of(items, to)
    }
}

/// Coalescing saves requests: each run of neighbouring hits takes at most two,
/// and no hits take none.
pub proof fn law_runs_take_two_requests(
    s: Session,
    sec: SectionModel,
    items: Seq<SearchResultItem>,
    from: int,
)
    requires
        0 <= from <= items.len(),
        s.stats.requests + 2 * runs_of(items, from) <= u64::MAX,
    ensures
        s.stats.requests <= features_read(s, sec, items, from).0.stats.requests <= s.stats.requests
            + 2 * runs_of(items, from),
    decreases items.len() - from,
{
    if from < items.len() {
        lemma_group_end(items, from + 1);
        let to = group_end(items, from + 1);
        let s1 = group_bytes(s, sec, items, from, to).0;
        assert(s.stats.requests <= s1.stats.requests <= s.stats.requests + 2);
        law_runs_take_two_requests(s1, sec, items, to);
    }
}

/// A valid feature record stands in a file at `abs`.
pub open spec fn is_record(file: Seq<u8>, abs: int) -> bool {
    &&& 0 <= abs
    &&& abs + 4 <= file.len()
    &&& field(file, abs, 4) <= MAX_FEATURE_BYTES
    &&& abs + 4 + field(file, abs, 4) <= file.len()
    &&& fgb_feature(record_at(file, abs)) is Ok
}

/// Every hit is a valid record of the section, and records do not overlap.
pub open spec fn hits_are_records(
    file: Seq<u8>,
    sec: SectionModel,
    items: Seq<SearchResultItem>,
) -> bool {
    &&& forall|i: int|
        0 <= i < items.len() ==> is_record(file, sec.data_offset + (#[trigger] items[i]).offset)
    &&& forall|i: int, j: int|
        0 <= i <= j < items.len() ==> (#[trigger] items[i]).offset == (#[trigger] items[j]).offset
            || items[i].offset + 4 + field(file, sec.data_offset + items[i].offset, 4)
            <= items[j].offset
}

proof fn lemma_records_are_cut(
    file: Seq<u8>,
    sec: SectionModel,
    items: Seq<SearchResultItem>,
    buf: Seq<u8>,
    first: int,
    i: int,
    to: int,
)
    requires
        0 <= first,
        first + buf.len() <= file.len(),
        buf == file.subrange(first, first + buf.len()),
        0 <= i <= to <= items.len(),
        forall|j: int|
            i <= j < to ==> {
                let abs = sec.data_offset + (#[trigger] items[j]).offset;
                first <= abs && is_record(file, abs) && abs + 4 + field(file, abs, 4) <= first
                    + buf.len()
            },
    ensures
        records_in(buf, first, sec, items, i, to) is Ok,
    decreases to - i,
{
    if i < to {
        let abs = sec.data_offset + items[i].offset;
        let rel = abs - first;
        assert(buf.subrange(rel, rel + 4) =~= file.subrange(abs, abs + 4));
        assert(buf.subrange(rel, rel + 4 + field(file, abs, 4)) =~= record_at(file, abs));
        lemma_records_are_cut(file, sec, items, buf, first, i + 1, to);
    }
}

/// With the whole file at hand, the bytes of a group are read up to the end
/// of its last record at least.
proof fn lemma_group_bytes_are_read(
    s: Session,
    sec: SectionModel,
    items: Seq<SearchResultItem>,
    file: Seq<u8>,
    from: int,
    to: int,
)
    requires
        s.source == whole_file(file),
        file.len() < 0x8000_0000_0000_0000,
        0 < sec.size,
        sec.offset + sec.size <= file.len(),
        0 <= from < to <= items.len(),
        items[from].offset <= items[to - 1].offset,
        is_record(file, sec.data_offset + items[to - 1].offset),
    ensures
        ({
            let first = sec.data_offset + items[from].offset;
            let last = sec.data_offset + items[to - 1].offset;
            let (s1, got) = group_bytes(s, sec, items, from, to);
            &&& s1.source == s.source
            &&& got matches Ok(buf) && {
                &&& last + 4 + field(file, last, 4) <= first + buf.len() <= file.len()
                &&& buf == file.subrange(first, first + buf.len())
            }
        }),
{
    let first = sec.data_offset + items[from].offset;
    let last = sec.data_offset + items[to - 1].offset;
    let n = group_read_end(sec, first, last) - first;
    lemma_whole_ranged(s, file, first, n);
    let (s1, got) = ranged(s, first, n);
    let head = got->Ok_0;
    assert(head.subrange(last - first, last - first + 4) =~= file.subrange(last, last + 4));
    let needed = last - first + 4 + field(file, last, 4);
    if needed > n {
        lemma_whole_ranged(s1, file, first + n, needed - n);
        assert(head + file.subrange(first + n, first + needed) =~= file.subrange(
            first,
            first + needed,
        ));
    }
}

proof fn lemma_group_is_read(
    s: Session,
    sec: SectionModel,
    items: Seq<SearchResultItem>,
    file: Seq<u8>,
    from: int,
    to: int,
)
    requires
        s.source == whole_file(file),
        file.len() < 0x8000_0000_0000_0000,
        ascending(items),
        hits_are_records(file, sec, items),
        0 < sec.size,
        sec.offset + sec.size <= file.len(),
        0 <= from < to <= items.len(),
    ensures
        ({
            let first = sec.data_offset + items[from].offset;
            let (s1, got) = group_bytes(s, sec, items, from, to);
            &&& s1.source == s.source
            &&& got is Ok
            &&& records_in(got->Ok_0, first, sec, items, from, to) is Ok
        }),
{
    let first = sec.data_offset + items[from].offset;
    assert(items[from].offset <= items[to - 1].offset);
    lemma_group_bytes_are_read(s, sec, items, file, from, to);
    let buf = group_bytes(s, sec, items, from, to).1->Ok_0;
    assert forall|j: int| from <= j < to implies ({
        let abs = sec.data_offset + (#[trigger] items[j]).offset;
        first <= abs && is_record(file, abs) && abs + 4 + field(file, abs, 4) <= first + buf.len()
    }) by {
        assert(items[from].offset <= items[j].offset <= items[to - 1].offset);
    }
    lemma_records_are_cut(file, sec, items, buf, first, from, to);
}

/// Reading many records succeeds: with the whole file at hand, hits at valid
/// records of a section that lies in the file are all read. What comes is what
/// [`law_features_are_the_file`] says, in as many requests as
/// [`law_runs_take_two_requests`] says.
pub proof fn law_hits_are_read(
    s: Session,
    sec: SectionModel,
    items: Seq<SearchResultItem>,
    file: Seq<u8>,
    from: int,
)
    requires
        s.source == whole_file(file),
        file.len() < 0x8000_0000_0000_0000,
        ascending(items),
        hits_are_records(file, sec, items),
        0 < sec.size,
        sec.offset + sec.size <= file.len(),
        0 <= from <= items.len(),
    ensures
        features_read(s, sec, items, from).1 is Ok,
    decreases items.len() - from,
{
    if from < items.len() {
        lemma_group_end(items, from + 1);
        let to = group_end(items, from + 1);
        lemma_group_is_read(s, sec, items, file, from, to);
        law_hits_are_read(group_bytes(s, sec, items, from, to).0, sec, items, file, to);
    }
}

/// What is read of a part is read of the file at the place of the part.
proof fn lemma_part_ranged(
    s: Session,
    t: Session,
    file: Seq<u8>,
    part: Seq<u8>,
    at: int,
    offset: int,
    n: int,
)
    requires
        s.source == whole_file(file),
        t.source == whole_file(part),
        file.len() < 0x8000_0000_0000_0000,
        0 < part.len(),
        stands_at(file, at, part),
        0 <= offset,
        0 <= n,
        n == 0 ==> offset <= part.len(),
        ranged(t, offset, n).1 is Ok,
    ensures
        ranged(s, at + offset, n).1 == ranged(t, offset, n).1,
        ranged(s, at + offset, n).0.source == s.source,
        ranged(t, offset, n).0.source == t.source,
        ranged(t, offset, n).1->Ok_0.len() == n,
        offset + n <= part.len(),
{
    lemma_whole_ranged(t, part, 0, 0);
    lemma_ranged_is_the_file(t, part, offset, n);
    lemma_whole_ranged(t, part, offset, n);
    lemma_whole_ranged(s, file, at + offset, n);
    assert(file.subrange(at + offset, at + offset + n) =~= part.subrange(offset, offset + n));
}

/// A section is self-describing: where the bytes of a complete fgb stand in a
/// file, they open as the section that they are by themselves, with the same
/// header, index and data, moved to their place. So the body of an FGBO file
/// is the plain file, and each overview is a file of its own. `size` is what
/// the section is said to take.
pub proof fn law_section_is_a_file_of_its_own(
    s: Session,
    t: Session,
    file: Seq<u8>,
    part: Seq<u8>,
    at: u64,
    size: u64,
)
    requires
        s.source == whole_file(file),
        t.source == whole_file(part),
        file.len() < 0x8000_0000_0000_0000,
        stands_at(file, at as int, part),
        opened(t, 0, size).1 is Ok,
        opened(t, 0, size).1->Ok_0.data_offset <= part.len(),
    ensures
        ({
            let own = opened(t, 0, size).1->Ok_0;
            opened(s, at, size).1 == core::result::Result::<SectionModel, Fault>::Ok(
                SectionModel {
                    offset: at,
                    index_offset: (at + own.index_offset) as u64,
                    data_offset: (at + own.data_offset) as u64,
                    ..own
                },
            )
        }),
{
    if part.len() == 0 {
        assert(fetch(t.source, 0, 12) == Fetched::PastEnd { at: 0 });
    }
    lemma_part_ranged(s, t, file, part, at as int, 0, 12);
    let (t1, first) = ranged(t, 0, 12);
    let s1 = ranged(s, at as int, 12).0;
    let header_size = field(first->Ok_0, 8, 4) as int;
    lemma_part_ranged(s1, t1, file, part, at as int, 12, header_size);
    let own = opened(t, 0, size).1->Ok_0;
    let h = own.header;
    assert(own == section_with(0, size, header_size, h));
    assert(index_fits(h, at + 12 + header_size));
}

/// A feature record of a section is the same record in every file that the
/// section stands in.
pub proof fn law_record_moves_with_its_section(
    s: Session,
    t: Session,
    file: Seq<u8>,
    part: Seq<u8>,
    at: int,
    offset: int,
)
    requires
        s.source == whole_file(file),
        t.source == whole_file(part),
        file.len() < 0x8000_0000_0000_0000,
        stands_at(file, at, part),
        0 <= offset,
        feature_read(t, offset).1 is Ok,
    ensures
        feature_read(s, at + offset).1 == feature_read(t, offset).1,
{
    if part.len() == 0 {
        assert(fetch(t.source, offset, 4) == Fetched::PastEnd { at: offset });
    }
    lemma_part_ranged(s, t, file, part, at, offset, 4);
    let (t1, prefix) = ranged(t, offset, 4);
    let s1 = ranged(s, at + offset, 4).0;
    lemma_part_ranged(s1, t1, file, part, at, offset + 4, field(prefix->Ok_0, 0, 4) as int);
}

/// A reader that goes on behind the last record of the body comes to the
/// sentinel and fails there at once: what it takes for the length of a record
/// is more than any record has.
pub proof fn law_sentinel_stops_reading(s: Session, file: Seq<u8>, body_size: int)
    requires
        s.source == whole_file(file),
        file.len() < 0x8000_0000_0000_0000,
        stands_at(file, body_size, SENTINEL@),
    ensures
        feature_read(s, body_size).1 == core::result::Result::<Seq<u8>, Fault>::Err(
            Fault::Format("feature too large: "@ + decimal(0xFFFF_FFFF)),
        ),
{
    lemma_whole_ranged(s, file, body_size, 4);
    let prefix = ranged(s, body_size, 4).1->Ok_0;
    assert(prefix =~= SENTINEL@);
    assert(prefix.subrange(0, 4) =~= SENTINEL@);
    assert(field(prefix, 0, 4) == 0xFFFF_FFFF) by {
        reveal_with_fuel(le_value, 5);
    }
}

/// Column type codes of FlatGeobuf.
pub const COLUMN_BYTE: u8 = 0;

pub const COLUMN_UBYTE: u8 = 1;

pub const COLUMN_BOOL: u8 = 2;

pub const COLUMN_SHORT: u8 = 3;

pub const COLUMN_USHORT: u8 = 4;

pub const COLUMN_INT: u8 = 5;

pub const COLUMN_UINT: u8 = 6;

pub const COLUMN_LONG: u8 = 7;

pub const COLUMN_ULONG: u8 = 8;

pub const COLUMN_FLOAT: u8 = 9;

pub const COLUMN_DOUBLE: u8 = 10;

pub const COLUMN_STRING: u8 = 11;

pub const COLUMN_JSON: u8 = 12;

pub const COLUMN_DATETIME: u8 = 13;

pub const COLUMN_BINARY: u8 = 14;

/// An owned property value (FlatGeobuf column types). Floating-point values
/// are kept as their bit patterns.
#[derive(Debug, Clone, PartialEq)]
pub enum PropValue {
    Bool(bool),
    Byte(i8),
    UByte(u8),
    Short(i16),
    UShort(u16),
    Int(i32),
    UInt(u32),
    Long(i64),
    ULong(u64),
    /// The bits of a single-precision number.
    Float(u32),
    /// The bits of a double-precision number.
    Double(u64),
    String(String),
    Json(String),
    DateTime(String),
    Binary(Vec<u8>),
}

/// A property value as a mathematical value.
#[verifier::ext_equal]
pub enum PropModel {
    Bool(bool),
    Byte(int),
    UByte(int),
    Short(int),
    UShort(int),
    Int(int),
    UInt(int),
    Long(int),
    ULong(int),
    Float(int),
    Double(int),
    String(Seq<char>),
    Json(Seq<char>),
    DateTime(Seq<char>),
    Binary(Seq<u8>),
}

impl View for PropValue {
    type V = PropModel;

    open spec fn view(&self) -> PropModel {
        match *self {
            PropValue::Bool(v) => PropModel::Bool(v),
            PropValue::Byte(v) => PropModel::Byte(v as int),
            PropValue::UByte(v) => PropModel::UByte(v as int),
            PropValue::Short(v) => PropModel::Short(v as int),
            PropValue::UShort(v) => PropModel::UShort(v as int),
            PropValue::Int(v) => PropModel::Int(v as int),
            PropValue::UInt(v) => PropModel::UInt(v as int),
            PropValue::Long(v) => PropModel::Long(v as int),
            PropValue::ULong(v) => PropModel::ULong(v as int),
            PropValue::Float(v) => PropModel::Float(v as int),
            PropValue::Double(v) => PropModel::Double(v as int),
            PropValue::String(v) => PropModel::String(v@),
            PropValue::Json(v) => PropModel::Json(v@),
            PropValue::DateTime(v) => PropModel::DateTime(v@),
            PropValue::Binary(v) => PropModel::Binary(v@),
        }
    }
}

/// One decoded property: (column index, value).
pub type PropRow = Vec<(u16, PropValue)>;

/// A row as a mathematical value.
pub open spec fn row_model(row: Seq<(u16, PropValue)>) -> Seq<(u16, PropModel)> {
    Seq::new(row.len(), |i: int| (row[i].0, row[i].1@))
}

/// What a buffer that ends too soon or names no column is answered.
pub open spec fn malformed() -> Fault {
    Fault::Format("malformed properties buffer"@)
}

/// `n` read as a signed number of so many bytes.
pub open spec fn signed_value(n: nat, width: nat) -> int {
    if 2 * n < le_bound(width) {
        n as int
    } else {
        n - le_bound(width)
    }
}

/// The size of a value of a fixed-size column type.
pub open spec fn fixed_width(ty: u8) -> Option<int> {
    if ty == COLUMN_BYTE || ty == COLUMN_UBYTE || ty == COLUMN_BOOL {
        Some(1)
    } else if ty == COLUMN_SHORT || ty == COLUMN_USHORT {
        Some(2)
    } else if ty == COLUMN_INT || ty == COLUMN_UINT || ty == COLUMN_FLOAT {
        Some(4)
    } else if ty == COLUMN_LONG || ty == COLUMN_ULONG || ty == COLUMN_DOUBLE {
        Some(8)
    } else {
        None
    }
}

/// The value that the bytes `n` stand for in a fixed-size column.
pub open spec fn fixed_value(ty: u8, n: nat) -> PropModel {
    if ty == COLUMN_BYTE {
        PropModel::Byte(signed_value(n, 1))
    } else if ty == COLUMN_UBYTE {
        PropModel::UByte(n as int)
    } else if ty == COLUMN_BOOL {
        PropModel::Bool(n != 0)
    } else if ty == COLUMN_SHORT {
        PropModel::Short(signed_value(n, 2))
    } else if ty == COLUMN_USHORT {
        PropModel::UShort(n as int)
    } else if ty == COLUMN_INT {
        PropModel::Int(signed_value(n, 4))
    } else if ty == COLUMN_UINT {
        PropModel::UInt(n as int)
    } else if ty == COLUMN_FLOAT {
        PropModel::Float(n as int)
    } else if ty == COLUMN_LONG {
        PropModel::Long(signed_value(n, 8))
    } else if ty == COLUMN_ULONG {
        PropModel::ULong(n as int)
    } else {
        PropModel::Double(n as int)
    }
}

/// The value of column type `ty` that stands in `bytes` at `at`, and the
/// position after it.
pub open spec fn value_at(ty: u8, bytes: Seq<u8>, at: int) -> core::result::Result<
    (PropModel, int),
    Fault,
> {
    match fixed_width(ty) {
        Some(width) => if at + width > bytes.len() {
            Err(malformed())
        } else {
            Ok((fixed_value(ty, field(bytes, at, width)), at + width))
        },
        None => if ty > COLUMN_BINARY {
            Err(
                Fault::Format(
                    "unsupported column type <UNKNOWN "@ + decimal(ty as nat) + ">"@,
                ),
            )
        } else if at + 4 > bytes.len() {
            Err(malformed())
        } else {
            let len = field(bytes, at, 4);
            let body = bytes.subrange(at + 4, at + 4 + len);
            if at + 4 + len > bytes.len() {
                Err(malformed())
            } else if ty == COLUMN_BINARY {
                Ok((PropModel::Binary(body), at + 4 + len))
            } else if !valid_utf8(body) {
                Err(Fault::Format("invalid utf8 in property"@))
            } else if ty == COLUMN_JSON {
                Ok((PropModel::Json(decode_utf8(body)), at + 4 + len))
            } else if ty == COLUMN_DATETIME {
                Ok((PropModel::DateTime(decode_utf8(body)), at + 4 + len))
            } else {
                Ok((PropModel::String(decode_utf8(body)), at + 4 + len))
            }
        },
    }
}

/// The properties that stand in `bytes` from `at` on: column index and value
/// in turn, until less than an index is left.
pub open spec fn row_at(cols: Seq<ColumnModel>, bytes: Seq<u8>, at: int) -> core::result::Result<
    Seq<(u16, PropModel)>,
    Fault,
>
    decreases bytes.len() - at,
{
    if at + 2 > bytes.len() {
        Ok(Seq::empty())
    } else {
        let idx = field(bytes, at, 2);
        if idx >= cols.len() {
            Err(malformed())
        } else {
            match value_at(cols[idx as int].column_type, bytes, at + 2) {
                Err(f) => Err(f),
                Ok((value, next)) => match row_at(cols, bytes, next) {
                    Err(f) => Err(f),
                    Ok(rest) => Ok(seq![(idx as u16, value)] + rest),
                },
            }
        }
    }
}

/// The properties of a feature of a layer.
pub open spec fn properties_of(h: HeaderModel, f: FeatureModel) -> core::result::Result<
    Seq<(u16, PropModel)>,
    Fault,
> {
    match (h.columns, f.properties) {
        (Some(cols), Some(bytes)) => row_at(cols, bytes, 0),
        _ => Ok(Seq::empty()),
    }
}

fn malformed_error() -> (e: Error)
    ensures
        e@ == malformed(),
{
    Error::format("malformed properties buffer")
}

/// Decodes a value of a fixed-size column type from the number that its bytes
/// stand for.
fn decode_fixed(ty: u8, n: u64) -> (v: PropValue)
    requires
        fixed_width(ty) matches Some(w) && n < le_bound(w as nat),
    ensures
        v@ == fixed_value(ty, n as nat),
{
    proof {
        lemma_le_bounds();
    }
    if ty == COLUMN_BYTE {
        if n < 0x80 {
            PropValue::Byte(n as i8)
        } else {
            PropValue::Byte((n as i16 - 0x100) as i8)
        }
    } else if ty == COLUMN_UBYTE {
        PropValue::UByte(n as u8)
    } else if ty == COLUMN_BOOL {
        PropValue::Bool(n != 0)
    } else if ty == COLUMN_SHORT {
        if n < 0x8000 {
            PropValue::Short(n as i16)
        } else {
            PropValue::Short((n as i32 - 0x1_0000) as i16)
        }
    } else if ty == COLUMN_USHORT {
        PropValue::UShort(n as u16)
    } else if ty == COLUMN_INT {
        if n < 0x8000_0000 {
            PropValue::Int(n as i32)
        } else {
            PropValue::Int((n as i64 - 0x1_0000_0000) as i32)
        }
    } else if ty == COLUMN_UINT {
        PropValue::UInt(n as u32)
    } else if ty == COLUMN_FLOAT {
        PropValue::Float(n as u32)
    } else if ty == COLUMN_LONG {
        PropValue::Long(signed(n))
    } else if ty == COLUMN_ULONG {
        PropValue::ULong(n)
    } else {
        PropValue::Double(n)
    }
}

/// The size of a value of a fixed-size column type; 0 for the others.
fn fixed_size(ty: u8) -> (w: usize)
    ensures
        match fixed_width(ty) {
            Some(width) => w == width && 1 <= w <= 8,
            None => w == 0,
        },
{
    if ty == COLUMN_BYTE || ty == COLUMN_UBYTE || ty == COLUMN_BOOL {
        1
    } else if ty == COLUMN_SHORT || ty == COLUMN_USHORT {
        2
    } else if ty == COLUMN_INT || ty == COLUMN_UINT || ty == COLUMN_FLOAT {
        4
    } else if ty == COLUMN_LONG || ty == COLUMN_ULONG || ty == COLUMN_DOUBLE {
        8
    } else {
        0
    }
}

/// Decodes the value of column type `ty` at `at`; gives the position after
/// it.
fn decode_value(ty: u8, bytes: &Vec<u8>, at: usize) -> (r: Result<(PropValue, usize)>)
    requires
        at <= bytes@.len(),
    ensures
        match r {
            Ok((v, next)) => value_at(ty, bytes@, at as int) == core::result::Result::<
                (PropModel, int),
                Fault,
            >::Ok((v@, next as int)) && next <= bytes@.len(),
            Err(e) => value_at(ty, bytes@, at as int) == core::result::Result::<
                (PropModel, int),
                Fault,
            >::Err(e@),
        },
{
    let left: usize = bytes.len() - at;
    let width: usize = fixed_size(ty);
    if width > 0 {
        if width > left {
            return Err(malformed_error());
        }
        let n: u64 = get_le(bytes.as_slice(), at, width);
        proof {
            lemma_le_bytes_round_trip(bytes@.subrange(at as int, at + width));
        }
        return Ok((decode_fixed(ty, n), at + width));
    }
    if ty > COLUMN_BINARY {
        let mut text: String = with_decimal("unsupported column type <UNKNOWN ", ty as u64);
        text.append(">");
        return Err(Error::Format(text));
    }
    if left < 4 {
        return Err(malformed_error());
    }
    let len: usize = get_u32(bytes.as_slice(), at) as usize;
    if len > left - 4 {
        return Err(malformed_error());
    }
    let next: usize = at + 4 + len;
    let body: Vec<u8> = slice_to_vec(slice_subrange(bytes.as_slice(), at + 4, next));
    if ty == COLUMN_BINARY {
        return Ok((PropValue::Binary(body), next));
    }
    let ghost body_bytes = body@;
    match utf8_string(body) {
        None => Err(Error::format("invalid utf8 in property")),
        Some(s) => {
            proof {
                encode_utf8_decode_utf8(s@);
            }
            if ty == COLUMN_JSON {
                Ok((PropValue::Json(s), next))
            } else if ty == COLUMN_DATETIME {
                Ok((PropValue::DateTime(s), next))
            } else {
                Ok((PropValue::String(s), next))
            }
        },
    }
}

/// Decodes a properties buffer against columns.
fn decode_row(cols: &Vec<Column>, bytes: &Vec<u8>) -> (r: Result<PropRow>)
    ensures
        match r {
            Ok(row) => row_at(columns_of(cols@), bytes@, 0) == core::result::Result::<
                Seq<(u16, PropModel)>,
                Fault,
            >::Ok(row_model(row@)),
            Err(e) => row_at(columns_of(cols@), bytes@, 0) == core::result::Result::<
                Seq<(u16, PropModel)>,
                Fault,
            >::Err(e@),
        },
{
    let mut row: PropRow = Vec::new();
    let size: usize = bytes.len();
    let ghost models = columns_of(cols@);
    let ghost whole = row_at(models, bytes@, 0);
    let mut at: usize = 0;
    assert(row_model(row@) =~= Seq::<(u16, PropModel)>::empty());
    proof {
        if whole is Ok {
            assert(row_model(row@) + whole->Ok_0 =~= whole->Ok_0);
        }
    }
    while size - at >= 2
        invariant
            at <= size,
            size == bytes@.len(),
            models == columns_of(cols@),
            whole == row_at(models, bytes@, 0),
            match whole {
                Ok(all) => row_at(models, bytes@, at as int) matches Ok(rest) && all == row_model(
                    row@,
                ) + rest,
                Err(f) => row_at(models, bytes@, at as int) == core::result::Result::<
                    Seq<(u16, PropModel)>,
                    Fault,
                >::Err(f),
            },
        decreases size - at,
    {
        let idx: u16 = get_u16(bytes.as_slice(), at);
        if idx as usize >= cols.len() {
            return Err(malformed_error());
        }
        let ty: u8 = cols[idx as usize].column_type;
        assert(models[idx as int].column_type == ty);
        let (value, next): (PropValue, usize) = decode_value(ty, bytes, at + 2)?;
        let ghost before = row_model(row@);
        let ghost added = (idx, value@);
        row.push((idx, value));
        at = next;
        proof {
            assert(row_model(row@) =~= before.push(added));
            if whole is Ok {
                let rest = row_at(models, bytes@, at as int)->Ok_0;
                assert(before + (seq![added] + rest) =~= row_model(row@) + rest);
            }
        }
    }
    assert(row_model(row@) + Seq::<(u16, PropModel)>::empty() =~= row_model(row@));
    Ok(row)
}

/// Decode the properties buffer of a feature against the header's columns.
pub fn decode_properties(header: &Header, feature: &FeatureFields) -> (r: Result<PropRow>)
    ensures
        match r {
            Ok(row) => properties_of(header@, feature@) == core::result::Result::<
                Seq<(u16, PropModel)>,
                Fault,
            >::Ok(row_model(row@)),
            Err(e) => properties_of(header@, feature@) == core::result::Result::<
                Seq<(u16, PropModel)>,
                Fault,
            >::Err(e@),
        },
{
    let row: PropRow = Vec::new();
    assert(row_model(row@) =~= Seq::<(u16, PropModel)>::empty());
    match (&header.columns, &feature.properties) {
        (Some(cols), Some(bytes)) => decode_row(cols, bytes),
        _ => Ok(row),
    }
}

/// Parse a size-prefixed feature buffer (as returned by
/// [`FgbSection::read_feature`]).
pub fn feature_root(buf: &[u8]) -> (r: Result<FeatureFields>)
    ensures
        outcome(r) == match fgb_feature(buf@) {
            Ok(f) => core::result::Result::<FeatureModel, Fault>::Ok(f),
            Err(text) => core::result::Result::<FeatureModel, Fault>::Err(
                Fault::Format("invalid feature: "@ + text),
            ),
        },
{
    match feature_fields(buf) {
        Ok(f) => Ok(f),
        Err(e) => {
            let mut text: String = "invalid feature: ".to_owned();
            text.append(e.as_str());
            Err(Error::Format(text))
        },
    }
}

/// The columns of a layer, none if the header lists none.
pub open spec fn listed_columns(h: HeaderModel) -> Seq<ColumnModel> {
    match h.columns {
        Some(cols) => cols,
        None => Seq::empty(),
    }
}

/// Column names of a header with their types, in column-index order.
pub fn column_names(header: &Header) -> (out: Vec<Column>)
    ensures
        columns_of(out@) == listed_columns(header@),
{
    let mut out: Vec<Column> = Vec::new();
    match &header.columns {
        None => {
            assert(columns_of(out@) =~= Seq::<ColumnModel>::empty());
        },
        Some(cols) => {
            let n: usize = cols.len();
            let mut i: usize = 0;
            while i < n
                invariant
                    i <= n,
                    n == cols@.len(),
                    out@.len() == i,
                    forall|j: int| 0 <= j < i ==> (#[trigger] out@[j])@ == cols@[j]@,
                decreases n - i,
            {
                out.push(
                    Column {
                        name: cols[i].name.as_str().to_owned(),
                        column_type: cols[i].column_type,
                    },
                );
                i = i + 1;
            }
            assert(columns_of(out@) =~= columns_of(cols@));
        },
    }
    out
}

/// The name of a column; empty where there is no such column.
pub open spec fn column_name(cols: Seq<ColumnModel>, idx: u16) -> Seq<char> {
    if idx < cols.len() {
        cols[idx as int].name
    } else {
        Seq::empty()
    }
}

/// A row with column names in place of column indexes.
pub open spec fn named_model(cols: Seq<ColumnModel>, row: Seq<(u16, PropModel)>) -> Seq<
    (Seq<char>, PropModel),
> {
    Seq::new(row.len(), |i: int| (column_name(cols, row[i].0), row[i].1))
}

/// Named properties as mathematical values.
pub open spec fn named_of(props: Seq<(String, PropValue)>) -> Seq<(Seq<char>, PropModel)> {
    Seq::new(props.len(), |i: int| (props[i].0@, props[i].1@))
}

/// Puts column names in place of column indexes.
pub fn name_properties(cols: &Vec<Column>, row: PropRow) -> (out: Vec<(String, PropValue)>)
    ensures
        named_of(out@) == named_model(columns_of(cols@), row_model(row@)),
{
    let ghost rows = row_model(row@);
    let ghost models = columns_of(cols@);
    let mut out: Vec<(String, PropValue)> = Vec::new();
    for prop in it: row.into_iter()
        invariant
            models == columns_of(cols@),
            rows == row_model(it.seq()),
            out@.len() == it.index(),
            forall|j: int|
                0 <= j < out@.len() ==> (#[trigger] out@[j]).0@ == column_name(models, rows[j].0)
                    && out@[j].1@ == rows[j].1,
    {
        assert(rows[it.index() as int] == (prop.0, prop.1@));
        let (idx, value): (u16, PropValue) = prop;
        let name: String = if (idx as usize) < cols.len() {
            cols[idx as usize].name.as_str().to_owned()
        } else {
            String::new()
        };
        assert(idx < cols@.len() ==> models[idx as int].name == cols@[idx as int].name@);
        out.push((name, value));
    }
    assert(named_of(out@) =~= named_model(models, rows));
    out
}

// ---- properties come back --------------------------------------------------------

/// The number whose bytes stand for the signed number `n`.
pub open spec fn two_complement(n: int, width: nat) -> nat {
    if n < 0 {
        (n + le_bound(width)) as nat
    } else {
        n as nat
    }
}

/// The code of the column type that holds such a value.
pub open spec fn type_code(v: PropModel) -> u8 {
    match v {
        PropModel::Byte(_) => 0,
        PropModel::UByte(_) => 1,
        PropModel::Bool(_) => 2,
        PropModel::Short(_) => 3,
        PropModel::UShort(_) => 4,
        PropModel::Int(_) => 5,
        PropModel::UInt(_) => 6,
        PropModel::Long(_) => 7,
        PropModel::ULong(_) => 8,
        PropModel::Float(_) => 9,
        PropModel::Double(_) => 10,
        PropModel::String(_) => 11,
        PropModel::Json(_) => 12,
        PropModel::DateTime(_) => 13,
        PropModel::Binary(_) => 14,
    }
}

/// Bytes behind their number, which takes four bytes.
pub open spec fn counted(b: Seq<u8>) -> Seq<u8> {
    digits(b.len(), 4) + b
}

/// The bytes of a value in a row.
pub open spec fn value_bytes(v: PropModel) -> Seq<u8> {
    match v {
        PropModel::Bool(b) => seq![if b {
            1u8
        } else {
            0u8
        }],
        PropModel::Byte(n) => digits(two_complement(n, 1), 1),
        PropModel::UByte(n) => digits(two_complement(n, 1), 1),
        PropModel::Short(n) => digits(two_complement(n, 2), 2),
        PropModel::UShort(n) => digits(two_complement(n, 2), 2),
        PropModel::Int(n) => digits(two_complement(n, 4), 4),
        PropModel::UInt(n) => digits(two_complement(n, 4), 4),
        PropModel::Long(n) => digits(two_complement(n, 8), 8),
        PropModel::ULong(n) => digits(two_complement(n, 8), 8),
        PropModel::Float(n) => digits(two_complement(n, 4), 4),
        PropModel::Double(n) => digits(two_complement(n, 8), 8),
        PropModel::String(t) => counted(encode_utf8(t)),
        PropModel::Json(t) => counted(encode_utf8(t)),
        PropModel::DateTime(t) => counted(encode_utf8(t)),
        PropModel::Binary(b) => counted(b),
    }
}

/// The value is one that its column type can hold.
pub open spec fn is_in_range(v: PropModel) -> bool {
    match v {
        PropModel::Bool(_) => true,
        PropModel::Byte(n) => i8::MIN <= n <= i8::MAX,
        PropModel::UByte(n) => 0 <= n <= u8::MAX,
        PropModel::Short(n) => i16::MIN <= n <= i16::MAX,
        PropModel::UShort(n) => 0 <= n <= u16::MAX,
        PropModel::Int(n) => i32::MIN <= n <= i32::MAX,
        PropModel::UInt(n) => 0 <= n <= u32::MAX,
        PropModel::Long(n) => i64::MIN <= n <= i64::MAX,
        PropModel::ULong(n) => 0 <= n <= u64::MAX,
        PropModel::Float(n) => 0 <= n <= u32::MAX,
        PropModel::Double(n) => 0 <= n <= u64::MAX,
        PropModel::String(t) => encode_utf8(t).len() <= u32::MAX,
        PropModel::Json(t) => encode_utf8(t).len() <= u32::MAX,
        PropModel::DateTime(t) => encode_utf8(t).len() <= u32::MAX,
        PropModel::Binary(b) => b.len() <= u32::MAX,
    }
}

/// The bytes of a row: of each property the column in two bytes, and the
/// value.
pub open spec fn row_bytes(row: Seq<(u16, PropModel)>) -> Seq<u8>
    decreases row.len(),
{
    if row.len() == 0 {
        Seq::empty()
    } else {
        let (idx, value) = row[0];
        digits(idx as nat, 2) + value_bytes(value) + row_bytes(row.drop_first())
    }
}

/// Every property of the row names a column of its type and is in its range.
pub open spec fn row_fits(cols: Seq<ColumnModel>, row: Seq<(u16, PropModel)>) -> bool {
    forall|i: int|
        0 <= i < row.len() ==> {
            let (idx, value) = #[trigger] row[i];
            &&& idx < cols.len()
            &&& cols[idx as int].column_type == type_code(value)
            &&& is_in_range(value)
        }
}

proof fn lemma_digits_stand(buf: Seq<u8>, at: int, n: nat, width: nat)
    requires
        stands_at(buf, at, digits(n, width)),
        n < le_bound(width),
    ensures
        field(buf, at, width as int) == n,
{
    law_numbers_are_little_endian(n, width);
    lemma_stands_number(buf, at, n, width);
}

proof fn lemma_counted_stands(buf: Seq<u8>, at: int, b: Seq<u8>)
    requires
        stands_at(buf, at, counted(b)),
        b.len() <= u32::MAX,
    ensures
        field(buf, at, 4) == b.len(),
        buf.subrange(at + 4, at + 4 + b.len()) == b,
{
    lemma_le_bounds();
    lemma_stands_split(buf, at, digits(b.len(), 4), b);
    lemma_digits_stand(buf, at, b.len(), 4);
}

proof fn lemma_value_stands(buf: Seq<u8>, at: int, v: PropModel)
    requires
        stands_at(buf, at, value_bytes(v)),
        is_in_range(v),
    ensures
        value_at(type_code(v), buf, at) == core::result::Result::<(PropModel, int), Fault>::Ok(
            (v, at + value_bytes(v).len()),
        ),
{
    lemma_le_bounds();
    match v {
        PropModel::Bool(b) => {
            let n: nat = if b {
                1
            } else {
                0
            };
            lemma_pow0(256);
            assert(digits(n, 1) =~= value_bytes(v));
            lemma_digits_stand(buf, at, n, 1);
        },
        PropModel::Byte(n) => lemma_digits_stand(buf, at, two_complement(n, 1), 1),
        PropModel::UByte(n) => lemma_digits_stand(buf, at, two_complement(n, 1), 1),
        PropModel::Short(n) => lemma_digits_stand(buf, at, two_complement(n, 2), 2),
        PropModel::UShort(n) => lemma_digits_stand(buf, at, two_complement(n, 2), 2),
        PropModel::Int(n) => lemma_digits_stand(buf, at, two_complement(n, 4), 4),
        PropModel::UInt(n) => lemma_digits_stand(buf, at, two_complement(n, 4), 4),
        PropModel::Long(n) => lemma_digits_stand(buf, at, two_complement(n, 8), 8),
        PropModel::ULong(n) => lemma_digits_stand(buf, at, two_complement(n, 8), 8),
        PropModel::Float(n) => lemma_digits_stand(buf, at, two_complement(n, 4), 4),
        PropModel::Double(n) => lemma_digits_stand(buf, at, two_complement(n, 8), 8),
        PropModel::String(t) => {
            lemma_counted_stands(buf, at, encode_utf8(t));
            encode_utf8_valid_utf8(t);
            encode_utf8_decode_utf8(t);
        },
        PropModel::Json(t) => {
            lemma_counted_stands(buf, at, encode_utf8(t));
            encode_utf8_valid_utf8(t);
            encode_utf8_decode_utf8(t);
        },
        PropModel::DateTime(t) => {
            lemma_counted_stands(buf, at, encode_utf8(t));
            encode_utf8_valid_utf8(t);
            encode_utf8_decode_utf8(t);
        },
        PropModel::Binary(b) => lemma_counted_stands(buf, at, b),
    }
}

proof fn lemma_row_stands(
    cols: Seq<ColumnModel>,
    buf: Seq<u8>,
    at: int,
    row: Seq<(u16, PropModel)>,
)
    requires
        stands_at(buf, at, row_bytes(row)),
        at + row_bytes(row).len() == buf.len(),
        row_fits(cols, row),
    ensures
        row_at(cols, buf, at) == core::result::Result::<Seq<(u16, PropModel)>, Fault>::Ok(row),
    decreases row.len(),
{
    if row.len() == 0 {
        assert(row =~= Seq::<(u16, PropModel)>::empty());
    } else {
        let (idx, value) = row[0];
        let rest = row.drop_first();
        let head = digits(idx as nat, 2);
        lemma_le_bounds();
        lemma_stands_split(buf, at, head + value_bytes(value), row_bytes(rest));
        lemma_stands_split(buf, at, head, value_bytes(value));
        lemma_digits_stand(buf, at, idx as nat, 2);
        lemma_value_stands(buf, at + 2, value);
        assert forall|i: int| 0 <= i < rest.len() implies {
            let (idx, value) = #[trigger] rest[i];
            &&& idx < cols.len()
            &&& cols[idx as int].column_type == type_code(value)
            &&& is_in_range(value)
        } by {
            assert(rest[i] == row[i + 1]);
        }
        lemma_row_stands(cols, buf, at + 2 + value_bytes(value).len(), rest);
        assert(seq![(idx, value)] + rest =~= row);
    }
}

/// What was written into the row of a feature comes back: column for column,
/// with the value of its type.
pub proof fn law_properties_come_back(
    h: HeaderModel,
    cols: Seq<ColumnModel>,
    row: Seq<(u16, PropModel)>,
)
    requires
        h.columns == Some(cols),
        row_fits(cols, row),
    ensures
        properties_of(h, FeatureModel { properties: Some(row_bytes(row)) })
            == core::result::Result::<Seq<(u16, PropModel)>, Fault>::Ok(row),
{
    let buf = row_bytes(row);
    assert(buf.subrange(0, buf.len() as int) =~= buf);
    lemma_row_stands(cols, buf, 0, row);
}

/// A row that names a column which is not there is refused; and without
/// columns, or without a row, there are no properties.
pub proof fn law_odd_rows(h: HeaderModel, f: FeatureModel)
    ensures
        h.columns is None || f.properties is None ==> (properties_of(h, f) matches Ok(row)
            && row.len() == 0),
        h.columns matches Some(cols) ==> (f.properties matches Some(bytes) ==> (bytes.len() >= 2
            && bytes[0] + 256 * bytes[1] >= cols.len() ==> properties_of(h, f) is Err)),
{
    if let (Some(_), Some(bytes)) = (h.columns, f.properties) {
        if bytes.len() >= 2 {
            let two = bytes.subrange(0, 2);
            let one = two.drop_last();
            lemma_pow0(256);
            lemma_pow1(256);
            assert(one.drop_last() =~= Seq::<u8>::empty());
            assert(Seq::<u8>::empty().push(bytes[0]) =~= one);
            assert(one.push(bytes[1]) =~= two);
            law_next_byte_counts_more(Seq::<u8>::empty(), bytes[0]);
            law_next_byte_counts_more(one, bytes[1]);
            assert(bytes[1] * 256 == 256 * bytes[1]);
        }
    }
}

/// Naming the properties of a row puts the name of its column to each value,
/// in the order of the row.
pub proof fn law_named_row(
    cols: Seq<ColumnModel>,
    row: Seq<(u16, PropModel)>,
    idx: u16,
    v: PropModel,
)
    ensures
        named_model(cols, Seq::empty()).len() == 0,
        idx < cols.len() ==> named_model(cols, row.push((idx, v))) == named_model(cols, row).push(
            (cols[idx as int].name, v),
        ),
{
    if idx < cols.len() {
        assert(named_model(cols, row.push((idx, v))) =~= named_model(cols, row).push(
            (cols[idx as int].name, v),
        ));
    }
}

// ---- sections, windows and groups ---------------------------------------------

/// A section starts with "fgb", a version, "fgb" and a byte that is not
/// looked at.
pub proof fn law_magic_of_a_section(head: Seq<u8>)
    requires
        head.len() >= 8,
    ensures
        has_fgb_magic(head) <==> {
            &&& head[0] == 0x66 && head[1] == 0x67 && head[2] == 0x62
            &&& head[4] == 0x66 && head[5] == 0x67 && head[6] == 0x62
        },
{
    lemma_three(head, 0, 0x66, 0x67, 0x62);
    lemma_three(head, 4, 0x66, 0x67, 0x62);
    assert(fgb_magic_seq().subrange(0, 3) =~= seq![0x66u8, 0x67, 0x62]);
    assert(fgb_magic_seq().subrange(4, 7) =~= seq![0x66u8, 0x67, 0x62]);
}

/// A section that was opened carries the magic, and its header has ten
/// mebibytes at most; the index stands behind the header, and the data behind
/// the index. There is an index exactly if the header announces one, and
/// features; it has forty bytes for each node.
pub proof fn law_opened_section(s: Session, file: Seq<u8>, offset: u64, size: u64)
    requires
        reads_file(s, file),
        opened(s, offset, size).1 is Ok,
    ensures
        ({
            let sec = opened(s, offset, size).1->Ok_0;
            let header_size = field(file, offset + 8, 4);
            &&& offset + 12 + header_size <= file.len()
            &&& has_fgb_magic(file.subrange(offset as int, offset + 12))
            &&& header_size <= 10_485_760
            &&& sec.offset == offset
            &&& sec.size == size
            &&& fgb_header(file.subrange(offset + 8, offset + 12 + header_size)) matches Ok(h)
                && sec.header == h
            &&& sec.index_offset == offset + 12 + header_size
            &&& sec.data_offset == sec.index_offset + sec.index_size
            &&& sec.features_count == sec.header.features_count
            &&& sec.node_size == sec.header.index_node_size
            &&& sec.index_size > 0 <==> sec.header.index_node_size > 0
                && sec.header.features_count > 0
            &&& sec.index_size > 0 ==> sec.index_size == 40 * tree_nodes(
                sec.features_count as nat,
                sec.node_size as nat,
            )
        }),
{
    lemma_ranged_is_the_file(s, file, offset as int, 12);
    let (s1, first) = ranged(s, offset as int, 12);
    let head = first->Ok_0;
    let header_size = field(head, 8, 4) as int;
    assert(head.subrange(8, 12) =~= file.subrange(offset + 8, offset + 12));
    lemma_ranged_is_the_file(s1, file, offset + 12, header_size);
    let rest = ranged(s1, offset + 12, header_size).1->Ok_0;
    assert(head.subrange(8, 12) + rest =~= file.subrange(offset + 8, offset + 12 + header_size));
    let h = opened(s, offset, size).1->Ok_0.header;
    lemma_tree_nodes_min(h.features_count as nat, h.index_node_size as nat);
}

/// An index of up to 256 KiB is fetched whole; a larger one through a window,
/// so many bytes at a time as a node takes that has two entries at least.
/// Without an index there is no plan.
pub proof fn law_plan_of_a_search(s: SectionModel)
    ensures
        plan_of(s) is Err <==> s.index_size == 0,
        plan_of(s) matches Ok(SearchPlan::Whole { offset, size }) ==> size <= 262_144 && offset
            == s.index_offset && size == s.index_size,
        plan_of(s) matches Ok(SearchPlan::Windowed { offset, size, group_bytes }) ==> {
            &&& size > 262_144
            &&& offset == s.index_offset
            &&& size == s.index_size
            &&& group_bytes >= 80
            &&& group_bytes >= 40 * s.node_size
            &&& group_bytes == 80 || group_bytes == 40 * s.node_size
        },
{
}

/// What is read through a window is in the file at its place, and neither
/// longer than asked for nor reaching beyond the window. The window moves
/// behind what was read, and stays where nothing was.
pub proof fn law_window_reads_the_file(
    w: WindowReader,
    s: Session,
    file: Seq<u8>,
    n: int,
)
    requires
        reads_file(s, file),
        w.wf(),
        0 <= n,
    ensures
        ({
            let (w1, s1, got) = window_read(w, s, n);
            let at = w.offset + w.pos;
            &&& w1.offset == w.offset && w1.len == w.len
            &&& reads_file(s1, file)
            &&& got matches Ok(b) ==> {
                &&& b.len() <= n
                &&& w1.pos == w.pos + b.len()
                &&& b.len() > 0 ==> w1.pos <= w.len
                &&& b.len() > 0 ==> at + b.len() <= file.len() && b == file.subrange(
                    at,
                    at + b.len(),
                )
                &&& b.len() == 0 ==> n == 0 || w.len <= w.pos || file.len() <= at
            }
            &&& got is Err ==> w1.pos == w.pos && n > 0 && w.pos < w.len
        }),
{
    let at = w.offset + w.pos;
    lemma_holder(s.source.chunks, at);
    let (w1, s1, got) = window_read(w, s, n);
    if let Ok(b) = got {
        if b.len() > 0 {
            assert(b =~= file.subrange(at, at + b.len()));
        }
    }
}

/// Neighbouring hits of a group lie no more than 64 KiB apart, and a group
/// ends only at a wider gap or at the last hit.
pub proof fn law_group_of_hits(items: Seq<SearchResultItem>, e: int)
    requires
        1 <= e <= items.len(),
    ensures
        e <= group_end(items, e) <= items.len(),
        forall|j: int|
            e <= j < group_end(items, e) ==> (#[trigger] items[j]).offset - items[j - 1].offset
                <= 65_536,
        group_end(items, e) < items.len() ==> items[group_end(items, e)].offset - items[group_end(
            items,
            e,
        ) - 1].offset > 65_536,
    decreases items.len() - e,
{
    if e < items.len() && items[e].offset - items[e - 1].offset <= COALESCE_GAP_BYTES {
        law_group_of_hits(items, e + 1);
    }
}

/// The first read of a group takes in the length of its last record. It takes
/// 16 KiB or more, unless the section ends before that, and reaches beyond
/// these only for that length.
pub proof fn law_first_read_of_a_group(sec: SectionModel, first: int, last: int)
    requires
        0 <= first <= last,
        sec.offset + sec.size <= u64::MAX,
        last + 16_384 <= u64::MAX,
    ensures
        ({
            let end = group_read_end(sec, first, last);
            let section_end = sec.offset + sec.size;
            &&& last + 4 <= end
            &&& end >= first + 16_384 || (sec.size > 0 && end >= section_end)
            &&& end > last + 4 ==> end <= first + 16_384 && (sec.size > 0 ==> end <= section_end)
        }),
{
}

/// A record that was read has 512 MiB at most, and is a valid feature.
pub proof fn law_read_record_is_valid(s: Session, file: Seq<u8>, abs: int)
    requires
        reads_file(s, file),
        0 <= abs,
    ensures
        feature_read(s, abs).1 matches Ok(record) ==> {
            &&& field(file, abs, 4) <= 536_870_912
            &&& record == record_at(file, abs)
            &&& fgb_feature(record) is Ok
        },
{
    if feature_read(s, abs).1 is Ok {
        law_feature_is_the_file(s, file, abs);
        lemma_ranged_is_the_file(s, file, abs, 4);
        let prefix = ranged(s, abs, 4).1->Ok_0;
        assert(prefix.subrange(0, 4) =~= prefix);
        assert(prefix =~= file.subrange(abs, abs + 4));
    }
}

/// Reading a range counts as one request of its size, if it succeeds; if not,
/// nothing is counted.
pub proof fn law_reads_are_counted(s: Session, offset: int, n: int)
    requires
        0 <= n,
        s.stats.requests < u64::MAX,
        s.stats.bytes + n <= u64::MAX,
    ensures
        ({
            let (s1, got) = ranged(s, offset, n);
            &&& s1.source == s.source
            &&& got is Ok ==> s1.stats.requests == s.stats.requests + 1 && s1.stats.bytes
                == s.stats.bytes + n
            &&& got is Err ==> s1.stats == s.stats
        }),
{
}

proof fn lemma_insert_is_stable(s: Seq<SearchResultItem>, x: SearchResultItem, o: usize)
    requires
        ascending(s),
    ensures
        insert_by_offset(s, x).filter(|y: SearchResultItem| y.offset == o) == if x.offset == o {
            s.filter(|y: SearchResultItem| y.offset == o).push(x)
        } else {
            s.filter(|y: SearchResultItem| y.offset == o)
        },
    decreases s.len(),
{
    let same = |y: SearchResultItem| y.offset == o;
    reveal(Seq::filter);
    if s.len() == 0 || s.last().offset <= x.offset {
        assert(s.push(x).drop_last() =~= s);
    } else {
        let init = s.drop_last();
        lemma_insert_is_stable(init, x, o);
        let t = insert_by_offset(init, x);
        assert(t.push(s.last()).drop_last() =~= t);
        if x.offset == o {
            assert(s.last().offset != o);
        }
    }
}

/// Sorting is stable: hits of one offset stay in the order in which they came.
pub proof fn law_sorting_is_stable(s: Seq<SearchResultItem>, o: usize)
    ensures
        by_offset(s).filter(|y: SearchResultItem| y.offset == o) == s.filter(
            |y: SearchResultItem| y.offset == o,
        ),
    decreases s.len(),
{
    reveal(Seq::filter);
    if s.len() > 0 {
        let init = s.drop_last();
        law_sorting_is_stable(init, o);
        law_sorted_hits(init);
        lemma_insert_is_stable(by_offset(init), s.last(), o);
    }
}

/// The nodes of an index: all items and a root above them, if one node holds
/// them; else the items and the nodes of an index over as many items as nodes
/// are needed to hold them.
pub proof fn law_nodes_of_an_index(n: nat, k: nat, m: nat)
    requires
        0 < n,
        2 <= k,
        (m - 1) * k < n <= m * k,
    ensures
        n <= k ==> tree_nodes(n, k) == n + 1,
        n > k ==> tree_nodes(n, k) == n + tree_nodes(m, k),
{
    let above = (n + k - 1) as nat / k;
    assert(above == m) by (nonlinear_arith)
        requires
            2 <= k,
            (m - 1) * k < n <= m * k,
            above == (n + k - 1) / (k as int),
    ;
    if n <= k {
        assert(m <= 1) by (nonlinear_arith)
            requires
                (m - 1) * k < n,
                n <= k,
                k >= 2,
        ;
    } else {
        assert(1 < m < n) by (nonlinear_arith)
            requires
                (m - 1) * k < n <= m * k,
                n > k,
                k >= 2,
        ;
    }
}

/// With the whole file at hand a section is opened, if it carries the magic, a
/// header of ten mebibytes at most that lies in the file and can be parsed,
/// and an index of which nodes have two entries or more and whose size can be
/// represented.
pub proof fn law_section_opens(s: Session, file: Seq<u8>, offset: u64, size: u64)
    requires
        s.source == whole_file(file),
        file.len() < 0x8000_0000_0000_0000,
        offset + 12 + field(file, offset + 8, 4) <= file.len(),
        field(file, offset + 8, 4) <= 10_485_760,
        has_fgb_magic(file.subrange(offset as int, offset + 12)),
        fgb_header(file.subrange(offset + 8, offset + 12 + field(file, offset + 8, 4))) is Ok,
        ({
            let h = fgb_header(
                file.subrange(offset + 8, offset + 12 + field(file, offset + 8, 4)),
            )->Ok_0;
            let nodes = tree_nodes(h.features_count as nat, h.index_node_size as nat);
            h.index_node_size == 0 || h.features_count == 0 || {
                &&& h.index_node_size >= 2
                &&& 40 * nodes <= usize::MAX
                &&& offset + 12 + field(file, offset + 8, 4) + 40 * nodes <= u64::MAX
            }
        }),
    ensures
        opened(s, offset, size).1 is Ok,
{
    lemma_whole_ranged(s, file, offset as int, 12);
    let (s1, first) = ranged(s, offset as int, 12);
    let head = first->Ok_0;
    let header_size = field(file, offset + 8, 4) as int;
    assert(head.subrange(8, 12) =~= file.subrange(offset + 8, offset + 12));
    lemma_whole_ranged(s1, file, offset + 12, header_size);
    let rest = ranged(s1, offset + 12, header_size).1->Ok_0;
    assert(head.subrange(8, 12) + rest =~= file.subrange(offset + 8, offset + 12 + header_size));
}

} // verus!
