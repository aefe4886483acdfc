//! FGBO reader: footer discovery, directory, and the zoom-routed read
//! protocol (overview section / full-res body + importance filter /
//! segments).
//!
//! Also works on plain fgb files: every read falls back to the body with
//! on-the-fly Douglas–Peucker, which doubles as the baseline for
//! benchmarking FGBO against plain fgb.

use crate::error::{Error, Fault, IoError, Result};
use crate::encoder::shape_of;
use crate::encoder::{
    directory_for, directory_start, file_of, footer_for, law_written_file_reads_back, sized,
    EncodeModel, FileParts, LevelPlan, Written,
};
use crate::fgb::{
    column_names, decode_properties, feature_root, name_properties, read_range, sort_items, Column,
    FeatureFields, FgbSection, Header, IoStats, PropRow, PropValue, SearchResultItem,
};
use crate::fgb::{
    addressable, ascending, by_offset, columns_of, features_read, fits_in,
    law_features_are_the_file,
    law_section_is_a_file_of_its_own, law_sorted_hits, lemma_ranged_is_the_file, listed_columns,
    named_model, named_of, opened, outcome, properties_of, ranged, reads_file, record_at,
    records_of, section_with, session, HeaderModel, PropModel, SectionModel, Session,
};
use crate::function::is_function;
use crate::geometry::{coord_count, map_coords, Coord, Geometry, GeometryModel};
use crate::geometry::{geometry_coords, law_mapped_coords, mapped};
use crate::format::{
    directory_encodable, directory_of, directory_seq, field, footer_of, law_level_covers_zoom,
    level_for_zoom, u64s_at, DirectoryModel,
};
use crate::format::{Directory, Footer, FOOTER_SIZE};
use crate::importance::{geometry_importance, get_u16s, get_u64s};
use crate::importance::{
    geometry_values, law_array_stands_in_payload, law_importance_matches_coords,
    lemma_mapped_storable, lemma_sidecar_parts, sidecar_seq, storable, u16s_at, SidecarModel,
};
use crate::le::{get_u64, stands_at};
use crate::outside::{crc32_of, fgb_feature, fgb_header};
use crate::simplify::{
    begins, filter_geometry, filter_if_long_enough, kept_geometry, law_full_array_suffices,
};
use crate::sparse::{as_signed, law_whole_file_reads, whole_file, SeekFrom, SparseReader};
use vstd::prelude::*;
use vstd::slice::slice_to_vec;

verus! {

/// The offset table of the importance sidecar.
#[derive(Debug, Clone, PartialEq)]
pub struct SidecarTable {
    /// Absolute offset of the payload (u16 arrays).
    pub payload_offset: u64,
    /// Byte offsets into the payload, count+1 entries.
    pub offsets: Vec<u64>,
}

/// An offset table as a mathematical value.
#[verifier::ext_equal]
pub struct TableModel {
    pub payload_offset: u64,
    pub offsets: Seq<u64>,
}

impl View for SidecarTable {
    type V = TableModel;

    open spec fn view(&self) -> TableModel {
        TableModel { payload_offset: self.payload_offset, offsets: self.offsets@ }
    }
}

/// A reader of one file. The bytes come from the [`SparseReader`] that is
/// handed to each operation.
#[derive(Debug, Clone, PartialEq)]
pub struct FgboReader {
    len: u64,
    directory: Option<Directory>,
    body: FgbSection,
    /// Lazily opened overview sections (parallel to directory.overviews).
    overview_sections: Vec<Option<FgbSection>>,
    segments_section: Option<FgbSection>,
    /// Lazily loaded importance offset table (count+1 u64 entries, small).
    /// Per-feature importance arrays are range-read on demand so a tile
    /// query never loads the whole sidecar.
    sidecar_table: Option<SidecarTable>,
}

/// A reader as a mathematical value.
#[verifier::ext_equal]
pub struct ReaderModel {
    pub len: u64,
    pub directory: Option<DirectoryModel>,
    pub body: SectionModel,
    pub overviews: Seq<Option<SectionModel>>,
    pub segments: Option<SectionModel>,
    pub table: Option<TableModel>,
}

/// An optional section as a mathematical value.
pub open spec fn section_of(s: Option<FgbSection>) -> Option<SectionModel> {
    match s {
        Some(s) => Some(s@),
        None => None,
    }
}

impl View for FgboReader {
    type V = ReaderModel;

    closed spec fn view(&self) -> ReaderModel {
        ReaderModel {
            len: self.len,
            directory: match self.directory {
                Some(d) => Some(d@),
                None => None,
            },
            body: self.body@,
            overviews: Seq::new(
                self.overview_sections@.len(),
                |i: int| section_of(self.overview_sections@[i]),
            ),
            segments: section_of(self.segments_section),
            table: match self.sidecar_table {
                Some(t) => Some(t@),
                None => None,
            },
        }
    }
}

impl ReaderModel {
    /// There is a place for each overview section.
    pub open spec fn wf(self) -> bool {
        self.overviews.len() == match self.directory {
            Some(d) => d.overviews.len(),
            None => 0,
        }
    }
}

/// Footer discovery and directory: the footer in the last bytes leads to the
/// directory; a file without the footer magic has none.
pub open spec fn directory_read(s: Session) -> (
    Session,
    core::result::Result<Option<DirectoryModel>, Fault>,
) {
    let len = s.source.len;
    if len < FOOTER_SIZE {
        (s, Ok(None))
    } else {
        let (s1, tail) = ranged(s, len - FOOTER_SIZE, FOOTER_SIZE as int);
        match tail {
            Err(f) => (s1, Err(f)),
            Ok(tail) => match footer_of(tail) {
                None => (s1, Ok(None)),
                Some(f) => if f.dir_offset + f.dir_size > len || f.dir_size > usize::MAX {
                    (s1, Err(Fault::Format("directory out of range"@)))
                } else {
                    let (s2, buf) = ranged(s1, f.dir_offset as int, f.dir_size as int);
                    match buf {
                        Err(f) => (s2, Err(f)),
                        Ok(buf) => if crc32_of(buf) != f.dir_crc32 {
                            (s2, Err(Fault::CrcMismatch))
                        } else {
                            match directory_of(buf) {
                                Err(f) => (s2, Err(f)),
                                Ok(d) => (s2, Ok(Some(d))),
                            }
                        },
                    }
                },
            },
        }
    }
}

/// A reader that has opened nothing but the body yet.
pub open spec fn fresh_reader(
    len: int,
    directory: Option<DirectoryModel>,
    body: SectionModel,
) -> ReaderModel {
    ReaderModel {
        len: len as u64,
        directory,
        body,
        overviews: Seq::new(
            match directory {
                Some(d) => d.overviews.len(),
                None => 0,
            },
            |i: int| None,
        ),
        segments: None,
        table: None,
    }
}

/// Opening a file.
pub open spec fn reader_opened(s: Session) -> (Session, core::result::Result<ReaderModel, Fault>) {
    if as_signed(s.source.len) < 0 {
        (s, Err(Fault::Io(IoError::InvalidSeek)))
    } else {
        let (s1, directory) = directory_read(s);
        match directory {
            Err(f) => (s1, Err(f)),
            Ok(directory) => {
                let (s2, body) = opened(s1, 0, s.source.len as u64);
                match body {
                    Err(f) => (s2, Err(f)),
                    Ok(body) => (s2, Ok(fresh_reader(s.source.len, directory, body))),
                }
            },
        }
    }
}

fn read_directory(r: &mut SparseReader, stats: &mut IoStats) -> (res: Result<Option<Directory>>)
    requires
        old(r).wf(),
    ensures
        final(r).wf(),
        final(r)@ == old(r)@,
        ({
            let want = directory_read(session(*old(r), *old(stats)));
            &&& session(*final(r), *final(stats)) == want.0
            &&& match res {
                Ok(Some(d)) => want.1 == core::result::Result::<Option<DirectoryModel>, Fault>::Ok(
                    Some(d@),
                ),
                Ok(None) => want.1 == core::result::Result::<Option<DirectoryModel>, Fault>::Ok(
                    None,
                ),
                Err(e) => want.1 == core::result::Result::<Option<DirectoryModel>, Fault>::Err(e@),
            }
        }),
{
    let len: u64 = r.file_len();
    if len < FOOTER_SIZE as u64 {
        return Ok(None);
    }
    let tail: Vec<u8> = read_range(r, stats, len - FOOTER_SIZE as u64, FOOTER_SIZE)?;
    let footer: Footer = match Footer::decode(tail.as_slice()) {
        Ok(f) => f,
        Err(_) => {
            return Ok(None);
        },
    };
    if footer.dir_offset > len || footer.dir_size > len - footer.dir_offset || footer.dir_size
        > usize::MAX as u64 {
        return Err(Error::format("directory out of range"));
    }
    let buf: Vec<u8> = read_range(r, stats, footer.dir_offset, footer.dir_size as usize)?;
    let crc: u32 = Directory::crc32(buf.as_slice());
    let d: Directory = Directory::decode_checked(buf.as_slice(), crc, footer)?;
    Ok(Some(d))
}

impl FgboReader {
    pub fn open(r: &mut SparseReader, stats: &mut IoStats) -> (res: Result<FgboReader>)
        requires
            old(r).wf(),
        ensures
            final(r).wf(),
            (session(*final(r), *final(stats)), outcome(res)) == reader_opened(
                session(*old(r), *old(stats)),
            ),
            res matches Ok(reader) ==> reader@.wf(),
    {
        let len: u64 = r.seek(SeekFrom::End(0))?;
        // footer discovery (one small range read at EOF)
        let directory: Option<Directory> = read_directory(r, stats)?;
        let body: FgbSection = FgbSection::open(r, stats, 0, len)?;
        let n: usize = match &directory {
            Some(d) => d.overviews.len(),
            None => 0,
        };
        let mut overview_sections: Vec<Option<FgbSection>> = Vec::new();
        let mut i: usize = 0;
        while i < n
            invariant
                i <= n,
                overview_sections@.len() == i,
                forall|j: int| 0 <= j < i ==> #[trigger] overview_sections@[j] is None,
            decreases n - i,
        {
            overview_sections.push(None);
            i = i + 1;
        }
        let reader: FgboReader = FgboReader {
            len,
            directory,
            body,
            overview_sections,
            segments_section: None,
            sidecar_table: None,
        };
        proof {
            let d = reader@.directory;
            assert(reader@.overviews =~= fresh_reader(len as int, d, body@).overviews);
            assert(reader@ =~= fresh_reader(len as int, d, body@));
        }
        Ok(reader)
    }

    pub fn is_fgbo(&self) -> (r: bool)
        ensures
            r == self@.directory is Some,
    {
        self.directory.is_some()
    }

    pub fn directory(&self) -> (r: Option<&Directory>)
        ensures
            match r {
                Some(d) => self@.directory == Some(d@),
                None => self@.directory is None,
            },
    {
        match &self.directory {
            Some(d) => Some(d),
            None => None,
        }
    }

    pub fn body(&self) -> (r: &FgbSection)
        ensures
            r@ == self@.body,
    {
        &self.body
    }

    pub fn file_len(&self) -> (r: u64)
        ensures
            r == self@.len,
    {
        self.len
    }

    /// Geometry type of the body layer.
    pub fn geometry_type(&self) -> (t: u8)
        ensures
            t == self@.body.header.geometry_type,
    {
        self.body.header.geometry_type
    }

    /// Layer name from the body header.
    pub fn layer_name(&self) -> (name: String)
        ensures
            name@ == match self@.body.header.name {
                Some(n) => if n.len() == 0 {
                    "layer"@
                } else {
                    n
                },
                None => "layer"@,
            },
    {
        match &self.body.header.name {
            Some(n) => if n.as_str().unicode_len() == 0 {
                "layer".to_owned()
            } else {
                n.as_str().to_owned()
            },
            None => "layer".to_owned(),
        }
    }

    /// The overview section at `idx`, opened if it was not yet.
    pub fn ensure_overview(
        &mut self,
        r: &mut SparseReader,
        stats: &mut IoStats,
        idx: usize,
    ) -> (res: Result<()>)
        requires
            old(r).wf(),
            old(self)@.wf(),
            idx < old(self)@.overviews.len(),
        ensures
            final(r).wf(),
            final(self)@.wf(),
            ({
                let want = overview_ensured(
                    old(self)@,
                    session(*old(r), *old(stats)),
                    idx as int,
                );
                &&& final(self)@ == want.0
                &&& session(*final(r), *final(stats)) == want.1
                &&& match res {
                    Ok(_) => want.2 is None,
                    Err(e) => want.2 == Some(e@),
                }
            }),
    {
        assert(self@.overviews[idx as int] == section_of(self.overview_sections@[idx as int]));
        if self.overview_sections[idx].is_none() {
            if let Some(d) = &self.directory {
                let offset: u64 = d.overviews[idx].offset;
                let size: u64 = d.overviews[idx].size;
                let s: FgbSection = FgbSection::open(r, stats, offset, size)?;
                self.overview_sections[idx] = Some(s);
                proof {
                    let want = overview_ensured(
                        old(self)@,
                        session(*old(r), *old(stats)),
                        idx as int,
                    );
                    assert(self@.overviews =~= want.0.overviews);
                    assert(self@ =~= want.0);
                }
            }
        }
        Ok(())
    }

    /// The segments section, opened if there is one and it was not yet.
    pub fn ensure_segments(
        &mut self,
        r: &mut SparseReader,
        stats: &mut IoStats,
    ) -> (res: Result<()>)
        requires
            old(r).wf(),
            old(self)@.wf(),
        ensures
            final(r).wf(),
            final(self)@.wf(),
            ({
                let want = segments_ensured(old(self)@, session(*old(r), *old(stats)));
                &&& final(self)@ == want.0
                &&& session(*final(r), *final(stats)) == want.1
                &&& match res {
                    Ok(_) => want.2 is None,
                    Err(e) => want.2 == Some(e@),
                }
            }),
    {
        if self.segments_section.is_none() {
            if let Some(d) = &self.directory {
                if let Some(e) = &d.segments {
                    let s: FgbSection = FgbSection::open(r, stats, e.offset, e.size)?;
                    self.segments_section = Some(s);
                    proof {
                        let want = segments_ensured(old(self)@, session(*old(r), *old(stats)));
                        assert(self@.overviews =~= old(self)@.overviews);
                        assert(self@ =~= want.0);
                    }
                }
            }
        }
        Ok(())
    }

    /// The overview section at `idx`, once it was opened.
    pub fn overview_section(&self, idx: usize) -> (s: Option<&FgbSection>)
        requires
            idx < self@.overviews.len(),
        ensures
            match s {
                Some(s) => self@.overviews[idx as int] == Some(s@),
                None => self@.overviews[idx as int] is None,
            },
    {
        assert(self@.overviews[idx as int] == section_of(self.overview_sections@[idx as int]));
        match &self.overview_sections[idx] {
            Some(s) => Some(s),
            None => None,
        }
    }

    /// The segments section, once it was opened.
    pub fn segments_section(&self) -> (s: Option<&FgbSection>)
        ensures
            match s {
                Some(s) => self@.segments == Some(s@),
                None => self@.segments is None,
            },
    {
        match &self.segments_section {
            Some(s) => Some(s),
            None => None,
        }
    }
}

/// Opening the overview section at `idx` on first use: the reader and the
/// session after it, and what went wrong.
pub open spec fn overview_ensured(m: ReaderModel, s: Session, idx: int) -> (
    ReaderModel,
    Session,
    Option<Fault>,
) {
    match (m.overviews[idx], m.directory) {
        (None, Some(d)) => {
            let (s1, section) = opened(s, d.overviews[idx].offset, d.overviews[idx].size);
            match section {
                Err(f) => (m, s1, Some(f)),
                Ok(section) => (
                    ReaderModel { overviews: m.overviews.update(idx, Some(section)), ..m },
                    s1,
                    None,
                ),
            }
        },
        _ => (m, s, None),
    }
}

/// Opening the segments section on first use.
pub open spec fn segments_ensured(m: ReaderModel, s: Session) -> (
    ReaderModel,
    Session,
    Option<Fault>,
) {
    match (m.segments, m.directory) {
        (None, Some(d)) => match d.segments {
            Some(e) => {
                let (s1, section) = opened(s, e.offset, e.size);
                match section {
                    Err(f) => (m, s1, Some(f)),
                    Ok(section) => (ReaderModel { segments: Some(section), ..m }, s1, None),
                }
            },
            None => (m, s, None),
        },
        _ => (m, s, None),
    }
}

/// Reading the offset table of the sidecar at `offset`: the number of
/// features, then one more offset than there are features. A table that
/// memory cannot hold counts as one that the file does not hold.
pub open spec fn table_read(s: Session, offset: u64) -> (
    Session,
    core::result::Result<TableModel, Fault>,
) {
    let (s1, head) = ranged(s, offset as int, 8);
    match head {
        Err(f) => (s1, Err(f)),
        Ok(head) => {
            let n = field(head, 0, 8) + 1;
            if 8 * n > usize::MAX {
                (s1, Err(Fault::Io(IoError::UnexpectedEof)))
            } else {
                let (s2, table) = ranged(s1, offset + 8, 8 * n as int);
                match table {
                    Err(f) => (s2, Err(f)),
                    Ok(table) => (
                        s2,
                        Ok(
                            TableModel {
                                payload_offset: (offset + 8 + 8 * n) as u64,
                                offsets: u64s_at(table, 0, n),
                            },
                        ),
                    ),
                }
            }
        },
    }
}

/// Loading the offset table on first use, if there is a sidecar.
pub open spec fn table_ensured(
    m: ReaderModel,
    s: Session,
) -> (ReaderModel, Session, Option<Fault>) {
    match (m.table, m.directory) {
        (None, Some(d)) => match d.importance {
            Some(e) => {
                let (s1, table) = table_read(s, e.offset);
                match table {
                    Err(f) => (m, s1, Some(f)),
                    Ok(table) => (ReaderModel { table: Some(table), ..m }, s1, None),
                }
            },
            None => (m, s, None),
        },
        _ => (m, s, None),
    }
}

/// Reading the importance array of feature `ordinal` with the offset table.
pub open spec fn array_read(s: Session, t: TableModel, ordinal: u64) -> (
    Session,
    core::result::Result<Option<Seq<u16>>, Fault>,
) {
    if ordinal + 1 >= t.offsets.len() {
        (s, Ok(None))
    } else {
        let start = t.offsets[ordinal as int];
        let end = t.offsets[ordinal + 1];
        let abs = t.payload_offset + start;
        if start > end {
            (s, Err(Fault::Format("importance offset table out of order"@)))
        } else if abs > u64::MAX || end - start > usize::MAX {
            (s, Err(Fault::Io(IoError::UnexpectedEof)))
        } else {
            let (s1, buf) = ranged(s, abs, end - start);
            match buf {
                Err(f) => (s1, Err(f)),
                Ok(buf) => (s1, Ok(Some(u16s_at(buf, 0, buf.len() / 2)))),
            }
        }
    }
}

/// Reading the importance array of feature `ordinal`: the reader and the
/// session after it, and the array, if the sidecar has one for it.
pub open spec fn importance_read(m: ReaderModel, s: Session, ordinal: u64) -> (
    ReaderModel,
    Session,
    core::result::Result<Option<Seq<u16>>, Fault>,
) {
    let (m1, s1, fault) = table_ensured(m, s);
    match fault {
        Some(f) => (m1, s1, Err(f)),
        None => match m1.table {
            None => (m1, s1, Ok(None)),
            Some(t) => {
                let (s2, got) = array_read(s1, t, ordinal);
                (m1, s2, got)
            },
        },
    }
}

/// The outcome of reading an importance array.
pub open spec fn array_outcome(r: Result<Option<Vec<u16>>>) -> core::result::Result<
    Option<Seq<u16>>,
    Fault,
> {
    match r {
        Ok(Some(v)) => Ok(Some(v@)),
        Ok(None) => Ok(None),
        Err(e) => Err(e@),
    }
}

fn read_table(r: &mut SparseReader, stats: &mut IoStats, offset: u64) -> (res: Result<SidecarTable>)
    requires
        old(r).wf(),
    ensures
        final(r).wf(),
        (session(*final(r), *final(stats)), outcome(res)) == table_read(
            session(*old(r), *old(stats)),
            offset,
        ),
{
    let head: Vec<u8> = read_range(r, stats, offset, 8)?;
    let count: u64 = get_u64(head.as_slice(), 0);
    if count >= (usize::MAX / 8) as u64 {
        return Err(Error::Io(IoError::UnexpectedEof));
    }
    let n: usize = count as usize + 1;
    let table: Vec<u8> = read_range(r, stats, offset + 8, n * 8)?;
    let offsets: Vec<u64> = get_u64s(table.as_slice(), 0, n);
    Ok(SidecarTable { payload_offset: offset + 8 + n as u64 * 8, offsets })
}

fn read_array(
    r: &mut SparseReader,
    stats: &mut IoStats,
    table: &SidecarTable,
    ordinal: u64,
) -> (res:
    Result<Option<Vec<u16>>>)
    requires
        old(r).wf(),
    ensures
        final(r).wf(),
        (session(*final(r), *final(stats)), array_outcome(res)) == array_read(
            session(*old(r), *old(stats)),
            table@,
            ordinal,
        ),
{
    let n: usize = table.offsets.len();
    if n == 0 || ordinal >= (n - 1) as u64 {
        return Ok(None);
    }
    let i: usize = ordinal as usize;
    let start: u64 = table.offsets[i];
    let end: u64 = table.offsets[i + 1];
    if start > end {
        return Err(Error::format("importance offset table out of order"));
    }
    if start > u64::MAX - table.payload_offset || end - start > usize::MAX as u64 {
        return Err(Error::Io(IoError::UnexpectedEof));
    }
    let abs: u64 = table.payload_offset + start;
    let buf: Vec<u8> = read_range(r, stats, abs, (end - start) as usize)?;
    let half: usize = buf.len() / 2;
    Ok(Some(get_u16s(buf.as_slice(), 0, half)))
}

impl FgboReader {
    /// Load the importance offset table (small: count+1 u64s). The payload
    /// is range-read per feature in [`FgboReader::importance_for`].
    fn ensure_sidecar_table(&mut self, r: &mut SparseReader, stats: &mut IoStats) -> (res: Result<
        (),
    >)
        requires
            old(r).wf(),
        ensures
            final(r).wf(),
            ({
                let want = table_ensured(old(self)@, session(*old(r), *old(stats)));
                &&& final(self)@ == want.0
                &&& session(*final(r), *final(stats)) == want.1
                &&& match res {
                    Ok(_) => want.2 is None,
                    Err(e) => want.2 == Some(e@),
                }
            }),
    {
        if self.sidecar_table.is_none() {
            if let Some(d) = &self.directory {
                if let Some(e) = &d.importance {
                    let t: SidecarTable = read_table(r, stats, e.offset)?;
                    self.sidecar_table = Some(t);
                    proof {
                        let want = table_ensured(old(self)@, session(*old(r), *old(stats)));
                        assert(self@.overviews =~= old(self)@.overviews);
                        assert(self@ =~= want.0);
                    }
                }
            }
        }
        Ok(())
    }

    /// Range-read the importance array of one feature ordinal. Loads the
    /// offset table on first use (lazy: a tile whose features all skip
    /// filtering never pays for the table).
    pub fn importance_for(&mut self, r: &mut SparseReader, stats: &mut IoStats, ordinal: u64) -> (
        res: Result<Option<Vec<u16>>>)
        requires
            old(r).wf(),
            old(self)@.wf(),
        ensures
            final(r).wf(),
            final(self)@.wf(),
            (final(self)@, session(*final(r), *final(stats)), array_outcome(res))
                == importance_read(old(self)@, session(*old(r), *old(stats)), ordinal),
    {
        self.ensure_sidecar_table(r, stats)?;
        match &self.sidecar_table {
            None => Ok(None),
            Some(t) => read_array(r, stats, t, ordinal),
        }
    }
}

/// Which data path served a tile query (for reporting/benchmarks).
#[derive(Debug, Clone, Copy, PartialEq, Eq, Structural)]
pub enum TileSource {
    /// Overview section at the given level index.
    Overview(usize),
    /// Full-resolution body with precomputed importance filter.
    BodyImportance,
    /// Full-resolution body with on-the-fly simplification (plain fgb).
    BodyLive,
}

/// How a tile is served.
#[derive(Debug, Clone, Copy, PartialEq, Eq, Structural)]
pub struct TileRoute {
    pub source: TileSource,
    /// Large features come as fragments from the segments section and are
    /// left out of the body.
    pub use_segments: bool,
}

/// How a tile at zoom `z` is served: by the overview level for the zoom, if
/// there is one; otherwise by the body, filtered with the stored importance
/// if there is a sidecar, and with the segments section from its zoom on.
pub open spec fn route_for(directory: Option<DirectoryModel>, z: u8) -> TileRoute {
    match directory {
        None => TileRoute { source: TileSource::BodyLive, use_segments: false },
        Some(d) => match level_for_zoom(d.overviews, z) {
            Some(i) => TileRoute { source: TileSource::Overview(i as usize), use_segments: false },
            None => TileRoute {
                source: if d.importance is Some {
                    TileSource::BodyImportance
                } else {
                    TileSource::BodyLive
                },
                use_segments: d.segments matches Some(s) && z >= s.zbase,
            },
        },
    }
}

/// The features that a route leaves out of the body.
pub open spec fn excluded_by(directory: Option<DirectoryModel>, route: TileRoute) -> Seq<u64> {
    match directory {
        Some(d) => match d.segments {
            Some(s) => if route.use_segments {
                s.segmented_ordinals
            } else {
                Seq::empty()
            },
            None => Seq::empty(),
        },
        None => Seq::empty(),
    }
}

/// A zoom without an overview level is served with the segments section
/// exactly from the zoom of the segments on, and the body leaves out the
/// segmented features then, and only then.
pub proof fn law_segmented_features_are_excluded(d: DirectoryModel, z: u8)
    requires
        level_for_zoom(d.overviews, z) is None,
    ensures
        ({
            let route = route_for(Some(d), z);
            let excluded = excluded_by(Some(d), route);
            &&& route.use_segments <==> d.segments is Some && z >= d.segments->0.zbase
            &&& route.use_segments ==> excluded == d.segments->0.segmented_ordinals
            &&& !route.use_segments ==> excluded.len() == 0
        }),
{
}

/// Without a directory a file is served as plain fgb, as the baseline is.
pub proof fn law_plain_file_is_baseline(z: u8)
    ensures
        route_for(None, z) == baseline_route(),
        excluded_by(None, baseline_route()).len() == 0,
{
}

/// The route of the baseline: all sections are ignored.
pub open spec fn baseline_route() -> TileRoute {
    TileRoute { source: TileSource::BodyLive, use_segments: false }
}

/// One step of serving a tile.
#[derive(Debug, Clone, Copy, PartialEq, Eq, Structural)]
pub enum QueryStep {
    /// Query the overview section of this level, and take its features as
    /// they are.
    Overview(usize),
    /// Query the body without the excluded features, and simplify what it
    /// has.
    Body,
    /// Query the segments section, and take its features as fragments.
    Segments,
}

/// How a tile is served by its route: by the overview alone; or by the body,
/// and then by the segments if the route uses them.
pub open spec fn query_steps(route: TileRoute) -> Seq<QueryStep> {
    match route.source {
        TileSource::Overview(level) => seq![QueryStep::Overview(level)],
        _ => if route.use_segments {
            seq![QueryStep::Body, QueryStep::Segments]
        } else {
            seq![QueryStep::Body]
        },
    }
}

/// The step of serving a tile that comes after `done` others; none, if the
/// tile is served.
pub fn next_query(route: TileRoute, done: usize) -> (step: Option<QueryStep>)
    ensures
        step == if done < query_steps(route).len() {
            Some(query_steps(route)[done as int])
        } else {
            None
        },
{
    match route.source {
        TileSource::Overview(level) => if done == 0 {
            Some(QueryStep::Overview(level))
        } else {
            None
        },
        _ => if done == 0 {
            Some(QueryStep::Body)
        } else if done == 1 && route.use_segments {
            Some(QueryStep::Segments)
        } else {
            None
        },
    }
}

/// A zoom with an overview level is served by that level alone; another one
/// by the body and, if fragments stand for the features that the body leaves
/// out, by the segments as well.
pub proof fn law_query_steps(directory: Option<DirectoryModel>, z: u8)
    ensures
        ({
            let route = route_for(directory, z);
            let steps = query_steps(route);
            &&& match directory {
                Some(d) => match level_for_zoom(d.overviews, z) {
                    Some(i) => steps == seq![QueryStep::Overview(i as usize)],
                    None => steps[0] == QueryStep::Body,
                },
                None => steps == seq![QueryStep::Body],
            }
            &&& excluded_by(directory, route).len() > 0 ==> steps == seq![
                QueryStep::Body,
                QueryStep::Segments,
            ]
        }),
        query_steps(baseline_route()) == seq![QueryStep::Body],
{
}

impl FgboReader {
    /// How a tile at zoom `z` is served.
    pub fn route(&self, z: u8) -> (route: TileRoute)
        ensures
            route == route_for(self@.directory, z),
    {
        match &self.directory {
            None => TileRoute { source: TileSource::BodyLive, use_segments: false },
            Some(d) => {
                if let Some(pos) = d.overview_position(z) {
                    return TileRoute { source: TileSource::Overview(pos), use_segments: false };
                }
                let use_segments: bool = match &d.segments {
                    Some(s) => z >= s.zbase,
                    None => false,
                };
                let source: TileSource = if d.importance.is_some() {
                    TileSource::BodyImportance
                } else {
                    TileSource::BodyLive
                };
                TileRoute { source, use_segments }
            },
        }
    }

    /// Plain-fgb baseline: ignore all FGBO sections, read the body with
    /// on-the-fly simplification. For benchmarking.
    pub fn route_baseline(&self) -> (route: TileRoute)
        ensures
            route == baseline_route(),
    {
        TileRoute { source: TileSource::BodyLive, use_segments: false }
    }

    /// Ordinals of the features that a route leaves out of the body:
    /// segmented features are served by fragments, and are excluded from the
    /// body query *before* reading their (large) records.
    pub fn excluded(&self, route: TileRoute) -> (out: Vec<u64>)
        ensures
            out@ == excluded_by(self@.directory, route),
    {
        let none: Vec<u64> = Vec::new();
        assert(none@ =~= Seq::<u64>::empty());
        if !route.use_segments {
            return none;
        }
        match &self.directory {
            Some(d) => match &d.segments {
                Some(s) => slice_to_vec(s.segmented_ordinals.as_slice()),
                None => none,
            },
            None => none,
        }
    }

    /// Whether the body can be searched at all: it has features and an
    /// index. Otherwise no feature is hit.
    pub fn body_is_searchable(&self) -> (r: bool)
        ensures
            r == (self@.body.features_count > 0 && self@.body.index_size > 0),
    {
        self.body.features_count > 0 && self.body.has_index()
    }
}

/// A feature record that a query hit, with its decoded properties. The
/// geometry is still in the record.
#[derive(Debug, Clone, PartialEq)]
pub struct Hit {
    pub ordinal: u64,
    /// Size-prefixed feature record.
    pub record: Vec<u8>,
    pub properties: Vec<(String, PropValue)>,
}

/// A hit as a mathematical value.
#[verifier::ext_equal]
pub struct HitModel {
    pub ordinal: u64,
    pub record: Seq<u8>,
    pub properties: Seq<(Seq<char>, PropModel)>,
}

impl View for Hit {
    type V = HitModel;

    open spec fn view(&self) -> HitModel {
        HitModel {
            ordinal: self.ordinal,
            record: self.record@,
            properties: named_of(self.properties@),
        }
    }
}

/// Hits as mathematical values.
pub open spec fn hits_of(hits: Seq<Hit>) -> Seq<HitModel> {
    Seq::new(hits.len(), |i: int| hits[i]@)
}

/// The hits whose ordinal is not excluded.
pub open spec fn wanted(items: Seq<SearchResultItem>, exclude: Seq<u64>) -> Seq<SearchResultItem>
    decreases items.len(),
{
    if items.len() == 0 {
        items
    } else if exclude.contains(items.last().index as u64) {
        wanted(items.drop_last(), exclude)
    } else {
        wanted(items.drop_last(), exclude).push(items.last())
    }
}

/// One record as a hit, with its named properties.
pub open spec fn hit_in(record: (u64, Seq<u8>), header: HeaderModel) -> core::result::Result<
    HitModel,
    Fault,
> {
    match fgb_feature(record.1) {
        Err(text) => Err(Fault::Format("invalid feature: "@ + text)),
        Ok(fields) => match properties_of(header, fields) {
            Err(f) => Err(f),
            Ok(row) => Ok(
                HitModel {
                    ordinal: record.0,
                    record: record.1,
                    properties: named_model(listed_columns(header), row),
                },
            ),
        },
    }
}

/// The records from `i` on as hits.
pub open spec fn hits_in(
    records: Seq<(u64, Seq<u8>)>,
    header: HeaderModel,
    i: int,
) -> core::result::Result<
    Seq<HitModel>,
    Fault,
>
    decreases records.len() - i,
{
    if i >= records.len() {
        Ok(Seq::empty())
    } else {
        match hit_in(records[i], header) {
            Err(f) => Err(f),
            Ok(hit) => match hits_in(records, header, i + 1) {
                Err(f) => Err(f),
                Ok(rest) => Ok(seq![hit] + rest),
            },
        }
    }
}

/// Reading the features of a section that a search hit, in the order of their
/// offsets and without those whose ordinal is excluded: these are left out
/// before any byte is read. A section without features has none.
pub open spec fn section_hits(
    s: Session,
    sec: SectionModel,
    items: Seq<SearchResultItem>,
    exclude: Seq<u64>,
) -> (Session, core::result::Result<Seq<HitModel>, Fault>) {
    let kept = wanted(by_offset(items), exclude);
    if sec.features_count == 0 || kept.len() == 0 {
        (s, Ok(Seq::empty()))
    } else if !addressable(sec, kept.last().offset) {
        (s, Err(Fault::Io(IoError::InvalidSeek)))
    } else {
        let (s1, records) = features_read(s, sec, kept, 0);
        match records {
            Err(f) => (s1, Err(f)),
            Ok(records) => (s1, hits_in(records, sec.header, 0)),
        }
    }
}

/// Whether an ordinal is in a list.
fn is_listed(list: &Vec<u64>, ordinal: u64) -> (r: bool)
    ensures
        r == list@.contains(ordinal),
{
    let n: usize = list.len();
    let mut i: usize = 0;
    while i < n
        invariant
            i <= n,
            n == list@.len(),
            forall|j: int| 0 <= j < i ==> list@[j] != ordinal,
        decreases n - i,
    {
        if list[i] == ordinal {
            return true;
        }
        i = i + 1;
    }
    false
}

/// The hits whose ordinal is not excluded.
fn without_excluded(items: &Vec<SearchResultItem>, exclude: &Vec<u64>) -> (out: Vec<
    SearchResultItem,
>)
    ensures
        out@ == wanted(items@, exclude@),
{
    let n: usize = items.len();
    let mut out: Vec<SearchResultItem> = Vec::new();
    let mut i: usize = 0;
    assert(items@.take(0) =~= Seq::<SearchResultItem>::empty());
    while i < n
        invariant
            i <= n,
            n == items@.len(),
            out@ == wanted(items@.take(i as int), exclude@),
        decreases n - i,
    {
        let item: SearchResultItem = items[i];
        assert(items@.take(i + 1).drop_last() =~= items@.take(i as int));
        if !is_listed(exclude, item.index as u64) {
            out.push(item);
        }
        i = i + 1;
    }
    assert(items@.take(n as int) =~= items@);
    out
}

/// Leaving hits out keeps the others in their order.
proof fn lemma_wanted_ascends(items: Seq<SearchResultItem>, exclude: Seq<u64>)
    requires
        ascending(items),
    ensures
        ascending(wanted(items, exclude)),
        forall|i: int|
            0 <= i < wanted(items, exclude).len() ==> (#[trigger] wanted(items, exclude)[i]).offset
                <= items.last().offset,
    decreases items.len(),
{
    if items.len() > 0 {
        let init = items.drop_last();
        lemma_wanted_ascends(init, exclude);
        if init.len() > 0 {
            assert(init.last().offset <= items.last().offset);
        }
    }
}

/// What is wanted of the hits is every hit that is not excluded, and nothing
/// else.
pub proof fn law_wanted_hits(items: Seq<SearchResultItem>, exclude: Seq<u64>, x: SearchResultItem)
    ensures
        wanted(items, exclude).contains(x) <==> items.contains(x) && !exclude.contains(
            x.index as u64,
        ),
    decreases items.len(),
{
    if items.len() > 0 {
        let init = items.drop_last();
        let last = items.last();
        law_wanted_hits(init, exclude, x);
        lemma_push_contains(init, last, x);
        lemma_push_contains(wanted(init, exclude), last, x);
        assert(init.push(last) =~= items);
    }
}

proof fn lemma_push_contains(s: Seq<SearchResultItem>, last: SearchResultItem, x: SearchResultItem)
    ensures
        s.push(last).contains(x) <==> s.contains(x) || last == x,
{
    let t = s.push(last);
    assert(t[s.len() as int] == last);
    if s.contains(x) {
        let i = choose|i: int| 0 <= i < s.len() && s[i] == x;
        assert(t[i] == x);
    }
}

/// One record as a hit, with its named properties.
fn to_hit(ordinal: u64, record: Vec<u8>, header: &Header, columns: &Vec<Column>) -> (res: Result<
    Hit,
>)
    requires
        columns_of(columns@) == listed_columns(header@),
    ensures
        outcome(res) == hit_in((ordinal, record@), header@),
{
    let fields: FeatureFields = feature_root(record.as_slice())?;
    let row: PropRow = decode_properties(header, &fields)?;
    let properties: Vec<(String, PropValue)> = name_properties(columns, row);
    Ok(Hit { ordinal, record, properties })
}

/// Read the features of `section` that a search hit, skipping ordinals in
/// `exclude` *before* reading any bytes. Returns the hits in offset order.
pub fn query_section(
    section: &FgbSection,
    r: &mut SparseReader,
    stats: &mut IoStats,
    items: &Vec<SearchResultItem>,
    exclude: &Vec<u64>,
) -> (res: Result<Vec<Hit>>)
    requires
        old(r).wf(),
    ensures
        final(r).wf(),
        ({
            let want = section_hits(
                session(*old(r), *old(stats)),
                section@,
                items@,
                exclude@,
            );
            &&& session(*final(r), *final(stats)) == want.0
            &&& match res {
                Ok(hits) => want.1 == core::result::Result::<Seq<HitModel>, Fault>::Ok(
                    hits_of(hits@),
                ),
                Err(e) => want.1 == core::result::Result::<Seq<HitModel>, Fault>::Err(e@),
            }
        }),
{
    let mut out: Vec<Hit> = Vec::new();
    assert(hits_of(out@) =~= Seq::<HitModel>::empty());
    let kept: Vec<SearchResultItem> = without_excluded(&sort_items(items), exclude);
    let n: usize = kept.len();
    if section.features_count == 0 || n == 0 {
        return Ok(out);
    }
    if !section.can_address(kept[n - 1].offset) {
        return Err(Error::Io(IoError::InvalidSeek));
    }
    proof {
        law_sorted_hits(items@);
        lemma_wanted_ascends(by_offset(items@), exclude@);
    }
    let records: Vec<(u64, Vec<u8>)> = section.read_features(r, stats, &kept)?;
    let header: &Header = section.header();
    let columns: Vec<Column> = column_names(header);
    let ghost all = records_of(records@);
    let ghost whole = hits_in(all, header@, 0);
    proof {
        if whole is Ok {
            assert(hits_of(out@) + whole->Ok_0 =~= whole->Ok_0);
        }
    }
    for record in it: records.into_iter()
        invariant
            all == records_of(it.seq()),
            columns_of(columns@) == listed_columns(header@),
            header@ == section@.header,
            whole == hits_in(all, header@, 0),
            r.wf(),
            ({
                let want = section_hits(
                    session(*old(r), *old(stats)),
                    section@,
                    items@,
                    exclude@,
                );
                &&& session(*r, *stats) == want.0
                &&& want.1 == whole
            }),
            match whole {
                Ok(hits) => hits_in(all, header@, it.index() as int) matches Ok(rest) && hits
                    == hits_of(out@) + rest,
                Err(f) => hits_in(all, header@, it.index() as int) == core::result::Result::<
                    Seq<HitModel>,
                    Fault,
                >::Err(f),
            },
    {
        assert(all[it.index() as int] == (record.0, record.1@));
        let (ordinal, buf): (u64, Vec<u8>) = record;
        let hit: Hit = to_hit(ordinal, buf, header, &columns)?;
        let ghost before = hits_of(out@);
        let ghost added = hit@;
        out.push(hit);
        proof {
            assert(hits_of(out@) =~= before.push(added));
            if whole is Ok {
                let rest = hits_in(all, header@, it.index() + 1)->Ok_0;
                assert(before + (seq![added] + rest) =~= hits_of(out@) + rest);
            }
        }
    }
    assert(hits_of(out@) + Seq::<HitModel>::empty() =~= hits_of(out@));
    Ok(out)
}

proof fn lemma_hits_in(records: Seq<(u64, Seq<u8>)>, header: HeaderModel, i: int)
    requires
        0 <= i <= records.len(),
        hits_in(records, header, i) is Ok,
    ensures
        ({
            let out = hits_in(records, header, i)->Ok_0;
            &&& out.len() == records.len() - i
            &&& forall|j: int|
                0 <= j < out.len() ==> hit_in(records[i + j], header) == core::result::Result::<
                    HitModel,
                    Fault,
                >::Ok(#[trigger] out[j])
        }),
    decreases records.len() - i,
{
    if i < records.len() {
        lemma_hits_in(records, header, i + 1);
        let rest = hits_in(records, header, i + 1)->Ok_0;
        let out = hits_in(records, header, i)->Ok_0;
        assert forall|j: int| 0 <= j < out.len() implies hit_in(records[i + j], header)
            == core::result::Result::<HitModel, Fault>::Ok(#[trigger] out[j]) by {
            if j > 0 {
                assert(out[j] == rest[j - 1]);
            }
        }
    }
}

/// The hit that stands in a file for an item of a search: its ordinal, its
/// record and its named properties.
pub open spec fn hit_of(file: Seq<u8>, sec: SectionModel, item: SearchResultItem) -> HitModel {
    hit_in(
        (item.index as u64, record_at(file, sec.data_offset + item.offset)),
        sec.header,
    )->Ok_0
}

/// A query of a section gives, for each wanted hit of the search and in the
/// order of their offsets, its ordinal, the record that stands at its offset
/// in the file, and the properties in this record.
pub proof fn law_hits_are_the_file(
    s: Session,
    sec: SectionModel,
    items: Seq<SearchResultItem>,
    exclude: Seq<u64>,
    file: Seq<u8>,
)
    requires
        reads_file(s, file),
        sec.features_count > 0,
        section_hits(s, sec, items, exclude).1 is Ok,
    ensures
        ({
            let kept = wanted(by_offset(items), exclude);
            let out = section_hits(s, sec, items, exclude).1->Ok_0;
            &&& out.len() == kept.len()
            &&& forall|j: int|
                0 <= j < out.len() ==> {
                    &&& #[trigger] out[j] == hit_of(file, sec, kept[j])
                    &&& out[j].ordinal == kept[j].index as u64
                    &&& out[j].record == record_at(file, sec.data_offset + kept[j].offset)
                    &&& fits_in(file, sec.data_offset + kept[j].offset)
                    &&& fgb_feature(out[j].record) matches Ok(fields) && properties_of(
                        sec.header,
                        fields,
                    ) matches Ok(row) && out[j].properties == named_model(
                        listed_columns(sec.header),
                        row,
                    )
                }
        }),
{
    let kept = wanted(by_offset(items), exclude);
    if kept.len() > 0 {
        law_sorted_hits(items);
        lemma_wanted_ascends(by_offset(items), exclude);
        law_features_are_the_file(s, sec, kept, file, 0);
        let records = features_read(s, sec, kept, 0).1->Ok_0;
        lemma_hits_in(records, sec.header, 0);
        let out = section_hits(s, sec, items, exclude).1->Ok_0;
        assert forall|j: int| 0 <= j < out.len() implies ({
            &&& #[trigger] out[j] == hit_of(file, sec, kept[j])
            &&& out[j].ordinal == kept[j].index as u64
            &&& out[j].record == record_at(file, sec.data_offset + kept[j].offset)
            &&& fits_in(file, sec.data_offset + kept[j].offset)
            &&& fgb_feature(out[j].record) matches Ok(fields) && properties_of(
                sec.header,
                fields,
            ) matches Ok(row) && out[j].properties == named_model(listed_columns(sec.header), row)
        }) by {
            assert(records[0 + j] == records[j]);
            assert(kept[0 + j] == kept[j]);
            assert(hit_in(records[j], sec.header) == core::result::Result::<HitModel, Fault>::Ok(
                out[j],
            ));
        }
    }
}

/// However much of a file two readers have cached, and whatever they read
/// before: where a query of a section succeeds for both, both get the same
/// hits.
pub proof fn law_hits_agree(
    s: Session,
    t: Session,
    sec: SectionModel,
    items: Seq<SearchResultItem>,
    exclude: Seq<u64>,
    file: Seq<u8>,
)
    requires
        reads_file(s, file),
        reads_file(t, file),
        section_hits(s, sec, items, exclude).1 is Ok,
        section_hits(t, sec, items, exclude).1 is Ok,
    ensures
        section_hits(s, sec, items, exclude).1 == section_hits(t, sec, items, exclude).1,
{
    if sec.features_count > 0 {
        law_hits_are_the_file(s, sec, items, exclude, file);
        law_hits_are_the_file(t, sec, items, exclude, file);
        assert(section_hits(s, sec, items, exclude).1->Ok_0 =~= section_hits(
            t,
            sec,
            items,
            exclude,
        ).1->Ok_0);
    }
}

/// The baseline reads the plain file: where a query of the body succeeds both
/// in a file that starts with it and in the body by itself, both give the same
/// hits. How far the section is said to reach does not matter.
pub proof fn law_body_hits_are_those_of_the_plain_file(
    s: Session,
    t: Session,
    sec: SectionModel,
    size: u64,
    items: Seq<SearchResultItem>,
    exclude: Seq<u64>,
    file: Seq<u8>,
    body: Seq<u8>,
)
    requires
        reads_file(s, file),
        reads_file(t, body),
        stands_at(file, 0, body),
        section_hits(s, sec, items, exclude).1 is Ok,
        section_hits(t, SectionModel { size, ..sec }, items, exclude).1 is Ok,
    ensures
        section_hits(s, sec, items, exclude).1 == section_hits(
            t,
            SectionModel { size, ..sec },
            items,
            exclude,
        ).1,
{
    let own = SectionModel { size, ..sec };
    if sec.features_count > 0 {
        law_hits_are_the_file(s, sec, items, exclude, file);
        law_hits_are_the_file(t, own, items, exclude, body);
        let a = section_hits(s, sec, items, exclude).1->Ok_0;
        let b = section_hits(t, own, items, exclude).1->Ok_0;
        let kept = wanted(by_offset(items), exclude);
        assert forall|j: int| 0 <= j < a.len() implies a[j] == b[j] by {
            let abs = sec.data_offset + kept[j].offset;
            assert(a[j] == hit_of(file, sec, kept[j]));
            assert(b[j] == hit_of(body, own, kept[j]));
            assert(body.subrange(abs, abs + 4) =~= file.subrange(abs, abs + 4));
            assert(record_at(body, abs) =~= record_at(file, abs));
        }
        assert(a =~= b);
    }
}

/// A feature returned by a tile query: geometry in lon/lat plus decoded
/// properties.
#[derive(Debug, PartialEq)]
pub struct TileFeature {
    pub geometry: Geometry,
    pub properties: Vec<(String, PropValue)>,
}

/// A feature as a mathematical value.
#[verifier::ext_equal]
pub struct TileFeatureModel {
    pub geometry: GeometryModel,
    pub properties: Seq<(Seq<char>, PropModel)>,
}

impl View for TileFeature {
    type V = TileFeatureModel;

    open spec fn view(&self) -> TileFeatureModel {
        TileFeatureModel { geometry: self.geometry@, properties: named_of(self.properties@) }
    }
}

/// Features as mathematical values.
pub open spec fn features_of(fs: Seq<TileFeature>) -> Seq<TileFeatureModel> {
    Seq::new(fs.len(), |i: int| fs[i]@)
}

/// Features with their ordinals as mathematical values.
pub open spec fn numbered_of(fs: Seq<(u64, TileFeature)>) -> Seq<(u64, TileFeatureModel)> {
    Seq::new(fs.len(), |i: int| (fs[i].0, fs[i].1@))
}

/// Reading the importance array costs one range request per feature.
/// For low-vertex geometries (e.g. building footprints) the filter
/// cannot meaningfully reduce anything, so the read is skipped entirely:
/// keeping extra vertices is always a valid (less aggressive)
/// simplification.
pub const SKIP_FILTER_MAX_COORDS: usize = 32;

/// Simplifying one body feature. With a sidecar, small geometries and those
/// without an array stay as they are, and others are filtered with the stored
/// importance: an array that is too short leaves out vertices at the end, and
/// is refused where it ends before the last part of the geometry begins.
/// Without a sidecar, importance is computed on the fly.
pub open spec fn feature_simplified<
    P: Fn(Coord) -> Coord,
    D: Fn((Coord, Coord, Coord)) -> u64,
    Q: Fn(u64) -> u16,
>(
    m: ReaderModel,
    s: Session,
    source: TileSource,
    q: u16,
    project: P,
    dist: D,
    quantize: Q,
    ordinal: u64,
    g: GeometryModel,
) -> (ReaderModel, Session, core::result::Result<Option<GeometryModel>, Fault>) {
    if source != TileSource::BodyImportance {
        let imp = geometry_values(mapped(g, project), dist, quantize);
        (m, s, Ok(kept_geometry(g, imp, 0, q)))
    } else if geometry_coords(g).len() <= SKIP_FILTER_MAX_COORDS {
        (m, s, Ok(Some(g)))
    } else {
        let (m1, s1, imp) = importance_read(m, s, ordinal);
        match imp {
            Err(f) => (m1, s1, Err(f)),
            Ok(None) => (m1, s1, Ok(Some(g))),
            Ok(Some(imp)) => if begins(g, 0, imp.len() as int) {
                (m1, s1, Ok(kept_geometry(g, imp, 0, q)))
            } else {
                (m1, s1, Err(Fault::Format("importance array too short"@)))
            },
        }
    }
}

/// The stored importance serves a body feature like the computation on the
/// fly: where the sidecar holds the array that the encoder stages for a
/// feature, filtering with it gives what plain fgb gives, for every threshold.
/// Small geometries are not filtered, so they are left out here.
pub proof fn law_stored_importance_serves_like_live<
    P: Fn(Coord) -> Coord,
    D: Fn((Coord, Coord, Coord)) -> u64,
    Q: Fn(u64) -> u16,
>(
    m: ReaderModel,
    s: Session,
    q: u16,
    project: P,
    dist: D,
    quantize: Q,
    ordinal: u64,
    g: GeometryModel,
)
    requires
        storable(g),
        geometry_coords(g).len() > SKIP_FILTER_MAX_COORDS,
        importance_read(m, s, ordinal).2 == core::result::Result::<Option<Seq<u16>>, Fault>::Ok(
            Some(geometry_values(mapped(g, project), dist, quantize)),
        ),
    ensures
        feature_simplified(
            m,
            s,
            TileSource::BodyImportance,
            q,
            project,
            dist,
            quantize,
            ordinal,
            g,
        ).2 == feature_simplified(
            m,
            s,
            TileSource::BodyLive,
            q,
            project,
            dist,
            quantize,
            ordinal,
            g,
        ).2,
{
    lemma_mapped_storable(g, project);
    law_mapped_coords(g, project);
    law_importance_matches_coords(mapped(g, project), dist, quantize);
    law_full_array_suffices(g, 0, geometry_coords(g).len() as int);
}

/// Simplifying the body features from `i` on; those that degenerate are
/// dropped.
pub open spec fn body_simplified<
    P: Fn(Coord) -> Coord,
    D: Fn((Coord, Coord, Coord)) -> u64,
    Q: Fn(u64) -> u16,
>(
    m: ReaderModel,
    s: Session,
    source: TileSource,
    q: u16,
    project: P,
    dist: D,
    quantize: Q,
    fs: Seq<(u64, TileFeatureModel)>,
    i: int,
) -> (ReaderModel, Session, core::result::Result<Seq<TileFeatureModel>, Fault>)
    decreases fs.len() - i,
{
    if i >= fs.len() {
        (m, s, Ok(Seq::empty()))
    } else {
        let (m1, s1, got) = feature_simplified(
            m,
            s,
            source,
            q,
            project,
            dist,
            quantize,
            fs[i].0,
            fs[i].1.geometry,
        );
        match got {
            Err(f) => (m1, s1, Err(f)),
            Ok(shape) => {
                let (m2, s2, rest) = body_simplified(
                    m1,
                    s1,
                    source,
                    q,
                    project,
                    dist,
                    quantize,
                    fs,
                    i + 1,
                );
                match (shape, rest) {
                    (_, Err(f)) => (m2, s2, Err(f)),
                    (None, Ok(rest)) => (m2, s2, Ok(rest)),
                    (Some(geometry), Ok(rest)) => (
                        m2,
                        s2,
                        Ok(seq![TileFeatureModel { geometry, ..fs[i].1 }] + rest),
                    ),
                }
            },
        }
    }
}

impl FgboReader {
    fn simplify_feature<
        P: Fn(Coord) -> Coord,
        D: Fn((Coord, Coord, Coord)) -> u64,
        Q: Fn(u64) -> u16,
    >(
        &mut self,
        r: &mut SparseReader,
        stats: &mut IoStats,
        source: TileSource,
        q: u16,
        project: &P,
        dist: &D,
        quantize: &Q,
        ordinal: u64,
        geometry: Geometry,
    ) -> (res: Result<Option<Geometry>>)
        requires
            old(r).wf(),
            old(self)@.wf(),
            is_function(*project),
            is_function(*dist),
            is_function(*quantize),
            storable(geometry@),
        ensures
            final(r).wf(),
            final(self)@.wf(),
            ({
                let want = feature_simplified(
                    old(self)@,
                    session(*old(r), *old(stats)),
                    source,
                    q,
                    *project,
                    *dist,
                    *quantize,
                    ordinal,
                    geometry@,
                );
                &&& final(self)@ == want.0
                &&& session(*final(r), *final(stats)) == want.1
                &&& match res {
                    Ok(g) => want.2 == core::result::Result::<Option<GeometryModel>, Fault>::Ok(
                        shape_of(g),
                    ),
                    Err(e) => want.2 == core::result::Result::<Option<GeometryModel>, Fault>::Err(
                        e@,
                    ),
                }
            }),
    {
        if source != TileSource::BodyImportance {
            // plain fgb: live DP (baseline path)
            let merc: Geometry = map_coords(&geometry, project);
            proof {
                lemma_mapped_storable(geometry@, *project);
                law_mapped_coords(geometry@, *project);
            }
            let imp: Vec<u16> = geometry_importance(&merc, dist, quantize);
            proof {
                law_full_array_suffices(geometry@, 0, imp@.len() as int);
            }
            return Ok(filter_geometry(&geometry, imp.as_slice(), q));
        }
        if coord_count(&geometry) <= SKIP_FILTER_MAX_COORDS {
            return Ok(Some(geometry));
        }
        match self.importance_for(r, stats, ordinal)? {
            None => Ok(Some(geometry)),
            Some(imp) => match filter_if_long_enough(&geometry, imp.as_slice(), q) {
                Some(filtered) => Ok(filtered),
                None => Err(Error::format("importance array too short")),
            },
        }
    }

    /// Simplifies the features that a query of the body gave. `q` is the
    /// importance threshold of the tile; `project`, `dist` and `quantize` are
    /// those of the encoder.
    pub fn simplify_body<
        P: Fn(Coord) -> Coord,
        D: Fn((Coord, Coord, Coord)) -> u64,
        Q: Fn(u64) -> u16,
    >(
        &mut self,
        r: &mut SparseReader,
        stats: &mut IoStats,
        source: TileSource,
        q: u16,
        project: &P,
        dist: &D,
        quantize: &Q,
        features: Vec<(u64, TileFeature)>,
    ) -> (res: Result<Vec<TileFeature>>)
        requires
            old(r).wf(),
            old(self)@.wf(),
            is_function(*project),
            is_function(*dist),
            is_function(*quantize),
            forall|i: int|
                0 <= i < features@.len() ==> storable((#[trigger] features@[i]).1@.geometry),
        ensures
            final(r).wf(),
            final(self)@.wf(),
            ({
                let want = body_simplified(
                    old(self)@,
                    session(*old(r), *old(stats)),
                    source,
                    q,
                    *project,
                    *dist,
                    *quantize,
                    numbered_of(features@),
                    0,
                );
                &&& final(self)@ == want.0
                &&& session(*final(r), *final(stats)) == want.1
                &&& match res {
                    Ok(fs) => want.2 == core::result::Result::<Seq<TileFeatureModel>, Fault>::Ok(
                        features_of(fs@),
                    ),
                    Err(e) => want.2 == core::result::Result::<Seq<TileFeatureModel>, Fault>::Err(
                        e@,
                    ),
                }
            }),
    {
        let mut out: Vec<TileFeature> = Vec::new();
        let ghost fs = numbered_of(features@);
        let ghost whole = body_simplified(
            self@,
            session(*r, *stats),
            source,
            q,
            *project,
            *dist,
            *quantize,
            fs,
            0,
        );
        assert(features_of(out@) =~= Seq::<TileFeatureModel>::empty());
        proof {
            if whole.2 is Ok {
                assert(features_of(out@) + whole.2->Ok_0 =~= whole.2->Ok_0);
            }
        }
        for numbered in it: features.into_iter()
            invariant
                r.wf(),
                self@.wf(),
                is_function(*project),
                is_function(*dist),
                is_function(*quantize),
                it.seq() == features@,
                fs == numbered_of(features@),
                forall|i: int|
                    0 <= i < features@.len() ==> storable((#[trigger] features@[i]).1@.geometry),
                whole == body_simplified(
                    old(self)@,
                    session(*old(r), *old(stats)),
                    source,
                    q,
                    *project,
                    *dist,
                    *quantize,
                    fs,
                    0,
                ),
                ({
                    let rest = body_simplified(
                        self@,
                        session(*r, *stats),
                        source,
                        q,
                        *project,
                        *dist,
                        *quantize,
                        fs,
                        it.index() as int,
                    );
                    &&& rest.0 == whole.0
                    &&& rest.1 == whole.1
                    &&& match whole.2 {
                        Ok(all) => rest.2 matches Ok(rest) && all == features_of(out@) + rest,
                        Err(f) => rest.2 == core::result::Result::<
                            Seq<TileFeatureModel>,
                            Fault,
                        >::Err(f),
                    }
                }),
        {
            let ghost k = it.index() as int;
            assert(numbered == features@[k]);
            assert(fs[k] == (numbered.0, numbered.1@));
            let (ordinal, feature): (u64, TileFeature) = numbered;
            let TileFeature { geometry, properties } = feature;
            let ghost before = features_of(out@);
            let ghost props = named_of(properties@);
            match self.simplify_feature(
                r,
                stats,
                source,
                q,
                project,
                dist,
                quantize,
                ordinal,
                geometry,
            )? {
                None => {},
                Some(geometry) => {
                    let f: TileFeature = TileFeature { geometry, properties };
                    let ghost added = f@;
                    out.push(f);
                    proof {
                        assert(features_of(out@) =~= before.push(added));
                        if whole.2 is Ok {
                            let rest = body_simplified(
                                self@,
                                session(*r, *stats),
                                source,
                                q,
                                *project,
                                *dist,
                                *quantize,
                                fs,
                                k + 1,
                            ).2->Ok_0;
                            assert(before + (seq![added] + rest) =~= features_of(out@) + rest);
                        }
                    }
                },
            }
        }
        assert(features_of(out@) + Seq::<TileFeatureModel>::empty() =~= features_of(out@));
        Ok(out)
    }
}

/// Result of a tile query.
#[derive(Debug, PartialEq)]
pub struct TileQuery {
    pub features: Vec<TileFeature>,
    pub source: TileSource,
    /// Fragments from the segments section included in `features`.
    pub fragment_features: usize,
}

impl TileQuery {
    /// The result for a route: the features of its section, and the fragments
    /// behind them.
    pub fn assemble(
        route: TileRoute,
        features: Vec<TileFeature>,
        fragments: Vec<TileFeature>,
    ) -> (q: TileQuery)
        ensures
            features_of(q.features@) == features_of(features@) + features_of(fragments@),
            q.source == route.source,
            q.fragment_features == fragments@.len(),
    {
        let mut features: Vec<TileFeature> = features;
        let mut fragments: Vec<TileFeature> = fragments;
        let fragment_features: usize = fragments.len();
        let ghost before = features@;
        let ghost added = fragments@;
        features.append(&mut fragments);
        assert(features_of(features@) =~= features_of(before) + features_of(added));
        TileQuery { features, source: route.source, fragment_features }
    }
}

/// The last bytes of a file are a footer that leads to the directory `d`,
/// with its checksum.
pub open spec fn carries(file: Seq<u8>, d: DirectoryModel) -> bool {
    &&& file.len() >= FOOTER_SIZE
    &&& footer_of(file.subrange(file.len() - FOOTER_SIZE, file.len() as int)) matches Some(f) && {
        let dir = file.subrange(f.dir_offset as int, f.dir_offset + f.dir_size);
        &&& f.dir_offset + f.dir_size <= file.len()
        &&& 0 < f.dir_size <= usize::MAX
        &&& crc32_of(dir) == f.dir_crc32
        &&& directory_of(dir) == core::result::Result::<DirectoryModel, Fault>::Ok(d)
    }
}

/// Whatever part of a file is cached: if footer discovery succeeds, it finds
/// the directory that the file carries.
pub proof fn law_carried_directory_is_found(s: Session, file: Seq<u8>, d: DirectoryModel)
    requires
        reads_file(s, file),
        carries(file, d),
        directory_read(s).1 is Ok,
    ensures
        directory_read(s).1 == core::result::Result::<Option<DirectoryModel>, Fault>::Ok(Some(d)),
{
    let len = file.len() as int;
    lemma_ranged_is_the_file(s, file, len - FOOTER_SIZE, FOOTER_SIZE as int);
    let (s1, tail) = ranged(s, len - FOOTER_SIZE, FOOTER_SIZE as int);
    let f = footer_of(tail->Ok_0)->0;
    lemma_ranged_is_the_file(s1, file, f.dir_offset as int, f.dir_size as int);
}

/// With the whole file in the cache, footer discovery does succeed: the
/// directory that the file carries is found.
pub proof fn law_whole_file_gives_directory(s: Session, file: Seq<u8>, d: DirectoryModel)
    requires
        s.source == whole_file(file),
        file.len() < 0x8000_0000_0000_0000,
        carries(file, d),
    ensures
        directory_read(s).1 == core::result::Result::<Option<DirectoryModel>, Fault>::Ok(Some(d)),
{
    let len = file.len() as int;
    law_whole_file_reads(file, len - FOOTER_SIZE, FOOTER_SIZE as int);
    let f = footer_of(file.subrange(len - FOOTER_SIZE, len))->0;
    law_whole_file_reads(file, f.dir_offset as int, f.dir_size as int);
}

/// The footer `f` ends a file and leads to the bytes of `d`.
spec fn leads_to(file: Seq<u8>, f: Footer, d: DirectoryModel) -> bool {
    let dir = file.subrange(f.dir_offset as int, f.dir_offset + f.dir_size);
    &&& file.len() >= FOOTER_SIZE
    &&& footer_of(file.subrange(file.len() - FOOTER_SIZE, file.len() as int)) == Some(f)
    &&& f.dir_offset + f.dir_size <= file.len()
    &&& crc32_of(dir) == f.dir_crc32
    &&& directory_of(dir) == core::result::Result::<DirectoryModel, Fault>::Ok(d)
}

proof fn lemma_leads_to_carries(file: Seq<u8>, f: Footer, d: DirectoryModel)
    requires
        leads_to(file, f, d),
        0 < f.dir_size <= usize::MAX,
    ensures
        carries(file, d),
{
}

proof fn lemma_directory_has_bytes(d: DirectoryModel)
    ensures
        directory_seq(d).len() > 0,
{
    assert(directory_seq(d)[0] == crate::format::DIRECTORY_VERSION);
}

/// A file that the encoder wrote carries its directory, so that opening it
/// finds what was written.
pub proof fn law_written_file_carries_directory(
    p: FileParts,
    st: EncodeModel,
    levels: Seq<LevelPlan>,
    v_max: u32,
    zbase: u8,
    w: Written,
    info: Seq<char>,
)
    requires
        sized(p, w, st),
        levels.len() == st.level_counts.len(),
        levels.len() == w.overview_sizes@.len(),
        directory_start(w, st) + directory_seq(
            directory_for(st, levels, v_max, zbase, w, info),
        ).len() + FOOTER_SIZE <= u64::MAX,
        directory_seq(directory_for(st, levels, v_max, zbase, w, info)).len() <= usize::MAX,
        directory_encodable(directory_for(st, levels, v_max, zbase, w, info)),
    ensures
        ({
            let d = directory_for(st, levels, v_max, zbase, w, info);
            carries(file_of(p, d, footer_for(d, directory_start(w, st))), d)
        }),
{
    let d = directory_for(st, levels, v_max, zbase, w, info);
    let f = footer_for(d, directory_start(w, st));
    let file = file_of(p, d, f);
    assert(leads_to(file, f, d)) by {
        law_written_file_reads_back(p, st, levels, v_max, zbase, w, info);
    }
    lemma_directory_has_bytes(d);
    lemma_leads_to_carries(file, f, d);
}

/// Opening a file that starts with a body and carries a directory.
proof fn lemma_carrying_file_opens(
    s: Session,
    t: Session,
    file: Seq<u8>,
    body: Seq<u8>,
    d: DirectoryModel,
)
    requires
        s.source == whole_file(file),
        t.source == whole_file(body),
        file.len() < 0x8000_0000_0000_0000,
        carries(file, d),
        stands_at(file, 0, body),
        opened(t, 0, file.len() as u64).1 is Ok,
        opened(t, 0, file.len() as u64).1->Ok_0.data_offset <= body.len(),
    ensures
        reader_opened(s).1 == core::result::Result::<ReaderModel, Fault>::Ok(
            fresh_reader(
                file.len() as int,
                Some(d),
                opened(t, 0, file.len() as u64).1->Ok_0,
            ),
        ),
{
    law_whole_file_gives_directory(s, file, d);
    let s1 = directory_read(s).0;
    law_section_is_a_file_of_its_own(s1, t, file, body, 0, file.len() as u64);
}

/// What was written is read: opening a file that the encoder wrote gives the
/// directory that was written, and the body opens as it does by itself.
pub proof fn law_written_file_opens(
    s: Session,
    t: Session,
    p: FileParts,
    st: EncodeModel,
    levels: Seq<LevelPlan>,
    v_max: u32,
    zbase: u8,
    w: Written,
    info: Seq<char>,
)
    requires
        sized(p, w, st),
        levels.len() == st.level_counts.len(),
        levels.len() == w.overview_sizes@.len(),
        ({
            let d = directory_for(st, levels, v_max, zbase, w, info);
            let start = directory_start(w, st);
            let file = file_of(p, d, footer_for(d, start));
            &&& start + directory_seq(d).len() + FOOTER_SIZE < 0x8000_0000_0000_0000
            &&& directory_seq(d).len() <= usize::MAX
            &&& directory_encodable(d)
            &&& s.source == whole_file(file)
            &&& t.source == whole_file(p.body)
            &&& opened(t, 0, file.len() as u64).1 is Ok
            &&& opened(t, 0, file.len() as u64).1->Ok_0.data_offset <= p.body.len()
        }),
    ensures
        ({
            let d = directory_for(st, levels, v_max, zbase, w, info);
            let len = s.source.len;
            reader_opened(s).1 == core::result::Result::<ReaderModel, Fault>::Ok(
                fresh_reader(len, Some(d), opened(t, 0, len as u64).1->Ok_0),
            )
        }),
{
    let d = directory_for(st, levels, v_max, zbase, w, info);
    let file = file_of(p, d, footer_for(d, directory_start(w, st)));
    law_written_file_carries_directory(p, st, levels, v_max, zbase, w, info);
    assert(stands_at(file, 0, p.body) && file.len() == directory_start(w, st) + directory_seq(
        d,
    ).len() + FOOTER_SIZE) by {
        law_written_file_reads_back(p, st, levels, v_max, zbase, w, info);
    }
    lemma_carrying_file_opens(s, t, file, p.body, d);
}

/// Without the footer magic a file has no directory: it is served as plain
/// fgb.
pub proof fn law_file_without_magic_is_plain(s: Session, file: Seq<u8>)
    requires
        reads_file(s, file),
        footer_of(file) is None,
        directory_read(s).1 is Ok,
    ensures
        directory_read(s).1 == core::result::Result::<Option<DirectoryModel>, Fault>::Ok(None),
{
    let len = file.len() as int;
    if len >= FOOTER_SIZE {
        lemma_ranged_is_the_file(s, file, len - FOOTER_SIZE, FOOTER_SIZE as int);
        let tail = file.subrange(len - FOOTER_SIZE, len);
        assert(tail.subrange(0, 8) =~= file.subrange(len - FOOTER_SIZE, len - FOOTER_SIZE + 8));
    }
}

/// The sidecar `m` stands in a file at `offset`.
pub open spec fn holds_sidecar(file: Seq<u8>, offset: int, m: SidecarModel) -> bool {
    &&& 0 <= offset
    &&& offset + sidecar_seq(m).len() <= file.len()
    &&& file.subrange(offset, offset + sidecar_seq(m).len()) == sidecar_seq(m)
}

/// The offset table of a sidecar in a file.
proof fn lemma_sidecar_table(file: Seq<u8>, offset: u64, m: SidecarModel)
    requires
        file.len() <= u64::MAX,
        m.built(),
        m.offsets.len() <= u64::MAX,
        holds_sidecar(file, offset as int, m),
    ensures
        offset + 8 + 8 * m.offsets.len() <= u64::MAX,
        table_in(file, offset) == (TableModel {
            payload_offset: (offset + 8 + 8 * m.offsets.len()) as u64,
            offsets: m.offsets,
        }),
{
    let enc = sidecar_seq(m);
    let at = offset as int;
    let n = m.offsets.len();
    lemma_sidecar_parts(m);
    assert(file.subrange(at, at + 8) =~= enc.subrange(0, 8));
    let table = enc.subrange(8, 8 + 8 * n as int);
    assert(table =~= file.subrange(at + 8, at + 8 + 8 * n as int));
    lemma_numbers_in_part(enc, 8, table, n);
    lemma_numbers_in_part(file, at + 8, table, n);
}

/// The array of a feature of a sidecar in a file.
proof fn lemma_sidecar_array(file: Seq<u8>, at: int, m: SidecarModel, i: int)
    requires
        m.built(),
        m.offsets.len() <= u64::MAX,
        holds_sidecar(file, at, m),
        0 <= i < m.count(),
    ensures
        m.offsets[i] <= m.offsets[i + 1],
        u16s_at(
            file,
            at + 8 + 8 * m.offsets.len() + m.offsets[i],
            ((m.offsets[i + 1] - m.offsets[i]) / 2) as nat,
        ) == m.array(i),
{
    let enc = sidecar_seq(m);
    lemma_sidecar_parts(m);
    law_array_stands_in_payload(m, i);
    let start = 8 + 8 * m.offsets.len() + m.offsets[i];
    let k = ((m.offsets[i + 1] - m.offsets[i]) / 2) as nat;
    assert forall|j: int| 0 <= j < k implies u16s_at(file, at + start, k)[j] == u16s_at(
        enc,
        start,
        k,
    )[j] by {
        assert(file.subrange(at + start + 2 * j, at + start + 2 * j + 2) =~= enc.subrange(
            start + 2 * j,
            start + 2 * j + 2,
        ));
    }
    assert(u16s_at(file, at + start, k) =~= u16s_at(enc, start, k));
}

/// The importance array that was stored for a feature comes back: reading the
/// offset table of a sidecar in the file and then the array of a feature
/// gives the array that was appended for it.
pub proof fn law_importance_comes_back(
    s: Session,
    file: Seq<u8>,
    offset: u64,
    m: SidecarModel,
    ordinal: u64,
)
    requires
        reads_file(s, file),
        file.len() <= u64::MAX,
        m.built(),
        m.offsets.len() <= u64::MAX,
        holds_sidecar(file, offset as int, m),
        ordinal < m.count(),
        table_read(s, offset).1 is Ok,
        array_read(table_read(s, offset).0, table_read(s, offset).1->Ok_0, ordinal).1 is Ok,
    ensures
        array_read(table_read(s, offset).0, table_read(s, offset).1->Ok_0, ordinal).1
            == core::result::Result::<Option<Seq<u16>>, Fault>::Ok(Some(m.array(ordinal as int))),
{
    lemma_sidecar_table(file, offset, m);
    lemma_sidecar_array(file, offset as int, m, ordinal as int);
    lemma_table_is_the_file(s, file, offset);
    let (s1, t) = table_read(s, offset);
    lemma_array_is_the_file(s1, file, t->Ok_0, ordinal);
}

/// Numbers in a part of a byte string are those at its place in the whole.
proof fn lemma_numbers_in_part(whole: Seq<u8>, at: int, part: Seq<u8>, n: nat)
    requires
        0 <= at,
        part.len() == 8 * n,
        at + part.len() <= whole.len(),
        part == whole.subrange(at, at + part.len()),
    ensures
        u64s_at(part, 0, n) == u64s_at(whole, at, n),
{
    assert forall|j: int| 0 <= j < n implies u64s_at(part, 0, n)[j] == u64s_at(whole, at, n)[j] by {
        assert(part.subrange(8 * j, 8 * j + 8) =~= whole.subrange(at + 8 * j, at + 8 * j + 8));
    }
    assert(u64s_at(part, 0, n) =~= u64s_at(whole, at, n));
}

// ---- what a reader reads is in the file ------------------------------------

/// The section that stands in a file at `offset`.
pub open spec fn section_in(file: Seq<u8>, offset: u64, size: u64) -> SectionModel {
    let header_size = field(file, offset + 8, 4) as int;
    let header = fgb_header(file.subrange(offset + 8, offset + 12 + header_size))->Ok_0;
    section_with(offset, size, header_size, header)
}

/// The offset table of the sidecar that stands in a file at `offset`.
pub open spec fn table_in(file: Seq<u8>, offset: u64) -> TableModel {
    let n = field(file, offset as int, 8) + 1;
    TableModel {
        payload_offset: (offset + 8 + 8 * n) as u64,
        offsets: u64s_at(file, offset + 8, n),
    }
}

/// The importance array of a feature in the sidecar that a directory names.
pub open spec fn importance_in(
    file: Seq<u8>,
    directory: Option<DirectoryModel>,
    ordinal: u64,
) -> Option<Seq<u16>> {
    match directory {
        Some(d) => match d.importance {
            Some(e) => {
                let t = table_in(file, e.offset);
                if ordinal + 1 >= t.offsets.len() {
                    None
                } else {
                    let size = t.offsets[ordinal + 1] - t.offsets[ordinal as int];
                    Some(
                        u16s_at(
                            file,
                            t.payload_offset + t.offsets[ordinal as int],
                            (size / 2) as nat,
                        ),
                    )
                }
            },
            None => None,
        },
        None => None,
    }
}

/// The directory that the footer of a file leads to, if there is one.
pub open spec fn directory_in(file: Seq<u8>) -> Option<DirectoryModel> {
    if file.len() < FOOTER_SIZE {
        None
    } else {
        match footer_of(file.subrange(file.len() - FOOTER_SIZE, file.len() as int)) {
            None => None,
            Some(f) => Some(
                directory_of(
                    file.subrange(f.dir_offset as int, f.dir_offset + f.dir_size),
                )->Ok_0,
            ),
        }
    }
}

/// A reader shows what the file holds: its directory and its body, whose
/// header lies in the file, and what was loaded on the way.
pub open spec fn true_to(m: ReaderModel, file: Seq<u8>) -> bool {
    &&& m.directory == directory_in(file)
    &&& m.body == section_in(file, 0, file.len() as u64)
    &&& 12 + field(file, 8, 4) <= file.len()
    &&& match m.directory {
        Some(d) => {
            &&& m.overviews.len() == d.overviews.len()
            &&& forall|i: int|
                0 <= i < m.overviews.len() && (#[trigger] m.overviews[i]) is Some
                    ==> m.overviews[i]->0 == section_in(
                    file,
                    d.overviews[i].offset,
                    d.overviews[i].size,
                )
            &&& m.segments matches Some(sec) ==> d.segments matches Some(e) && sec == section_in(
                file,
                e.offset,
                e.size,
            )
            &&& m.table matches Some(t) ==> d.importance matches Some(e) && t == table_in(
                file,
                e.offset,
            )
        },
        None => m.segments is None && m.table is None && m.overviews.len() == 0,
    }
}

/// A section that was opened is the one that stands in the file: two readers
/// of one file open the same section.
pub proof fn law_section_is_the_file(s: Session, file: Seq<u8>, offset: u64, size: u64)
    requires
        reads_file(s, file),
    ensures
        reads_file(opened(s, offset, size).0, file),
        opened(s, offset, size).1 matches Ok(sec) ==> sec == section_in(file, offset, size)
            && offset + 12 + field(file, offset + 8, 4) <= file.len(),
{
    lemma_ranged_is_the_file(s, file, offset as int, 12);
    let (s1, first) = ranged(s, offset as int, 12);
    if first is Ok {
        let head = first->Ok_0;
        let header_size = field(head, 8, 4) as int;
        lemma_ranged_is_the_file(s1, file, offset + 12, header_size);
        assert(head.subrange(8, 12) =~= file.subrange(offset + 8, offset + 12));
        let second = ranged(s1, offset + 12, header_size).1;
        if second is Ok {
            assert(head.subrange(8, 12) + second->Ok_0 =~= file.subrange(
                offset + 8,
                offset + 12 + header_size,
            ));
        }
    }
}

proof fn lemma_directory_is_the_file(s: Session, file: Seq<u8>)
    requires
        reads_file(s, file),
    ensures
        reads_file(directory_read(s).0, file),
        directory_read(s).1 matches Ok(d) ==> d == directory_in(file),
{
    let len = file.len() as int;
    if len >= FOOTER_SIZE {
        lemma_ranged_is_the_file(s, file, len - FOOTER_SIZE, FOOTER_SIZE as int);
        let (s1, tail) = ranged(s, len - FOOTER_SIZE, FOOTER_SIZE as int);
        if tail is Ok {
            if let Some(f) = footer_of(tail->Ok_0) {
                lemma_ranged_is_the_file(s1, file, f.dir_offset as int, f.dir_size as int);
                let buf = ranged(s1, f.dir_offset as int, f.dir_size as int).1;
                if buf is Ok && f.dir_offset + f.dir_size <= len {
                    assert(buf->Ok_0 =~= file.subrange(
                        f.dir_offset as int,
                        f.dir_offset + f.dir_size,
                    ));
                }
            }
        }
    }
}

/// A reader that was opened shows what the file holds, however much of the
/// file is cached: two readers of one file open alike.
pub proof fn law_reader_is_the_file(s: Session, file: Seq<u8>)
    requires
        reads_file(s, file),
        file.len() <= u64::MAX,
    ensures
        reads_file(reader_opened(s).0, file),
        reader_opened(s).1 matches Ok(m) ==> {
            &&& m == fresh_reader(
                file.len() as int,
                directory_in(file),
                section_in(file, 0, file.len() as u64),
            )
            &&& true_to(m, file)
        },
{
    lemma_directory_is_the_file(s, file);
    law_section_is_the_file(directory_read(s).0, file, 0, file.len() as u64);
}

/// Opening an overview section or the segments section leaves a reader true
/// to the file.
pub proof fn law_opening_stays_true(m: ReaderModel, s: Session, file: Seq<u8>, idx: int)
    requires
        true_to(m, file),
        reads_file(s, file),
        0 <= idx < m.overviews.len(),
    ensures
        true_to(overview_ensured(m, s, idx).0, file),
        reads_file(overview_ensured(m, s, idx).1, file),
{
    if m.directory is Some && m.overviews[idx] is None {
        let e = m.directory->0.overviews[idx];
        law_section_is_the_file(s, file, e.offset, e.size);
    }
}

/// See [`law_opening_stays_true`].
pub proof fn law_opening_segments_stays_true(m: ReaderModel, s: Session, file: Seq<u8>)
    requires
        true_to(m, file),
        reads_file(s, file),
    ensures
        true_to(segments_ensured(m, s).0, file),
        reads_file(segments_ensured(m, s).1, file),
{
    if m.segments is None && m.directory is Some && m.directory->0.segments is Some {
        let e = m.directory->0.segments->0;
        law_section_is_the_file(s, file, e.offset, e.size);
    }
}

proof fn lemma_table_is_the_file(s: Session, file: Seq<u8>, offset: u64)
    requires
        reads_file(s, file),
    ensures
        reads_file(table_read(s, offset).0, file),
        table_read(s, offset).1 matches Ok(t) ==> t == table_in(file, offset),
{
    let at = offset as int;
    lemma_ranged_is_the_file(s, file, at, 8);
    let (s1, head) = ranged(s, at, 8);
    if head is Ok {
        assert(head->Ok_0.subrange(0, 8) =~= file.subrange(at, at + 8));
        let n = field(file, at, 8) + 1;
        lemma_ranged_is_the_file(s1, file, at + 8, 8 * n as int);
        let table = ranged(s1, at + 8, 8 * n as int).1;
        if table_read(s, offset).1 is Ok {
            lemma_numbers_in_part(file, at + 8, table->Ok_0, n);
        }
    }
}

proof fn lemma_array_is_the_file(s: Session, file: Seq<u8>, t: TableModel, ordinal: u64)
    requires
        reads_file(s, file),
    ensures
        reads_file(array_read(s, t, ordinal).0, file),
        array_read(s, t, ordinal).1 matches Ok(got) ==> got == (if ordinal + 1 >= t.offsets.len() {
            None
        } else {
            let size = t.offsets[ordinal + 1] - t.offsets[ordinal as int];
            Some(
                u16s_at(file, t.payload_offset + t.offsets[ordinal as int], (size / 2) as nat),
            )
        }),
{
    if ordinal + 1 < t.offsets.len() {
        let start = t.offsets[ordinal as int];
        let end = t.offsets[ordinal + 1];
        let abs = t.payload_offset + start;
        if start <= end {
            lemma_ranged_is_the_file(s, file, abs, end - start);
            if array_read(s, t, ordinal).1 is Ok {
                let buf = ranged(s, abs, end - start).1->Ok_0;
                let k = ((end - start) / 2) as nat;
                assert forall|j: int| 0 <= j < k implies u16s_at(buf, 0, k)[j] == u16s_at(
                    file,
                    abs,
                    k,
                )[j] by {
                    assert(buf.subrange(2 * j, 2 * j + 2) =~= file.subrange(
                        abs + 2 * j,
                        abs + 2 * j + 2,
                    ));
                }
                assert(u16s_at(buf, 0, k) =~= u16s_at(file, abs, k));
            }
        }
    }
}

/// The importance array that is read for a feature is the one in the file,
/// whether the offset table was loaded before or not; and the reader stays
/// true to the file, also where the read fails.
pub proof fn law_importance_is_the_file(m: ReaderModel, s: Session, file: Seq<u8>, ordinal: u64)
    requires
        true_to(m, file),
        reads_file(s, file),
    ensures
        ({
            let (m1, s1, got) = importance_read(m, s, ordinal);
            &&& true_to(m1, file)
            &&& m1.directory == m.directory
            &&& reads_file(s1, file)
            &&& got matches Ok(imp) ==> imp == importance_in(file, m.directory, ordinal)
        }),
{
    if m.table is None && m.directory is Some && m.directory->0.importance is Some {
        lemma_table_is_the_file(s, file, m.directory->0.importance->0.offset);
    }
    let (m1, s1, fault) = table_ensured(m, s);
    if fault is None && m1.table is Some {
        lemma_array_is_the_file(s1, file, m1.table->0, ordinal);
    }
}

/// What a file shows of a body feature.
pub open spec fn feature_in<
    P: Fn(Coord) -> Coord,
    D: Fn((Coord, Coord, Coord)) -> u64,
    Q: Fn(u64) -> u16,
>(
    file: Seq<u8>,
    directory: Option<DirectoryModel>,
    source: TileSource,
    q: u16,
    project: P,
    dist: D,
    quantize: Q,
    ordinal: u64,
    g: GeometryModel,
) -> Option<GeometryModel> {
    if source != TileSource::BodyImportance {
        kept_geometry(g, geometry_values(mapped(g, project), dist, quantize), 0, q)
    } else if geometry_coords(g).len() <= SKIP_FILTER_MAX_COORDS {
        Some(g)
    } else {
        match importance_in(file, directory, ordinal) {
            None => Some(g),
            Some(imp) => kept_geometry(g, imp, 0, q),
        }
    }
}

/// What a file shows of the body features from `i` on.
pub open spec fn features_in<
    P: Fn(Coord) -> Coord,
    D: Fn((Coord, Coord, Coord)) -> u64,
    Q: Fn(u64) -> u16,
>(
    file: Seq<u8>,
    directory: Option<DirectoryModel>,
    source: TileSource,
    q: u16,
    project: P,
    dist: D,
    quantize: Q,
    fs: Seq<(u64, TileFeatureModel)>,
    i: int,
) -> Seq<TileFeatureModel>
    decreases fs.len() - i,
{
    if i >= fs.len() {
        Seq::empty()
    } else {
        let rest = features_in(file, directory, source, q, project, dist, quantize, fs, i + 1);
        match feature_in(
            file,
            directory,
            source,
            q,
            project,
            dist,
            quantize,
            fs[i].0,
            fs[i].1.geometry,
        ) {
            None => rest,
            Some(geometry) => seq![TileFeatureModel { geometry, ..fs[i].1 }] + rest,
        }
    }
}

/// Simplifying body features gives what the file shows of them, however much
/// of the file is cached and whatever the reader has loaded before; and the
/// reader stays true to the file.
pub proof fn law_body_is_the_file<
    P: Fn(Coord) -> Coord,
    D: Fn((Coord, Coord, Coord)) -> u64,
    Q: Fn(u64) -> u16,
>(
    m: ReaderModel,
    s: Session,
    file: Seq<u8>,
    source: TileSource,
    q: u16,
    project: P,
    dist: D,
    quantize: Q,
    fs: Seq<(u64, TileFeatureModel)>,
    i: int,
)
    requires
        true_to(m, file),
        reads_file(s, file),
        0 <= i,
    ensures
        ({
            let (m1, s1, got) = body_simplified(m, s, source, q, project, dist, quantize, fs, i);
            &&& true_to(m1, file)
            &&& m1.directory == m.directory
            &&& reads_file(s1, file)
            &&& got matches Ok(out) ==> out == features_in(
                file,
                m.directory,
                source,
                q,
                project,
                dist,
                quantize,
                fs,
                i,
            )
        }),
    decreases fs.len() - i,
{
    if i < fs.len() {
        law_importance_is_the_file(m, s, file, fs[i].0);
        let (m1, s1, got) = feature_simplified(
            m,
            s,
            source,
            q,
            project,
            dist,
            quantize,
            fs[i].0,
            fs[i].1.geometry,
        );
        assert(true_to(m1, file) && reads_file(s1, file) && m1.directory == m.directory);
        law_body_is_the_file(m1, s1, file, source, q, project, dist, quantize, fs, i + 1);
    }
}

/// Two readers of one file, whatever they have cached and served before, show
/// the same of the same body features.
pub proof fn law_readers_agree<
    P: Fn(Coord) -> Coord,
    D: Fn((Coord, Coord, Coord)) -> u64,
    Q: Fn(u64) -> u16,
>(
    m: ReaderModel,
    s: Session,
    n: ReaderModel,
    t: Session,
    file: Seq<u8>,
    source: TileSource,
    q: u16,
    project: P,
    dist: D,
    quantize: Q,
    fs: Seq<(u64, TileFeatureModel)>,
)
    requires
        true_to(m, file),
        true_to(n, file),
        reads_file(s, file),
        reads_file(t, file),
        body_simplified(m, s, source, q, project, dist, quantize, fs, 0).2 is Ok,
        body_simplified(n, t, source, q, project, dist, quantize, fs, 0).2 is Ok,
    ensures
        body_simplified(m, s, source, q, project, dist, quantize, fs, 0).2 == body_simplified(
            n,
            t,
            source,
            q,
            project,
            dist,
            quantize,
            fs,
            0,
        ).2,
{
    law_body_is_the_file(m, s, file, source, q, project, dist, quantize, fs, 0);
    law_body_is_the_file(n, t, file, source, q, project, dist, quantize, fs, 0);
}

/// A baseline query of an FGBO file gives the features of the plain body: on
/// the path that the baseline takes, simplifying reads nothing and leaves the
/// reader as it is, and gives for any two readers the same of the same
/// features. That the features are the same is
/// [`law_body_hits_are_those_of_the_plain_file`].
pub proof fn law_baseline_serves_the_plain_body<
    P: Fn(Coord) -> Coord,
    D: Fn((Coord, Coord, Coord)) -> u64,
    Q: Fn(u64) -> u16,
>(
    m: ReaderModel,
    s: Session,
    n: ReaderModel,
    t: Session,
    z: u8,
    q: u16,
    project: P,
    dist: D,
    quantize: Q,
    fs: Seq<(u64, TileFeatureModel)>,
    i: int,
)
    requires
        n.directory is None,
        0 <= i,
    ensures
        baseline_route() == route_for(n.directory, z),
        excluded_by(m.directory, baseline_route()) == excluded_by(n.directory, route_for(
            n.directory,
            z,
        )),
        ({
            let source = baseline_route().source;
            let (m1, s1, got) = body_simplified(m, s, source, q, project, dist, quantize, fs, i);
            let (n1, t1, plain) = body_simplified(n, t, source, q, project, dist, quantize, fs, i);
            &&& m1 == m && s1 == s
            &&& got is Ok
            &&& got == plain
        }),
    decreases fs.len() - i,
{
    if i < fs.len() {
        law_baseline_serves_the_plain_body(
            m,
            s,
            n,
            t,
            z,
            q,
            project,
            dist,
            quantize,
            fs,
            i + 1,
        );
    }
}

// ---- what a query gives ------------------------------------------------------

/// The sessions in which the steps of a query are made.
pub struct QuerySessions {
    /// Reading the hits of the first section.
    pub hits: Session,
    /// Simplifying them.
    pub simplify: Session,
    /// Reading the hits of the segments.
    pub fragments: Session,
}

impl QuerySessions {
    /// All steps read this file, whatever part of it is cached in each.
    pub open spec fn read(self, file: Seq<u8>) -> bool {
        &&& reads_file(self.hits, file)
        &&& reads_file(self.simplify, file)
        &&& reads_file(self.fragments, file)
    }
}

/// The features of some hits in a section. `decode` gives the geometry of a
/// record for the geometry type of the section.
pub open spec fn decoded(
    hits: Seq<HitModel>,
    sec: SectionModel,
    decode: spec_fn(Seq<u8>, u8) -> GeometryModel,
) -> Seq<(u64, TileFeatureModel)> {
    Seq::new(
        hits.len(),
        |i: int|
            (
                hits[i].ordinal,
                TileFeatureModel {
                    geometry: decode(hits[i].record, sec.header.geometry_type),
                    properties: hits[i].properties,
                },
            ),
    )
}

/// Features without their ordinals.
pub open spec fn unnumbered(fs: Seq<(u64, TileFeatureModel)>) -> Seq<TileFeatureModel> {
    Seq::new(fs.len(), |i: int| fs[i].1)
}

/// The features of a section that a search hits, if there is a section.
pub open spec fn section_features(
    s: Session,
    sec: Option<SectionModel>,
    search: spec_fn(SectionModel) -> Seq<SearchResultItem>,
    exclude: Seq<u64>,
    decode: spec_fn(Seq<u8>, u8) -> GeometryModel,
) -> core::result::Result<Seq<(u64, TileFeatureModel)>, Fault> {
    match sec {
        None => Ok(Seq::empty()),
        Some(sec) => match section_hits(s, sec, search(sec), exclude).1 {
            Err(f) => Err(f),
            Ok(hits) => Ok(decoded(hits, sec, decode)),
        },
    }
}

/// What a query gives that follows the steps of a route, in a reader that has
/// opened the sections of the route. `search` gives the hits of the index of
/// a section.
pub open spec fn queried<
    P: Fn(Coord) -> Coord,
    D: Fn((Coord, Coord, Coord)) -> u64,
    Q: Fn(u64) -> u16,
>(
    m: ReaderModel,
    at: QuerySessions,
    route: TileRoute,
    q: u16,
    project: P,
    dist: D,
    quantize: Q,
    search: spec_fn(SectionModel) -> Seq<SearchResultItem>,
    decode: spec_fn(Seq<u8>, u8) -> GeometryModel,
) -> core::result::Result<Seq<TileFeatureModel>, Fault> {
    match route.source {
        TileSource::Overview(i) => match section_features(
            at.hits,
            m.overviews[i as int],
            search,
            Seq::empty(),
            decode,
        ) {
            Err(f) => Err(f),
            Ok(fs) => Ok(unnumbered(fs)),
        },
        _ => match section_features(
            at.hits,
            Some(m.body),
            search,
            excluded_by(m.directory, route),
            decode,
        ) {
            Err(f) => Err(f),
            Ok(fs) => match body_simplified(
                m,
                at.simplify,
                route.source,
                q,
                project,
                dist,
                quantize,
                fs,
                0,
            ).2 {
                Err(f) => Err(f),
                Ok(features) => if !route.use_segments {
                    Ok(features)
                } else {
                    match section_features(at.fragments, m.segments, search, Seq::empty(), decode) {
                        Err(f) => Err(f),
                        Ok(fragments) => Ok(features + unnumbered(fragments)),
                    }
                },
            },
        },
    }
}

/// The sections of a route are open.
pub open spec fn is_open_for(m: ReaderModel, route: TileRoute) -> bool {
    &&& route.source matches TileSource::Overview(i) ==> i < m.overviews.len()
        && m.overviews[i as int] is Some
    &&& route.use_segments ==> m.segments is Some
}

proof fn lemma_features_agree(
    s: Session,
    t: Session,
    sec: Option<SectionModel>,
    search: spec_fn(SectionModel) -> Seq<SearchResultItem>,
    exclude: Seq<u64>,
    decode: spec_fn(Seq<u8>, u8) -> GeometryModel,
    file: Seq<u8>,
)
    requires
        reads_file(s, file),
        reads_file(t, file),
        section_features(s, sec, search, exclude, decode) is Ok,
        section_features(t, sec, search, exclude, decode) is Ok,
    ensures
        section_features(s, sec, search, exclude, decode) == section_features(
            t,
            sec,
            search,
            exclude,
            decode,
        ),
{
    if let Some(sec) = sec {
        law_hits_agree(s, t, sec, search(sec), exclude, file);
    }
}

/// Two readers of one file, however much of it each has cached and whatever
/// each has served before, answer a query alike: where it succeeds for both,
/// both give the same features, in the same order.
pub proof fn law_queries_agree<
    P: Fn(Coord) -> Coord,
    D: Fn((Coord, Coord, Coord)) -> u64,
    Q: Fn(u64) -> u16,
>(
    m: ReaderModel,
    at: QuerySessions,
    n: ReaderModel,
    by: QuerySessions,
    file: Seq<u8>,
    route: TileRoute,
    q: u16,
    project: P,
    dist: D,
    quantize: Q,
    search: spec_fn(SectionModel) -> Seq<SearchResultItem>,
    decode: spec_fn(Seq<u8>, u8) -> GeometryModel,
)
    requires
        true_to(m, file),
        true_to(n, file),
        is_open_for(m, route),
        is_open_for(n, route),
        at.read(file),
        by.read(file),
        queried(m, at, route, q, project, dist, quantize, search, decode) is Ok,
        queried(n, by, route, q, project, dist, quantize, search, decode) is Ok,
    ensures
        queried(m, at, route, q, project, dist, quantize, search, decode) == queried(
            n,
            by,
            route,
            q,
            project,
            dist,
            quantize,
            search,
            decode,
        ),
{
    let none = Seq::<u64>::empty();
    match route.source {
        TileSource::Overview(i) => {
            let sec = m.overviews[i as int];
            assert(n.overviews[i as int] is Some);
            assert(n.overviews[i as int] == sec);
            lemma_features_agree(at.hits, by.hits, sec, search, none, decode, file);
        },
        _ => {
            let sec = Some(m.body);
            let exclude = excluded_by(m.directory, route);
            lemma_features_agree(at.hits, by.hits, sec, search, exclude, decode, file);
            let fs = section_features(at.hits, sec, search, exclude, decode)->Ok_0;
            law_readers_agree(
                m,
                at.simplify,
                n,
                by.simplify,
                file,
                route.source,
                q,
                project,
                dist,
                quantize,
                fs,
            );
            if route.use_segments {
                let sec = m.segments;
                lemma_features_agree(at.fragments, by.fragments, sec, search, none, decode, file);
            }
        },
    }
}

/// The body of a file and the body by itself are the same section, but for
/// how far they are said to reach.
proof fn lemma_plain_body(m: ReaderModel, n: ReaderModel, file: Seq<u8>, body: Seq<u8>)
    requires
        true_to(m, file),
        true_to(n, body),
        stands_at(file, 0, body),
    ensures
        n.body == (SectionModel { size: n.body.size, ..m.body }),
{
    let size = 12 + field(body, 8, 4) as int;
    assert(body.subrange(8, 12) =~= file.subrange(8, 12));
    assert(body.subrange(8, size) =~= file.subrange(8, size));
}

proof fn lemma_plain_features(
    s: Session,
    t: Session,
    sec: SectionModel,
    size: u64,
    search: spec_fn(SectionModel) -> Seq<SearchResultItem>,
    decode: spec_fn(Seq<u8>, u8) -> GeometryModel,
    file: Seq<u8>,
    body: Seq<u8>,
)
    requires
        reads_file(s, file),
        reads_file(t, body),
        stands_at(file, 0, body),
        search(sec) == search(SectionModel { size, ..sec }),
        section_features(s, Some(sec), search, Seq::empty(), decode) is Ok,
        section_features(
            t,
            Some(SectionModel { size, ..sec }),
            search,
            Seq::empty(),
            decode,
        ) is Ok,
    ensures
        section_features(s, Some(sec), search, Seq::empty(), decode) == section_features(
            t,
            Some(SectionModel { size, ..sec }),
            search,
            Seq::empty(),
            decode,
        ),
{
    let own = SectionModel { size, ..sec };
    let none = Seq::<u64>::empty();
    law_body_hits_are_those_of_the_plain_file(s, t, sec, size, search(sec), none, file, body);
    let hits = section_hits(s, sec, search(sec), none).1->Ok_0;
    assert(decoded(hits, sec, decode) =~= decoded(hits, own, decode));
}

/// A baseline query of an FGBO file gives the features of the plain body: they
/// are what a query gives of a reader over the body alone, at any zoom, where
/// both succeed. The baseline uses no fragments.
pub proof fn law_baseline_gives_the_plain_features<
    P: Fn(Coord) -> Coord,
    D: Fn((Coord, Coord, Coord)) -> u64,
    Q: Fn(u64) -> u16,
>(
    m: ReaderModel,
    at: QuerySessions,
    n: ReaderModel,
    by: QuerySessions,
    file: Seq<u8>,
    body: Seq<u8>,
    z: u8,
    q: u16,
    project: P,
    dist: D,
    quantize: Q,
    search: spec_fn(SectionModel) -> Seq<SearchResultItem>,
    decode: spec_fn(Seq<u8>, u8) -> GeometryModel,
)
    requires
        true_to(m, file),
        true_to(n, body),
        n.directory is None,
        stands_at(file, 0, body),
        at.read(file),
        by.read(body),
        search(m.body) == search(n.body),
        queried(m, at, baseline_route(), q, project, dist, quantize, search, decode) is Ok,
        queried(n, by, route_for(n.directory, z), q, project, dist, quantize, search, decode) is Ok,
    ensures
        queried(m, at, baseline_route(), q, project, dist, quantize, search, decode) == queried(
            n,
            by,
            route_for(n.directory, z),
            q,
            project,
            dist,
            quantize,
            search,
            decode,
        ),
        baseline_route().source == TileSource::BodyLive,
        !baseline_route().use_segments,
{
    let none = Seq::<u64>::empty();
    assert(excluded_by(m.directory, baseline_route()) =~= none);
    assert(excluded_by(n.directory, baseline_route()) =~= none);
    lemma_plain_body(m, n, file, body);
    lemma_plain_features(at.hits, by.hits, m.body, n.body.size, search, decode, file, body);
    let fs = section_features(at.hits, Some(m.body), search, none, decode)->Ok_0;
    law_baseline_serves_the_plain_body(
        m,
        at.simplify,
        n,
        by.simplify,
        z,
        q,
        project,
        dist,
        quantize,
        fs,
        0,
    );
}

// ---- how a tile is served ------------------------------------------------------

/// A zoom is served by the first overview level whose range holds it; where
/// there is none by the body, which is filtered with the stored importance
/// exactly if the file has some.
pub proof fn law_route_of_a_zoom(d: DirectoryModel, z: u8)
    requires
        d.overviews.len() <= usize::MAX,
    ensures
        ({
            let source = route_for(Some(d), z).source;
            let covered = exists|i: int|
                0 <= i < d.overviews.len() && (#[trigger] d.overviews[i]).min_zoom <= z
                    <= d.overviews[i].max_zoom;
            &&& covered <==> source is Overview
            &&& source matches TileSource::Overview(i) ==> {
                &&& i < d.overviews.len()
                &&& d.overviews[i as int].min_zoom <= z <= d.overviews[i as int].max_zoom
                &&& forall|j: int|
                    0 <= j < i ==> !((#[trigger] d.overviews[j]).min_zoom <= z
                        <= d.overviews[j].max_zoom)
                &&& !route_for(Some(d), z).use_segments
            }
            &&& source is BodyImportance <==> !covered && d.importance is Some
            &&& source is BodyLive <==> !covered && d.importance is None
        }),
{
    law_level_covers_zoom(d.overviews, z);
    match level_for_zoom(d.overviews, z) {
        Some(i) => {
            assert(d.overviews[i].min_zoom <= z <= d.overviews[i].max_zoom);
            assert forall|j: int| 0 <= j < i implies !((#[trigger] d.overviews[j]).min_zoom <= z
                <= d.overviews[j].max_zoom) by {
                assert(d.overviews[j].min_zoom == d.overviews[j].min_zoom);
            }
        },
        None => {
            assert forall|j: int| 0 <= j < d.overviews.len() implies !((
            #[trigger] d.overviews[j]).min_zoom <= z <= d.overviews[j].max_zoom) by {
                assert(d.overviews[j].min_zoom == d.overviews[j].min_zoom);
            }
        },
    }
}

/// A directory that was read is one that the file carries, behind a footer
/// and with the checksum that the footer gives; and a file that is taken for
/// plain fgb has no footer.
pub proof fn law_directory_is_checked(s: Session, file: Seq<u8>)
    requires
        reads_file(s, file),
    ensures
        directory_read(s).1 matches Ok(Some(d)) ==> carries(file, d),
        directory_read(s).1 matches Ok(None) ==> file.len() < 32 || footer_of(
            file.subrange(file.len() - 32, file.len() as int),
        ) is None,
{
    let len = file.len() as int;
    if len >= FOOTER_SIZE {
        lemma_ranged_is_the_file(s, file, len - FOOTER_SIZE, FOOTER_SIZE as int);
        let (s1, tail) = ranged(s, len - FOOTER_SIZE, FOOTER_SIZE as int);
        if let Ok(tail) = tail {
            if let Some(f) = footer_of(tail) {
                if f.dir_offset + f.dir_size <= len && f.dir_size <= usize::MAX {
                    lemma_ranged_is_the_file(s1, file, f.dir_offset as int, f.dir_size as int);
                }
            }
        }
    }
}

/// What is wanted of the hits are those that are not excluded, in their order.
pub proof fn law_wanted_hits_in_order(items: Seq<SearchResultItem>, exclude: Seq<u64>)
    ensures
        wanted(items, exclude) == items.filter(
            |x: SearchResultItem| !exclude.contains(x.index as u64),
        ),
    decreases items.len(),
{
    let pred = |x: SearchResultItem| !exclude.contains(x.index as u64);
    reveal(Seq::filter);
    if items.len() > 0 {
        law_wanted_hits_in_order(items.drop_last(), exclude);
    } else {
        assert(items.filter(pred) =~= items);
    }
}

/// Without stored importance a body feature is filtered with the importance
/// of its projected geometry. With it, a feature of 32 coordinates or fewer
/// stays as it is and nothing is read for it; so does a larger one for which
/// no importance is stored; another one is filtered with what is stored for
/// its ordinal.
pub proof fn law_simplified_feature<
    P: Fn(Coord) -> Coord,
    D: Fn((Coord, Coord, Coord)) -> u64,
    Q: Fn(u64) -> u16,
>(
    m: ReaderModel,
    s: Session,
    q: u16,
    project: P,
    dist: D,
    quantize: Q,
    ordinal: u64,
    g: GeometryModel,
)
    requires
        storable(g),
    ensures
        ({
            let live = feature_simplified(
                m,
                s,
                TileSource::BodyLive,
                q,
                project,
                dist,
                quantize,
                ordinal,
                g,
            );
            let values = geometry_values(mapped(g, project), dist, quantize);
            live == (
                m,
                s,
                core::result::Result::<Option<GeometryModel>, Fault>::Ok(
                    kept_geometry(g, values, 0, q),
                ),
            )
        }),
        ({
            let (m1, s1, got) = feature_simplified(
                m,
                s,
                TileSource::BodyImportance,
                q,
                project,
                dist,
                quantize,
                ordinal,
                g,
            );
            let (m2, s2, stored) = importance_read(m, s, ordinal);
            if geometry_coords(g).len() <= 32 {
                m1 == m && s1 == s && (got matches Ok(Some(h)) && h == g)
            } else {
                &&& m1 == m2 && s1 == s2
                &&& match stored {
                    Err(f) => got matches Err(e) && e == f,
                    Ok(None) => got matches Ok(Some(h)) && h == g,
                    Ok(Some(imp)) => {
                        let served = got matches Ok(h) && h == kept_geometry(g, imp, 0, q);
                        &&& imp.len() >= geometry_coords(g).len() ==> served
                        &&& begins(g, 0, imp.len() as int) ==> served
                        &&& !begins(g, 0, imp.len() as int) ==> got is Err
                    },
                }
            }
        }),
{
    if geometry_coords(g).len() > 32 {
        if let (_, _, Ok(Some(imp))) = importance_read(m, s, ordinal) {
            if imp.len() >= geometry_coords(g).len() {
                law_full_array_suffices(g, 0, imp.len() as int);
            }
        }
    }
}

/// Features that were served from the body are those at the places `from`,
/// from `i` on, with their properties; the others degenerate.
pub open spec fn is_served_from<
    P: Fn(Coord) -> Coord,
    D: Fn((Coord, Coord, Coord)) -> u64,
    Q: Fn(u64) -> u16,
>(
    out: Seq<TileFeatureModel>,
    from: Seq<int>,
    fs: Seq<(u64, TileFeatureModel)>,
    i: int,
    source: TileSource,
    q: u16,
    project: P,
    dist: D,
    quantize: Q,
) -> bool {
    &&& from.len() == out.len()
    &&& forall|j: int|
        0 <= j < from.len() ==> i <= #[trigger] from[j] < fs.len() && out[j].properties
            == fs[from[j]].1.properties
    &&& forall|j: int, k: int|
        0 <= j < k < from.len() ==> #[trigger] from[j] < #[trigger] from[k]
    &&& forall|j: int|
        i <= j < fs.len() ==> {
            let (_, f) = #[trigger] fs[j];
            let values = geometry_values(mapped(f.geometry, project), dist, quantize);
            &&& source != TileSource::BodyImportance && !from.contains(j) ==> kept_geometry(
                f.geometry,
                values,
                0,
                q,
            ) is None
            &&& source == TileSource::BodyImportance && geometry_coords(f.geometry).len() <= 32
                ==> from.contains(j)
        }
    &&& forall|j: int|
        0 <= j < from.len() ==> {
            let (_, f) = fs[#[trigger] from[j]];
            let values = geometry_values(mapped(f.geometry, project), dist, quantize);
            &&& source != TileSource::BodyImportance ==> kept_geometry(f.geometry, values, 0, q)
                == Some(out[j].geometry)
            &&& source == TileSource::BodyImportance && geometry_coords(f.geometry).len() <= 32
                ==> out[j].geometry == f.geometry
        }
}

/// The body serves its features in their order, each with its properties.
/// Without stored importance these are exactly the features of which the
/// filter leaves something; with it, no feature of 32 coordinates or fewer is
/// missing or changed.
pub proof fn law_body_serves_in_order<
    P: Fn(Coord) -> Coord,
    D: Fn((Coord, Coord, Coord)) -> u64,
    Q: Fn(u64) -> u16,
>(
    m: ReaderModel,
    s: Session,
    source: TileSource,
    q: u16,
    project: P,
    dist: D,
    quantize: Q,
    fs: Seq<(u64, TileFeatureModel)>,
    i: int,
) -> (from: Seq<int>)
    requires
        0 <= i <= fs.len(),
        body_simplified(m, s, source, q, project, dist, quantize, fs, i).2 is Ok,
    ensures
        is_served_from(
            body_simplified(m, s, source, q, project, dist, quantize, fs, i).2->Ok_0,
            from,
            fs,
            i,
            source,
            q,
            project,
            dist,
            quantize,
        ),
    decreases fs.len() - i,
{
    if i >= fs.len() {
        Seq::empty()
    } else {
        let (ordinal, f) = fs[i];
        let (m1, s1, got) = feature_simplified(
            m,
            s,
            source,
            q,
            project,
            dist,
            quantize,
            ordinal,
            f.geometry,
        );
        let rest = law_body_serves_in_order(m1, s1, source, q, project, dist, quantize, fs, i + 1);
        let out = body_simplified(m, s, source, q, project, dist, quantize, fs, i).2->Ok_0;
        let old_out = body_simplified(
            m1,
            s1,
            source,
            q,
            project,
            dist,
            quantize,
            fs,
            i + 1,
        ).2->Ok_0;
        let kept = got->Ok_0 is Some;
        let from = if kept {
            seq![i] + rest
        } else {
            rest
        };
        if kept {
            assert(from[0] == i);
            assert forall|j: int| 0 < j < from.len() implies #[trigger] from[j] == rest[j - 1]
                && out[j] == old_out[j - 1] by {}
        }
        assert forall|j: int| i < j < fs.len() && rest.contains(j) implies from.contains(j) by {
            let x = choose|x: int| 0 <= x < rest.len() && rest[x] == j;
            assert(from[if kept {
                x + 1
            } else {
                x
            }] == j);
        }
        assert forall|j: int| i <= j < fs.len() implies {
            let (_, f) = #[trigger] fs[j];
            let values = geometry_values(mapped(f.geometry, project), dist, quantize);
            &&& source != TileSource::BodyImportance && !from.contains(j) ==> kept_geometry(
                f.geometry,
                values,
                0,
                q,
            ) is None
            &&& source == TileSource::BodyImportance && geometry_coords(f.geometry).len() <= 32
                ==> from.contains(j)
        } by {
            if j > i {
                assert(rest.contains(j) ==> from.contains(j));
            }
        }
        from
    }
}

/// Beyond the last feature of the sidecar there is no importance, and nothing
/// is read for it; offsets that do not ascend are refused.
pub proof fn law_importance_of_no_feature(s: Session, t: TableModel, ordinal: u64)
    ensures
        t.offsets.len() <= ordinal + 1 ==> array_read(s, t, ordinal) == (
            s,
            core::result::Result::<Option<Seq<u16>>, Fault>::Ok(None),
        ),
        ordinal + 1 < t.offsets.len() && t.offsets[ordinal as int] > t.offsets[ordinal + 1]
            ==> array_read(s, t, ordinal).1 is Err,
        ordinal + 1 < t.offsets.len() && array_read(s, t, ordinal).1 is Ok ==> array_read(
            s,
            t,
            ordinal,
        ).1->Ok_0 is Some,
{
}

/// Nothing is read where nothing is wanted: of a section without features, or
/// where all hits are excluded.
pub proof fn law_no_wanted_hits_read_nothing(
    s: Session,
    sec: SectionModel,
    items: Seq<SearchResultItem>,
    exclude: Seq<u64>,
)
    requires
        sec.features_count == 0 || forall|i: int|
            0 <= i < items.len() ==> exclude.contains((#[trigger] items[i]).index as u64),
    ensures
        section_hits(s, sec, items, exclude) == (
            s,
            core::result::Result::<Seq<HitModel>, Fault>::Ok(Seq::empty()),
        ),
{
    broadcast use vstd::seq_lib::group_to_multiset_ensures;

    let kept = wanted(by_offset(items), exclude);
    if sec.features_count > 0 && kept.len() > 0 {
        let x = kept[0];
        law_wanted_hits(by_offset(items), exclude, x);
        law_sorted_hits(items);
        assert(kept.contains(x));
        assert(by_offset(items).to_multiset().count(x) > 0);
        assert(items.contains(x));
        let i = choose|i: int| 0 <= i < items.len() && items[i] == x;
        assert(exclude.contains(items[i].index as u64));
    }
}

} // verus!
