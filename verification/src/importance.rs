//! Per-vertex importance: a modified Douglas–Peucker pass that assigns each
//! vertex the largest squared tolerance (unit mercator) at which it survives
//! simplification, plus the sidecar section encoding.
//!
//! Distances are handled as order keys: unsigned numbers that ascend with the
//! distance. Zero stands for no distance at all. Two functions are handed in:
//! one measures the distance of a vertex from a segment, one quantizes a key
//! to the stored importance.

use crate::error::{Error, Fault, Result};
use crate::format::{field, lemma_u64s_len, lemma_u64s_stand, put_u64s, u64s_at, u64s_seq};
use crate::le::{digits, law_numbers_are_little_endian, lemma_le_bytes_round_trip};
use crate::le::{get_u16, get_u64, put_u16, put_u64};
use crate::le::{
    le_seq, lemma_le_bounds, lemma_le_seq_len, lemma_stands_number, lemma_stands_split, stands_at,
};
use crate::function::{is_function, value_of};
use crate::geometry::{
    chained, geometries_coords, geometries_of, geometry_coords, lemma_collection_view, lines_of,
    mapped, polygons_coords, polygons_of,
};
use crate::geometry::{Coord, Geometry, GeometryModel, Polygon, PolygonModel};
use vstd::prelude::*;
use vstd::slice::slice_subrange;

verus! {

/// Importance value for vertices that always survive.
pub const ALWAYS: u16 = 0xffff;

/// Importance sidecar section.
///
/// Binary layout (little-endian):
/// ```text
/// u64                    feature_count
/// u64 * (count + 1)      offsets (bytes, relative to payload start)
/// u16 * total_vertices   payload (importance arrays, file order)
/// ```
#[derive(Debug, Clone)]
pub struct ImportanceSidecar {
    /// Byte offsets into the payload, one more than there are features.
    offsets: Vec<u64>,
    payload: Vec<u16>,
}

/// A sidecar as a mathematical value.
#[verifier::ext_equal]
pub struct SidecarModel {
    pub offsets: Seq<u64>,
    pub payload: Seq<u16>,
}

impl View for ImportanceSidecar {
    type V = SidecarModel;

    closed spec fn view(&self) -> SidecarModel {
        SidecarModel { offsets: self.offsets@, payload: self.payload@ }
    }
}

impl SidecarModel {
    /// There is an offset for the end of the last array.
    pub open spec fn wf(self) -> bool {
        self.offsets.len() > 0
    }

    pub open spec fn count(self) -> int {
        self.offsets.len() - 1
    }

    /// The array of feature `i` lies inside the payload.
    pub open spec fn in_payload(self, i: int) -> bool {
        self.offsets[i] / 2 <= self.offsets[i + 1] / 2 <= self.payload.len()
    }

    /// Every array lies inside the payload.
    pub open spec fn consistent(self) -> bool {
        &&& self.wf()
        &&& forall|i: int| 0 <= i < self.count() ==> #[trigger] self.in_payload(i)
    }

    /// A sidecar that was made by appending arrays: the offsets are twice the
    /// ascending positions in the payload, from its start to its end.
    pub open spec fn built(self) -> bool {
        &&& self.wf()
        &&& self.offsets[0] == 0
        &&& self.offsets.last() == 2 * self.payload.len()
        &&& forall|i: int| 0 <= i < self.offsets.len() ==> #[trigger] self.offsets[i] % 2 == 0
        &&& forall|i: int, j: int|
            0 <= i <= j < self.offsets.len() ==> #[trigger] self.offsets[i]
                <= #[trigger] self.offsets[j]
    }

    /// The importance array of feature `i`.
    pub open spec fn array(self, i: int) -> Seq<u16> {
        self.payload.subrange(self.offsets[i] as int / 2, self.offsets[i + 1] as int / 2)
    }

    /// The sidecar with one more array.
    pub open spec fn with(self, imp: Seq<u16>) -> SidecarModel {
        SidecarModel {
            offsets: self.offsets.push((2 * (self.payload.len() + imp.len())) as u64),
            payload: self.payload + imp,
        }
    }
}

/// The numbers one after the other, two bytes each.
pub open spec fn u16s_seq(s: Seq<u16>) -> Seq<u8>
    decreases s.len(),
{
    if s.len() == 0 {
        Seq::empty()
    } else {
        u16s_seq(s.drop_last()) + le_seq(s.last() as nat, 2)
    }
}

/// The bytes of a sidecar.
pub open spec fn sidecar_seq(m: SidecarModel) -> Seq<u8> {
    le_seq(m.count() as nat, 8) + u64s_seq(m.offsets) + u16s_seq(m.payload)
}

/// `n` numbers of two bytes each that stand in `buf` at `at`.
pub open spec fn u16s_at(buf: Seq<u8>, at: int, n: nat) -> Seq<u16> {
    Seq::new(n, |i: int| field(buf, at + 2 * i, 2) as u16)
}

/// The sidecar that some bytes hold.
pub open spec fn sidecar_of(buf: Seq<u8>) -> core::result::Result<SidecarModel, Fault> {
    let count = field(buf, 0, 8);
    let table_end = 8 + (count + 1) * 8;
    if buf.len() < 8 {
        Err(Fault::Format("importance sidecar truncated"@))
    } else if buf.len() < table_end {
        Err(Fault::Format("importance offset table truncated"@))
    } else {
        let offsets = u64s_at(buf, 8, count + 1);
        let rest = (buf.len() - table_end) as nat;
        if offsets.last() != rest {
            Err(Fault::Format("importance payload size mismatch"@))
        } else {
            Ok(SidecarModel { offsets, payload: u16s_at(buf, table_end as int, rest / 2) })
        }
    }
}

impl ImportanceSidecar {
    pub fn new() -> (s: ImportanceSidecar)
        ensures
            s@ == (SidecarModel { offsets: seq![0u64], payload: Seq::empty() }),
            s@.built(),
    {
        let s: ImportanceSidecar = ImportanceSidecar { offsets: vec![0u64], payload: Vec::new() };
        assert(s.offsets@ =~= seq![0u64]);
        s
    }

    pub fn feature_count(&self) -> (n: u64)
        requires
            self@.wf(),
        ensures
            n == self@.count(),
    {
        (self.offsets.len() - 1) as u64
    }

    /// Append the importance array of the next feature (file order).
    pub fn push(&mut self, imp: &[u16])
        requires
            old(self)@.wf(),
            2 * (old(self)@.payload.len() + imp@.len()) <= usize::MAX,
        ensures
            final(self)@ == old(self)@.with(imp@),
            old(self)@.built() ==> final(self)@.built(),
    {
        self.payload.extend_from_slice(imp);
        self.offsets.push((self.payload.len() * 2) as u64);
        assert(self@.payload =~= old(self)@.payload + imp@);
    }

    /// Whether the array of every feature lies inside the payload, as in
    /// every sidecar that was made by [`ImportanceSidecar::push`].
    pub fn is_consistent(&self) -> (r: bool)
        ensures
            r == self@.consistent(),
    {
        let n: usize = self.offsets.len();
        if n == 0 {
            return false;
        }
        let mut i: usize = 0;
        while i + 1 < n
            invariant
                n == self.offsets@.len(),
                i < n,
                forall|j: int| 0 <= j < i ==> #[trigger] self@.in_payload(j),
            decreases n - i,
        {
            let start: u64 = self.offsets[i] / 2;
            let end: u64 = self.offsets[i + 1] / 2;
            if !(start <= end && end <= self.payload.len() as u64) {
                assert(!self@.in_payload(i as int));
                return false;
            }
            i = i + 1;
        }
        true
    }

    /// Importance array of feature `ordinal` (file order).
    pub fn get(&self, ordinal: u64) -> (r: Option<&[u16]>)
        requires
            self@.wf(),
            ordinal < self@.count() ==> self@.in_payload(ordinal as int),
        ensures
            match r {
                Some(s) => ordinal < self@.count() && s@ == self@.array(ordinal as int),
                None => ordinal >= self@.count(),
            },
    {
        if ordinal >= (self.offsets.len() - 1) as u64 {
            return None;
        }
        let i: usize = ordinal as usize;
        let size: usize = self.payload.len();
        assert(self@.in_payload(i as int) && size == self@.payload.len());
        let start: usize = (self.offsets[i] / 2) as usize;
        let end: usize = (self.offsets[i + 1] / 2) as usize;
        Some(slice_subrange(self.payload.as_slice(), start, end))
    }

    pub fn encode(&self) -> (buf: Vec<u8>)
        requires
            self@.wf(),
        ensures
            buf@ == sidecar_seq(self@),
    {
        let mut buf: Vec<u8> = Vec::new();
        put_u64(&mut buf, self.feature_count());
        put_u64s(&mut buf, &self.offsets);
        put_u16s(&mut buf, &self.payload);
        assert(buf@ =~= sidecar_seq(self@));
        buf
    }

    pub fn decode(buf: &[u8]) -> (r: Result<ImportanceSidecar>)
        ensures
            match r {
                Ok(s) => sidecar_of(buf@) == core::result::Result::<SidecarModel, Fault>::Ok(s@),
                Err(e) => sidecar_of(buf@) == core::result::Result::<SidecarModel, Fault>::Err(e@),
            },
    {
        let len: usize = buf.len();
        if len < 8 {
            return Err(Error::format("importance sidecar truncated"));
        }
        let count: u64 = get_u64(buf, 0);
        // the table takes eight bytes for each feature and eight more
        if count >= ((len - 8) / 8) as u64 {
            return Err(Error::format("importance offset table truncated"));
        }
        let n: usize = count as usize + 1;
        let offsets: Vec<u64> = get_u64s(buf, 8, n);
        let table_end: usize = 8 + n * 8;
        let rest: usize = len - table_end;
        if offsets[n - 1] != rest as u64 {
            return Err(Error::format("importance payload size mismatch"));
        }
        let payload: Vec<u16> = get_u16s(buf, table_end, rest / 2);
        Ok(ImportanceSidecar { offsets, payload })
    }
}

/// Appends the numbers, two bytes each.
fn put_u16s(buf: &mut Vec<u8>, s: &Vec<u16>)
    ensures
        final(buf)@ == old(buf)@ + u16s_seq(s@),
{
    let n: usize = s.len();
    let mut i: usize = 0;
    assert(s@.take(0) =~= Seq::<u16>::empty());
    assert(buf@ =~= old(buf)@ + u16s_seq(s@.take(0)));
    while i < n
        invariant
            i <= n,
            n == s@.len(),
            buf@ == old(buf)@ + u16s_seq(s@.take(i as int)),
        decreases n - i,
    {
        put_u16(buf, s[i]);
        proof {
            let now = s@.take(i + 1);
            assert(now.drop_last() =~= s@.take(i as int));
            assert(buf@ =~= old(buf)@ + u16s_seq(now));
        }
        i = i + 1;
    }
    assert(s@.take(n as int) =~= s@);
}

/// Reads `n` numbers of eight bytes each.
pub(crate) fn get_u64s(buf: &[u8], at: usize, n: usize) -> (out: Vec<u64>)
    requires
        at + 8 * n <= buf@.len(),
    ensures
        out@ == u64s_at(buf@, at as int, n as nat),
{
    let end: usize = buf.len();
    let mut out: Vec<u64> = Vec::new();
    let mut i: usize = 0;
    while i < n
        invariant
            i <= n,
            at + 8 * n <= end,
            end == buf@.len(),
            out@ == u64s_at(buf@, at as int, i as nat),
        decreases n - i,
    {
        let v: u64 = get_u64(buf, at + 8 * i);
        out.push(v);
        i = i + 1;
        assert(out@ =~= u64s_at(buf@, at as int, i as nat));
    }
    out
}

/// Reads `n` numbers of two bytes each.
pub(crate) fn get_u16s(buf: &[u8], at: usize, n: usize) -> (out: Vec<u16>)
    requires
        at + 2 * n <= buf@.len(),
    ensures
        out@ == u16s_at(buf@, at as int, n as nat),
{
    let end: usize = buf.len();
    let mut out: Vec<u16> = Vec::new();
    let mut i: usize = 0;
    while i < n
        invariant
            i <= n,
            at + 2 * n <= end,
            end == buf@.len(),
            out@ == u16s_at(buf@, at as int, i as nat),
        decreases n - i,
    {
        let v: u16 = get_u16(buf, at + 2 * i);
        out.push(v);
        i = i + 1;
        assert(out@ =~= u16s_at(buf@, at as int, i as nat));
    }
    out
}

proof fn lemma_u16s_len(s: Seq<u16>)
    ensures
        u16s_seq(s).len() == 2 * s.len(),
    decreases s.len(),
{
    if s.len() > 0 {
        lemma_u16s_len(s.drop_last());
        lemma_le_seq_len(s.last() as nat, 2);
    }
}

proof fn lemma_u16s_stand(buf: Seq<u8>, at: int, s: Seq<u16>)
    requires
        stands_at(buf, at, u16s_seq(s)),
    ensures
        u16s_at(buf, at, s.len()) == s,
    decreases s.len(),
{
    if s.len() > 0 {
        let init = s.drop_last();
        lemma_le_bounds();
        lemma_u16s_len(init);
        lemma_stands_split(buf, at, u16s_seq(init), le_seq(s.last() as nat, 2));
        lemma_u16s_stand(buf, at, init);
        lemma_stands_number(buf, at + 2 * init.len(), s.last() as nat, 2);
        assert forall|i: int| 0 <= i < s.len() implies u16s_at(buf, at, s.len())[i] == s[i] by {
            if i < init.len() {
                assert(u16s_at(buf, at, init.len())[i] == init[i]);
            }
        }
    }
    assert(u16s_at(buf, at, s.len()) =~= s);
}

/// Where the parts of an encoded sidecar stand.
pub proof fn lemma_sidecar_parts(m: SidecarModel)
    requires
        m.wf(),
        m.offsets.len() <= u64::MAX,
    ensures
        sidecar_seq(m).len() == 8 + 8 * m.offsets.len() + 2 * m.payload.len(),
        field(sidecar_seq(m), 0, 8) == m.count(),
        u64s_at(sidecar_seq(m), 8, m.offsets.len()) == m.offsets,
        u16s_at(sidecar_seq(m), 8 + 8 * m.offsets.len() as int, m.payload.len()) == m.payload,
{
    let buf = sidecar_seq(m);
    let count = m.count() as nat;
    let head = le_seq(count, 8);
    let table = u64s_seq(m.offsets);
    let tail = u16s_seq(m.payload);
    lemma_le_bounds();
    lemma_le_seq_len(count, 8);
    lemma_u64s_len(m.offsets);
    lemma_u16s_len(m.payload);
    assert(buf.subrange(0, buf.len() as int) =~= buf);
    lemma_stands_split(buf, 0, head + table, tail);
    lemma_stands_split(buf, 0, head, table);
    lemma_stands_number(buf, 0, count, 8);
    lemma_u64s_stand(buf, 8, m.offsets);
    lemma_u16s_stand(buf, 8 + 8 * m.offsets.len() as int, m.payload);
}

/// What was encoded is decoded again: every sidecar that was made by
/// appending arrays comes back as it was.
pub proof fn law_sidecar_round_trip(m: SidecarModel)
    requires
        m.built(),
        m.offsets.len() <= u64::MAX,
    ensures
        sidecar_of(sidecar_seq(m)) == core::result::Result::<SidecarModel, Fault>::Ok(m),
{
    lemma_sidecar_parts(m);
    let buf = sidecar_seq(m);
    assert(8 + (m.count() + 1) * 8 == 8 + 8 * m.offsets.len());
    assert(buf.len() - (8 + 8 * m.offsets.len()) == 2 * m.payload.len());
}

/// In a sidecar that was made by appending arrays every array lies inside
/// the payload; one more array, an empty one too, is found under the next
/// ordinal, and all the others are as they were.
pub proof fn law_push_then_get(m: SidecarModel, imp: Seq<u16>)
    requires
        m.built(),
        2 * (m.payload.len() + imp.len()) <= u64::MAX,
    ensures
        m.consistent(),
        m.with(imp).built(),
        m.with(imp).consistent(),
        m.with(imp).count() == m.count() + 1,
        m.with(imp).array(m.count()) == imp,
        forall|i: int| 0 <= i < m.count() ==> #[trigger] m.with(imp).array(i) == m.array(i),
{
    let n = m.with(imp);
    assert(n.built()) by {
        assert forall|i: int, j: int| 0 <= i <= j < n.offsets.len() implies #[trigger] n.offsets[i]
            <= #[trigger] n.offsets[j] by {
            if j == m.offsets.len() && i < j {
                assert(m.offsets[i] <= m.offsets[m.offsets.len() - 1]);
            }
        }
    }
    lemma_built_is_consistent(m);
    lemma_built_is_consistent(n);
    assert forall|i: int| 0 <= i < m.count() implies #[trigger] n.array(i) == m.array(i) by {
        assert(m.in_payload(i));
        assert(n.array(i) =~= m.array(i));
    }
    assert(n.array(m.count()) =~= imp);
}

proof fn lemma_built_is_consistent(m: SidecarModel)
    requires
        m.built(),
    ensures
        m.consistent(),
{
    assert forall|j: int| 0 <= j < m.count() implies #[trigger] m.in_payload(j) by {
        assert(m.offsets[j] <= m.offsets[j + 1]);
        assert(m.offsets[j + 1] <= m.offsets[m.offsets.len() - 1]);
    }
}

/// The bytes of one importance array stand in an encoded sidecar where its
/// offset table says, counted from the end of the table.
pub proof fn law_array_stands_in_payload(m: SidecarModel, i: int)
    requires
        m.built(),
        m.offsets.len() <= u64::MAX,
        0 <= i < m.count(),
    ensures
        ({
            let payload_at = 8 + 8 * (m.count() + 1);
            let start = m.offsets[i] as int;
            let end = m.offsets[i + 1] as int;
            &&& 0 <= start <= end
            &&& payload_at + end <= sidecar_seq(m).len()
            &&& u16s_at(sidecar_seq(m), payload_at + start, ((end - start) / 2) as nat) == m.array(i)
        }),
{
    let buf = sidecar_seq(m);
    let payload_at = 8 + 8 * (m.count() + 1);
    lemma_sidecar_parts(m);
    let start = m.offsets[i] as int;
    let end = m.offsets[i + 1] as int;
    assert(m.offsets[i] <= m.offsets[i + 1]);
    assert(m.offsets[i + 1] <= m.offsets[m.offsets.len() - 1]);
    assert(start % 2 == 0 && end % 2 == 0);
    let read = u16s_at(buf, payload_at + start, ((end - start) / 2) as nat);
    assert forall|j: int| 0 <= j < read.len() implies read[j] == m.array(i)[j] by {
        assert(u16s_at(buf, payload_at, m.payload.len())[start / 2 + j] == m.payload[start / 2 + j]);
        assert(payload_at + start + 2 * j == payload_at + 2 * (start / 2 + j));
    }
    assert(read =~= m.array(i));
}

/// The farthest vertex among `first + 1..i` from the segment between
/// `first` and `last`, with its key: the first one of the greatest key.
pub open spec fn farthest_of<D: Fn((Coord, Coord, Coord)) -> u64>(
    line: Seq<Coord>,
    dist: D,
    first: int,
    last: int,
    i: int,
) -> (u64, int)
    decreases i - first,
{
    if i <= first + 1 {
        (0, first + 1)
    } else {
        let (key, idx) = farthest_of(line, dist, first, last, i - 1);
        let next = value_of(dist, (line[i - 1], line[first], line[last]));
        if next > key {
            (next, i - 1)
        } else {
            (key, idx)
        }
    }
}

/// The key of vertex `i` in the span between `first` and `last`: the vertex
/// farthest from the segment splits the span and gets its distance, capped by
/// the key of the split above; the others get theirs in their part.
pub open spec fn vertex_key<D: Fn((Coord, Coord, Coord)) -> u64>(
    line: Seq<Coord>,
    dist: D,
    i: int,
    first: int,
    last: int,
    cap: u64,
) -> u64
    decreases last - first,
{
    let (far, idx) = farthest_of(line, dist, first, last, last);
    let key = if far <= cap {
        far
    } else {
        cap
    };
    if !(first < idx < last) || i == idx {
        key
    } else if i < idx {
        vertex_key(line, dist, i, first, idx, key)
    } else {
        vertex_key(line, dist, i, idx, last, key)
    }
}

proof fn lemma_farthest<D: Fn((Coord, Coord, Coord)) -> u64>(
    line: Seq<Coord>,
    dist: D,
    first: int,
    last: int,
    i: int,
)
    requires
        first + 1 < last,
        i <= last,
    ensures
        first < farthest_of(line, dist, first, last, i).1 < last,
        i > first + 1 ==> farthest_of(line, dist, first, last, i).1 < i,
    decreases i - first,
{
    if i > first + 1 {
        lemma_farthest(line, dist, first, last, i - 1);
    }
}

/// A vertex never gets a greater key than the cap of its span, nor than the
/// vertex that splits the span.
proof fn lemma_key_capped<D: Fn((Coord, Coord, Coord)) -> u64>(
    line: Seq<Coord>,
    dist: D,
    i: int,
    first: int,
    last: int,
    cap: u64,
)
    ensures
        vertex_key(line, dist, i, first, last, cap) <= cap,
        vertex_key(line, dist, i, first, last, cap) <= farthest_of(
            line,
            dist,
            first,
            last,
            last,
        ).0,
    decreases last - first,
{
    let (far, idx) = farthest_of(line, dist, first, last, last);
    let key = if far <= cap {
        far
    } else {
        cap
    };
    if first < idx < last && i != idx {
        if i < idx {
            lemma_key_capped(line, dist, i, first, idx, key);
        } else {
            lemma_key_capped(line, dist, i, idx, last, key);
        }
    }
}

/// Importance nests: inside every span no vertex is more important than the
/// vertex that splits it. So wherever a vertex reaches a threshold, all the
/// splits above it do.
pub proof fn law_importance_nests<D: Fn((Coord, Coord, Coord)) -> u64>(
    line: Seq<Coord>,
    dist: D,
    i: int,
    first: int,
    last: int,
    cap: u64,
)
    requires
        first < i < last,
    ensures
        ({
            let split = farthest_of(line, dist, first, last, last).1;
            &&& first < split < last
            &&& vertex_key(line, dist, i, first, last, cap) <= vertex_key(
                line,
                dist,
                split,
                first,
                last,
                cap,
            )
            &&& vertex_key(line, dist, i, first, last, cap) <= cap
        }),
{
    lemma_farthest(line, dist, first, last, last);
    lemma_key_capped(line, dist, i, first, last, cap);
}

/// No vertex of a span is farther from its segment than the farthest.
proof fn lemma_farthest_is_most<D: Fn((Coord, Coord, Coord)) -> u64>(
    line: Seq<Coord>,
    dist: D,
    first: int,
    last: int,
    i: int,
    m: int,
)
    requires
        first < m < i <= last,
    ensures
        value_of(dist, (line[m], line[first], line[last])) <= farthest_of(
            line,
            dist,
            first,
            last,
            i,
        ).0,
    decreases i - first,
{
    if m < i - 1 {
        lemma_farthest_is_most(line, dist, first, last, i - 1, m);
    }
}

/// Filtering is a valid simplification: between two neighbours that are kept
/// at a threshold, because their keys reach it or because they end the span,
/// every vertex that is left out lies nearer to their segment than the
/// threshold.
pub proof fn law_left_out_is_near<D: Fn((Coord, Coord, Coord)) -> u64>(
    line: Seq<Coord>,
    dist: D,
    first: int,
    last: int,
    cap: u64,
    t: u64,
    i: int,
    j: int,
    m: int,
)
    requires
        cap >= t,
        first <= i < m < j <= last,
        i == first || vertex_key(line, dist, i, first, last, cap) >= t,
        j == last || vertex_key(line, dist, j, first, last, cap) >= t,
        forall|x: int| i < x < j ==> #[trigger] vertex_key(line, dist, x, first, last, cap) < t,
    ensures
        value_of(dist, (line[m], line[i], line[j])) < t,
    decreases last - first,
{
    let (far, idx) = farthest_of(line, dist, first, last, last);
    let key = if far <= cap {
        far
    } else {
        cap
    };
    lemma_farthest(line, dist, first, last, last);
    assert(vertex_key(line, dist, idx, first, last, cap) == key);
    if key < t {
        if i > first {
            law_importance_nests(line, dist, i, first, last, cap);
        }
        if j < last {
            law_importance_nests(line, dist, j, first, last, cap);
        }
        lemma_farthest_is_most(line, dist, first, last, last, m);
    } else if j <= idx {
        assert forall|x: int| i < x < j implies #[trigger] vertex_key(
            line,
            dist,
            x,
            first,
            idx,
            key,
        ) < t by {
            assert(vertex_key(line, dist, x, first, last, cap) < t);
        }
        law_left_out_is_near(line, dist, first, idx, key, t, i, j, m);
    } else {
        assert(i >= idx);
        assert forall|x: int| i < x < j implies #[trigger] vertex_key(
            line,
            dist,
            x,
            idx,
            last,
            key,
        ) < t by {
            assert(vertex_key(line, dist, x, first, last, cap) < t);
        }
        law_left_out_is_near(line, dist, idx, last, key, t, i, j, m);
    }
}

/// A span that is still to be split.
struct Span {
    first: usize,
    last: usize,
    cap: u64,
}

/// The work left in some spans.
spec fn work(spans: Seq<Span>) -> int
    decreases spans.len(),
{
    if spans.len() == 0 {
        0
    } else {
        work(spans.drop_last()) + 2 * (spans.last().last - spans.last().first) - 1
    }
}

proof fn lemma_work(spans: Seq<Span>)
    requires
        forall|k: int| 0 <= k < spans.len() ==> (#[trigger] spans[k]).first < spans[k].last,
    ensures
        work(spans) >= 0,
    decreases spans.len(),
{
    if spans.len() > 0 {
        lemma_work(spans.drop_last());
    }
}

/// The vertex farthest from the segment of a span, with its key.
fn farthest<D: Fn((Coord, Coord, Coord)) -> u64>(
    line: &Vec<Coord>,
    dist: &D,
    first: usize,
    last: usize,
) -> (r: (u64, usize))
    requires
        is_function(*dist),
        first + 1 < last < line@.len(),
    ensures
        first < r.1 < last,
        (r.0, r.1 as int) == farthest_of(line@, *dist, first as int, last as int, last as int),
{
    let mut key: u64 = 0;
    let mut idx: usize = first + 1;
    let mut i: usize = first + 1;
    let a: Coord = line[first];
    let b: Coord = line[last];
    while i < last
        invariant
            first < i <= last < line@.len(),
            first < idx < last,
            is_function(*dist),
            a == line@[first as int],
            b == line@[last as int],
            (key, idx as int) == farthest_of(line@, *dist, first as int, last as int, i as int),
        decreases last - i,
    {
        let next: u64 = dist((line[i], a, b));
        assert(call_ensures(*dist, ((line@[i as int], a, b),), next));
        if next > key {
            key = next;
            idx = i;
        }
        i = i + 1;
    }
    (key, idx)
}

/// Douglas–Peucker pass assigning each interior vertex its survival key,
/// capped by the parent's value so that the per-vertex filter always yields
/// a valid simplification. Iterative (explicit stack) to handle very large
/// geometries.
fn dp<D: Fn((Coord, Coord, Coord)) -> u64>(line: &Vec<Coord>, dist: &D) -> (keys: Vec<u64>)
    requires
        is_function(*dist),
        line@.len() > 2,
    ensures
        keys@.len() == line@.len(),
        forall|i: int|
            0 < i < line@.len() - 1 ==> #[trigger] keys@[i] == vertex_key(
                line@,
                *dist,
                i,
                0,
                line@.len() - 1,
                u64::MAX,
            ),
{
    let n: usize = line.len();
    let mut keys: Vec<u64> = Vec::new();
    let mut k: usize = 0;
    while k < n
        invariant
            k <= n,
            keys@.len() == k,
        decreases n - k,
    {
        keys.push(0);
        k = k + 1;
    }
    let mut stack: Vec<Span> = Vec::new();
    stack.push(Span { first: 0, last: n - 1, cap: u64::MAX });
    let ghost key_of = |i: int| vertex_key(line@, *dist, i, 0, n - 1, u64::MAX);
    assert forall|i: int| 0 < i < n - 1 implies #[trigger] covered(stack@, i) by {
        assert(in_span(stack@[0], i));
    }
    while stack.len() > 0
        invariant
            is_function(*dist),
            n == line@.len(),
            n > 2,
            keys@.len() == n,
            forall|s: int|
                0 <= s < stack@.len() ==> (#[trigger] stack@[s]).first < stack@[s].last < n,
            forall|s: int, i: int|
                0 <= s < stack@.len() && #[trigger] in_span(stack@[s], i) ==> key_of(i)
                    == vertex_key(
                    line@,
                    *dist,
                    i,
                    stack@[s].first as int,
                    stack@[s].last as int,
                    stack@[s].cap,
                ),
            forall|i: int|
                0 < i < n - 1 ==> #[trigger] covered(stack@, i) || keys@[i] == key_of(i),
        decreases work(stack@),
    {
        let ghost before = stack@;
        let ghost keys_before = keys@;
        let span: Span = stack.pop().unwrap();
        let first: usize = span.first;
        let last: usize = span.last;
        let ghost below = stack@;
        assert(below =~= before.drop_last());
        assert(before.last() == span);
        proof {
            lemma_work(below);
        }
        assert forall|s: int, i: int|
            0 <= s < below.len() && #[trigger] in_span(below[s], i) implies key_of(i) == vertex_key(
            line@,
            *dist,
            i,
            below[s].first as int,
            below[s].last as int,
            below[s].cap,
        ) by {
            assert(in_span(before[s], i));
        }
        if last <= first + 1 {
            assert forall|i: int| 0 < i < n - 1 implies #[trigger] covered(stack@, i) || keys@[i]
                == key_of(i) by {
                if covered(before, i) {
                    let s = choose|s: int| 0 <= s < before.len() && in_span(#[trigger] before[s], i);
                    assert(in_span(below[s], i));
                }
            }
            continue ;
        }
        let (far, idx): (u64, usize) = farthest(line, dist, first, last);
        let key: u64 = if far <= span.cap {
            far
        } else {
            span.cap
        };
        keys[idx] = key;
        stack.push(Span { first, last: idx, cap: key });
        stack.push(Span { first: idx, last, cap: key });
        proof {
            let left = Span { first, last: idx, cap: key };
            let right = Span { first: idx, last, cap: key };
            assert(stack@ =~= below.push(left).push(right));
            assert(stack@.drop_last() =~= below.push(left));
            assert(stack@.drop_last().drop_last() =~= below);
            assert(work(below.push(left)) == work(below) + 2 * (idx - first) - 1) by {
                assert(below.push(left).drop_last() =~= below);
            }
            assert(work(stack@) == work(below.push(left)) + 2 * (last - idx) - 1);
            assert(work(before) == work(below) + 2 * (last - first) - 1);
            assert(in_span(before[before.len() - 1], idx as int));
            assert(key == key_of(idx as int));
            assert forall|s: int, i: int|
                0 <= s < stack@.len() && #[trigger] in_span(stack@[s], i) implies key_of(i)
                == vertex_key(
                line@,
                *dist,
                i,
                stack@[s].first as int,
                stack@[s].last as int,
                stack@[s].cap,
            ) by {
                if s < below.len() {
                    assert(in_span(below[s], i));
                } else {
                    assert(in_span(before[before.len() - 1], i));
                }
            }
            assert forall|i: int| 0 < i < n - 1 implies #[trigger] covered(stack@, i) || keys@[i]
                == key_of(i) by {
                if covered(before, i) {
                    let s = choose|s: int| 0 <= s < before.len() && in_span(#[trigger] before[s], i);
                    if s < below.len() {
                        assert(in_span(stack@[s], i));
                    } else if i < idx {
                        assert(in_span(stack@[below.len() as int], i));
                    } else if i > idx {
                        assert(in_span(stack@[below.len() as int + 1], i));
                    }
                } else {
                    assert(keys_before[i] == key_of(i));
                }
            }
        }
    }
    assert forall|i: int| 0 < i < n - 1 implies #[trigger] keys@[i] == vertex_key(
        line@,
        *dist,
        i,
        0,
        n - 1,
        u64::MAX,
    ) by {
        assert(!covered(stack@, i));
    }
    keys
}

/// Vertex `i` lies inside the span.
spec fn in_span(s: Span, i: int) -> bool {
    s.first < i < s.last
}

/// Vertex `i` lies inside one of the spans.
spec fn covered(spans: Seq<Span>, i: int) -> bool {
    exists|s: int| 0 <= s < spans.len() && in_span(#[trigger] spans[s], i)
}

/// The importance of the vertices of a line: endpoints always survive.
pub open spec fn line_values<
    D: Fn((Coord, Coord, Coord)) -> u64,
    Q: Fn(u64) -> u16,
>(
    line: Seq<Coord>,
    dist: D,
    quantize: Q,
) -> Seq<u16> {
    Seq::new(
        line.len(),
        |i: int|
            if i == 0 || i == line.len() - 1 {
                ALWAYS
            } else {
                value_of(quantize, vertex_key(line, dist, i, 0, line.len() - 1, u64::MAX))
            },
    )
}

/// A greater key never has less importance.
pub open spec fn is_monotone<Q: Fn(u64) -> u16>(quantize: Q) -> bool {
    forall|a: u64, b: u64| a <= b ==> #[trigger] value_of(quantize, a) <= #[trigger] value_of(
        quantize,
        b,
    )
}

/// What an importance threshold leaves out of a line is less important than
/// the threshold: between two neighbours that reach it, every vertex is so
/// near to their segment that its distance does not reach it.
pub proof fn law_left_out_is_unimportant<
    D: Fn((Coord, Coord, Coord)) -> u64,
    Q: Fn(u64) -> u16,
>(
    line: Seq<Coord>,
    dist: D,
    quantize: Q,
    q: u16,
    i: int,
    j: int,
    m: int,
)
    requires
        is_monotone(quantize),
        0 <= i < m < j < line.len(),
        line_values(line, dist, quantize)[i] >= q,
        line_values(line, dist, quantize)[j] >= q,
        forall|x: int| i < x < j ==> #[trigger] line_values(line, dist, quantize)[x] < q,
    ensures
        value_of(quantize, value_of(dist, (line[m], line[i], line[j]))) < q,
{
    let last = line.len() - 1;
    let values = line_values(line, dist, quantize);
    assert forall|x: int| i < x < j implies value_of(
        quantize,
        #[trigger] vertex_key(line, dist, x, 0, last, u64::MAX),
    ) < q by {
        assert(values[x] < q);
    }
    lemma_left_out(line, dist, quantize, q, 0, last, u64::MAX, i, j, m);
}

/// [`law_left_out_is_near`] for a threshold on importance in place of one on
/// keys.
proof fn lemma_left_out<D: Fn((Coord, Coord, Coord)) -> u64, Q: Fn(u64) -> u16>(
    line: Seq<Coord>,
    dist: D,
    quantize: Q,
    q: u16,
    first: int,
    last: int,
    cap: u64,
    i: int,
    j: int,
    m: int,
)
    requires
        is_monotone(quantize),
        cap == u64::MAX || value_of(quantize, cap) >= q,
        first <= i < m < j <= last,
        i == first || value_of(quantize, vertex_key(line, dist, i, first, last, cap)) >= q,
        j == last || value_of(quantize, vertex_key(line, dist, j, first, last, cap)) >= q,
        forall|x: int|
            i < x < j ==> value_of(
                quantize,
                #[trigger] vertex_key(line, dist, x, first, last, cap),
            ) < q,
    ensures
        value_of(quantize, value_of(dist, (line[m], line[i], line[j]))) < q,
    decreases last - first,
{
    let (far, idx) = farthest_of(line, dist, first, last, last);
    let key = if far <= cap {
        far
    } else {
        cap
    };
    lemma_farthest(line, dist, first, last, last);
    assert(vertex_key(line, dist, idx, first, last, cap) == key);
    if value_of(quantize, key) < q {
        if i > first {
            law_importance_nests(line, dist, i, first, last, cap);
        }
        if j < last {
            law_importance_nests(line, dist, j, first, last, cap);
        }
        lemma_farthest_is_most(line, dist, first, last, last, m);
        assert(key == far);
    } else if j <= idx {
        assert forall|x: int| i < x < j implies value_of(
            quantize,
            #[trigger] vertex_key(line, dist, x, first, idx, key),
        ) < q by {
            assert(value_of(quantize, vertex_key(line, dist, x, first, last, cap)) < q);
        }
        lemma_left_out(line, dist, quantize, q, first, idx, key, i, j, m);
    } else {
        assert(i >= idx);
        assert forall|x: int| i < x < j implies value_of(
            quantize,
            #[trigger] vertex_key(line, dist, x, idx, last, key),
        ) < q by {
            assert(value_of(quantize, vertex_key(line, dist, x, first, last, cap)) < q);
        }
        lemma_left_out(line, dist, quantize, q, idx, last, key, i, j, m);
    }
}

/// Vertex `m` splits the span between `first` and `last`: none of the
/// vertices between them is farther from the segment of the two, and those
/// before it are all nearer.
pub open spec fn splits<D: Fn((Coord, Coord, Coord)) -> u64>(
    line: Seq<Coord>,
    dist: D,
    first: int,
    last: int,
    m: int,
) -> bool {
    &&& first < m < last
    &&& forall|k: int|
        first < k < last ==> value_of(dist, (#[trigger] line[k], line[first], line[last]))
            <= value_of(dist, (line[m], line[first], line[last]))
    &&& forall|k: int|
        first < k < m ==> value_of(dist, (#[trigger] line[k], line[first], line[last]))
            < value_of(dist, (line[m], line[first], line[last]))
}

/// The search gives the splitting vertex and its distance.
proof fn lemma_farthest_splits<D: Fn((Coord, Coord, Coord)) -> u64>(
    line: Seq<Coord>,
    dist: D,
    first: int,
    last: int,
    i: int,
)
    requires
        first + 1 < i <= last,
    ensures
        ({
            let (key, m) = farthest_of(line, dist, first, last, i);
            &&& first < m < i
            &&& key == value_of(dist, (line[m], line[first], line[last]))
            &&& forall|k: int|
                first < k < i ==> value_of(dist, (#[trigger] line[k], line[first], line[last]))
                    <= key
            &&& forall|k: int|
                first < k < m ==> value_of(dist, (#[trigger] line[k], line[first], line[last]))
                    < key
        }),
    decreases i - first,
{
    if i > first + 2 {
        lemma_farthest_splits(line, dist, first, last, i - 1);
    } else {
        assert(farthest_of(line, dist, first, last, first + 1) == (0u64, first + 1));
    }
}

/// Every span with a vertex in it is split at one vertex: there is a first
/// one among the farthest, and only one.
pub proof fn law_span_has_one_split<D: Fn((Coord, Coord, Coord)) -> u64>(
    line: Seq<Coord>,
    dist: D,
    first: int,
    last: int,
)
    requires
        first + 1 < last,
    ensures
        exists|m: int| #[trigger] splits(line, dist, first, last, m),
        forall|m: int, k: int| #[trigger]
            splits(line, dist, first, last, m) && #[trigger] splits(line, dist, first, last, k)
                ==> m == k,
{
    lemma_farthest_splits(line, dist, first, last, last);
    let (_, m) = farthest_of(line, dist, first, last, last);
    assert(splits(line, dist, first, last, m));
    assert forall|a: int, b: int| #[trigger]
        splits(line, dist, first, last, a) && #[trigger] splits(line, dist, first, last, b)
        implies a == b by {
        assert(line[a] == line[a] && line[b] == line[b]);
    }
}

/// The vertex that splits a span gets its own distance from the segment of
/// the ends, capped by the split above; the vertices on either side get what
/// they get in their part of the span with that cap.
pub proof fn law_split_gets_its_distance<D: Fn((Coord, Coord, Coord)) -> u64>(
    line: Seq<Coord>,
    dist: D,
    first: int,
    last: int,
    cap: u64,
    m: int,
    i: int,
)
    requires
        splits(line, dist, first, last, m),
    ensures
        ({
            let far = value_of(dist, (line[m], line[first], line[last]));
            let key = vertex_key(line, dist, m, first, last, cap);
            &&& key == if far <= cap {
                far
            } else {
                cap
            }
            &&& i < m ==> vertex_key(line, dist, i, first, last, cap) == vertex_key(
                line,
                dist,
                i,
                first,
                m,
                key,
            )
            &&& m < i ==> vertex_key(line, dist, i, first, last, cap) == vertex_key(
                line,
                dist,
                i,
                m,
                last,
                key,
            )
        }),
{
    lemma_farthest_splits(line, dist, first, last, last);
    let (_, k) = farthest_of(line, dist, first, last, last);
    assert(splits(line, dist, first, last, k));
    law_span_has_one_split(line, dist, first, last);
}

/// A cap only cuts keys off.
proof fn lemma_cap_cuts<D: Fn((Coord, Coord, Coord)) -> u64>(
    line: Seq<Coord>,
    dist: D,
    i: int,
    first: int,
    last: int,
    cap: u64,
    more: u64,
)
    requires
        cap <= more,
    ensures
        vertex_key(line, dist, i, first, last, cap) == {
            let key = vertex_key(line, dist, i, first, last, more);
            if key <= cap {
                key
            } else {
                cap
            }
        },
    decreases last - first,
{
    let (far, m) = farthest_of(line, dist, first, last, last);
    let low = if far <= cap {
        far
    } else {
        cap
    };
    let high = if far <= more {
        far
    } else {
        more
    };
    if first < m < last && i != m {
        if i < m {
            lemma_cap_cuts(line, dist, i, first, m, low, high);
            lemma_key_capped(line, dist, i, first, m, high);
        } else {
            lemma_cap_cuts(line, dist, i, m, last, low, high);
            lemma_key_capped(line, dist, i, m, last, high);
        }
    }
}

proof fn lemma_farthest_moves<D: Fn((Coord, Coord, Coord)) -> u64>(
    line: Seq<Coord>,
    dist: D,
    first: int,
    last: int,
    i: int,
    from: int,
    to: int,
)
    requires
        0 <= from <= first <= last < to <= line.len(),
        i <= last,
    ensures
        ({
            let (key, m) = farthest_of(line, dist, first, last, i);
            farthest_of(line.subrange(from, to), dist, first - from, last - from, i - from) == (
                key,
                m - from,
            )
        }),
    decreases i - first,
{
    if i > first + 1 {
        lemma_farthest_moves(line, dist, first, last, i - 1, from, to);
        let part = line.subrange(from, to);
        assert(part[i - 1 - from] == line[i - 1]);
        assert(part[first - from] == line[first]);
        assert(part[last - from] == line[last]);
    }
}

/// Keys in a span do not depend on what stands outside of it.
proof fn lemma_key_moves<D: Fn((Coord, Coord, Coord)) -> u64>(
    line: Seq<Coord>,
    dist: D,
    i: int,
    first: int,
    last: int,
    cap: u64,
    from: int,
    to: int,
)
    requires
        0 <= from <= first <= last < to <= line.len(),
    ensures
        vertex_key(line.subrange(from, to), dist, i - from, first - from, last - from, cap)
            == vertex_key(line, dist, i, first, last, cap),
    decreases last - first,
{
    lemma_farthest_moves(line, dist, first, last, last, from, to);
    let (far, m) = farthest_of(line, dist, first, last, last);
    let key = if far <= cap {
        far
    } else {
        cap
    };
    if first < m < last && i != m {
        if i < m {
            lemma_key_moves(line, dist, i, first, m, key, from, to);
        } else {
            lemma_key_moves(line, dist, i, m, last, key, from, to);
        }
    }
}

/// The importance of a line is made at its split: the vertex that is farthest
/// from the segment between the ends, the first one if there are several, has
/// the importance of its distance; a vertex on either side of it has the
/// importance that it has in that part of the line as a line of its own, but
/// no more than the split. The ends are always kept.
pub proof fn law_line_importance<
    D: Fn((Coord, Coord, Coord)) -> u64,
    Q: Fn(u64) -> u16,
>(
    line: Seq<Coord>,
    dist: D,
    quantize: Q,
    m: int,
    i: int,
)
    requires
        is_monotone(quantize),
        splits(line, dist, 0, line.len() - 1, m),
        0 < i < line.len() - 1,
    ensures
        ({
            let all = line_values(line, dist, quantize);
            let n = line.len() as int;
            let left = line_values(line.subrange(0, m + 1), dist, quantize);
            let right = line_values(line.subrange(m, n), dist, quantize);
            &&& all.len() == n
            &&& all[0] == u16::MAX
            &&& all[n - 1] == u16::MAX
            &&& all[m] == value_of(quantize, value_of(dist, (line[m], line[0], line[n - 1])))
            &&& i < m ==> all[i] == if left[i] <= all[m] {
                left[i]
            } else {
                all[m]
            }
            &&& m < i ==> all[i] == if right[i - m] <= all[m] {
                right[i - m]
            } else {
                all[m]
            }
        }),
{
    let n = line.len() as int;
    let far = value_of(dist, (line[m], line[0], line[n - 1]));
    law_split_gets_its_distance(line, dist, 0, n - 1, u64::MAX, m, i);
    if i < m {
        lemma_cap_cuts(line, dist, i, 0, m, far, u64::MAX);
        lemma_key_moves(line, dist, i, 0, m, u64::MAX, 0, m + 1);
        let key = vertex_key(line, dist, i, 0, m, u64::MAX);
        assert(line_values(line.subrange(0, m + 1), dist, quantize)[i] == value_of(quantize, key));
    } else if m < i {
        lemma_cap_cuts(line, dist, i, m, n - 1, far, u64::MAX);
        lemma_key_moves(line, dist, i, m, n - 1, u64::MAX, m, n);
        let key = vertex_key(line, dist, i, m, n - 1, u64::MAX);
        assert(line_values(line.subrange(m, n), dist, quantize)[i - m] == value_of(quantize, key));
    }
}

/// The importance of the vertices of lines, one line after the other.
pub open spec fn lines_values<
    D: Fn((Coord, Coord, Coord)) -> u64,
    Q: Fn(u64) -> u16,
>(
    lines: Seq<Seq<Coord>>,
    dist: D,
    quantize: Q,
) -> Seq<u16>
    decreases lines.len(),
{
    if lines.len() == 0 {
        Seq::empty()
    } else {
        lines_values(lines.drop_last(), dist, quantize) + line_values(lines.last(), dist, quantize)
    }
}

/// The importance of the vertices of a polygon.
pub open spec fn polygon_values<
    D: Fn((Coord, Coord, Coord)) -> u64,
    Q: Fn(u64) -> u16,
>(
    p: PolygonModel,
    dist: D,
    quantize: Q,
) -> Seq<u16> {
    line_values(p.exterior, dist, quantize) + lines_values(p.interiors, dist, quantize)
}

/// The importance of the vertices of polygons, one after the other.
pub open spec fn polygons_values<
    D: Fn((Coord, Coord, Coord)) -> u64,
    Q: Fn(u64) -> u16,
>(
    ps: Seq<PolygonModel>,
    dist: D,
    quantize: Q,
) -> Seq<u16>
    decreases ps.len(),
{
    if ps.len() == 0 {
        Seq::empty()
    } else {
        polygons_values(ps.drop_last(), dist, quantize) + polygon_values(ps.last(), dist, quantize)
    }
}

/// The importance of the vertices of a geometry, in traversal order.
pub open spec fn geometry_values<
    D: Fn((Coord, Coord, Coord)) -> u64,
    Q: Fn(u64) -> u16,
>(
    g: GeometryModel,
    dist: D,
    quantize: Q,
) -> Seq<u16>
    decreases g,
{
    match g {
        GeometryModel::Point(_) => seq![ALWAYS],
        GeometryModel::MultiPoint(s) => Seq::new(s.len(), |i: int| ALWAYS),
        GeometryModel::Line(_, _) => seq![ALWAYS, ALWAYS],
        GeometryModel::LineString(line) => line_values(line, dist, quantize),
        GeometryModel::MultiLineString(lines) => lines_values(lines, dist, quantize),
        GeometryModel::Polygon(p) => polygon_values(p, dist, quantize),
        GeometryModel::MultiPolygon(ps) => polygons_values(ps, dist, quantize),
        GeometryModel::GeometryCollection(gs) => geometries_values(gs, dist, quantize),
        GeometryModel::Rect(_, _) => Seq::empty(),
        GeometryModel::Triangle(_, _, _) => Seq::empty(),
    }
}

/// The importance of the vertices of geometries, one after the other.
pub open spec fn geometries_values<
    D: Fn((Coord, Coord, Coord)) -> u64,
    Q: Fn(u64) -> u16,
>(
    gs: Seq<GeometryModel>,
    dist: D,
    quantize: Q,
) -> Seq<u16>
    decreases gs,
{
    if gs.len() == 0 {
        Seq::empty()
    } else {
        geometries_values(gs.drop_last(), dist, quantize) + geometry_values(
            gs.last(),
            dist,
            quantize,
        )
    }
}

/// No part of the geometry is a rectangle or a triangle: no layer holds one.
pub open spec fn storable(g: GeometryModel) -> bool
    decreases g,
{
    match g {
        GeometryModel::Rect(_, _) => false,
        GeometryModel::Triangle(_, _, _) => false,
        GeometryModel::GeometryCollection(gs) => all_storable(gs),
        _ => true,
    }
}

/// All geometries are storable.
pub open spec fn all_storable(gs: Seq<GeometryModel>) -> bool
    decreases gs,
{
    gs.len() > 0 ==> all_storable(gs.drop_last()) && storable(gs.last())
}

/// Whether no part of the geometry is a rectangle or a triangle.
pub fn is_storable(geom: &Geometry) -> (r: bool)
    ensures
        r == storable(geom@),
    decreases *geom,
{
    match geom {
        Geometry::Rect(_, _) => false,
        Geometry::Triangle(_, _, _) => false,
        Geometry::GeometryCollection(v) => {
            let n: usize = v.len();
            let ghost models = geometries_of(v@);
            proof {
                lemma_collection_view(*geom, *v);
            }
            let mut all: bool = true;
            let mut i: usize = 0;
            assert(models.take(0) =~= Seq::<GeometryModel>::empty());
            while i < n
                invariant
                    i <= n,
                    n == v@.len(),
                    *geom == Geometry::GeometryCollection(*v),
                    models == geometries_of(v@),
                    all == all_storable(models.take(i as int)),
                decreases n - i,
            {
                assert(decreases_to!(*geom => geom->GeometryCollection_0@[i as int]));
                let ok: bool = is_storable(&v[i]);
                proof {
                    let now = models.take(i + 1);
                    assert(now.drop_last() =~= models.take(i as int));
                    assert(now.last() == v@[i as int]@);
                }
                all = all && ok;
                i = i + 1;
            }
            assert(models.take(n as int) =~= models);
            all
        },
        _ => true,
    }
}

/// The importance array of a geometry has an entry for each coordinate, in
/// traversal order.
pub proof fn law_importance_matches_coords<
    D: Fn((Coord, Coord, Coord)) -> u64,
    Q: Fn(u64) -> u16,
>(
    g: GeometryModel,
    dist: D,
    quantize: Q,
)
    requires
        storable(g),
    ensures
        geometry_values(g, dist, quantize).len() == geometry_coords(g).len(),
    decreases g,
{
    match g {
        GeometryModel::MultiLineString(lines) => {
            lemma_lines_values(lines, dist, quantize);
        },
        GeometryModel::Polygon(p) => {
            lemma_lines_values(p.interiors, dist, quantize);
        },
        GeometryModel::MultiPolygon(ps) => {
            lemma_polygons_values(ps, dist, quantize);
        },
        GeometryModel::GeometryCollection(gs) => {
            lemma_geometries_values(gs, dist, quantize);
        },
        _ => {},
    }
}

proof fn lemma_lines_values<
    D: Fn((Coord, Coord, Coord)) -> u64,
    Q: Fn(u64) -> u16,
>(
    lines: Seq<Seq<Coord>>,
    dist: D,
    quantize: Q,
)
    ensures
        lines_values(lines, dist, quantize).len() == chained(lines).len(),
    decreases lines.len(),
{
    if lines.len() > 0 {
        lemma_lines_values(lines.drop_last(), dist, quantize);
    }
}

proof fn lemma_polygons_values<
    D: Fn((Coord, Coord, Coord)) -> u64,
    Q: Fn(u64) -> u16,
>(
    ps: Seq<PolygonModel>,
    dist: D,
    quantize: Q,
)
    ensures
        polygons_values(ps, dist, quantize).len() == polygons_coords(ps).len(),
    decreases ps.len(),
{
    if ps.len() > 0 {
        lemma_polygons_values(ps.drop_last(), dist, quantize);
        lemma_lines_values(ps.last().interiors, dist, quantize);
    }
}

proof fn lemma_geometries_values<
    D: Fn((Coord, Coord, Coord)) -> u64,
    Q: Fn(u64) -> u16,
>(
    gs: Seq<GeometryModel>,
    dist: D,
    quantize: Q,
)
    requires
        all_storable(gs),
    ensures
        geometries_values(gs, dist, quantize).len() == geometries_coords(gs).len(),
    decreases gs,
{
    if gs.len() > 0 {
        lemma_geometries_values(gs.drop_last(), dist, quantize);
        law_importance_matches_coords(gs.last(), dist, quantize);
    }
}

/// Mapping the coordinates of a geometry keeps it storable.
pub proof fn lemma_mapped_storable<F: Fn(Coord) -> Coord>(g: GeometryModel, f: F)
    ensures
        storable(mapped(g, f)) == storable(g),
    decreases g,
{
    if let GeometryModel::GeometryCollection(gs) = g {
        let parts = Seq::new(gs.len(), |i: int| mapped(gs[i], f));
        lemma_mapped_all_storable(gs, f);
        assert(mapped(g, f)->GeometryCollection_0 =~= parts);
    }
}

proof fn lemma_mapped_all_storable<F: Fn(Coord) -> Coord>(gs: Seq<GeometryModel>, f: F)
    ensures
        all_storable(Seq::new(gs.len(), |i: int| mapped(gs[i], f))) == all_storable(gs),
    decreases gs,
{
    let parts = Seq::new(gs.len(), |i: int| mapped(gs[i], f));
    if gs.len() > 0 {
        let init = gs.drop_last();
        lemma_mapped_all_storable(init, f);
        lemma_mapped_storable(gs.last(), f);
        assert(parts.drop_last() =~= Seq::new(init.len(), |i: int| mapped(init[i], f)));
    }
}

/// Appends the importance of a single linestring/ring. Endpoints get
/// [`ALWAYS`].
fn line_importance<
    D: Fn((Coord, Coord, Coord)) -> u64,
    Q: Fn(u64) -> u16,
>(
    line: &Vec<Coord>,
    dist: &D,
    quantize: &Q,
    out: &mut Vec<u16>,
)
    requires
        is_function(*dist),
        is_function(*quantize),
    ensures
        final(out)@ == old(out)@ + line_values(line@, *dist, *quantize),
{
    let n: usize = line.len();
    if n <= 2 {
        if n >= 1 {
            out.push(ALWAYS);
        }
        if n == 2 {
            out.push(ALWAYS);
        }
        assert(out@ =~= old(out)@ + line_values(line@, *dist, *quantize));
        return ;
    }
    let keys: Vec<u64> = dp(line, dist);
    let ghost whole = line_values(line@, *dist, *quantize);
    out.push(ALWAYS);
    assert(out@ =~= old(out)@ + whole.take(1));
    let mut i: usize = 1;
    while i < n - 1
        invariant
            2 < n,
            n == line@.len(),
            1 <= i <= n - 1,
            keys@.len() == n,
            is_function(*quantize),
            whole == line_values(line@, *dist, *quantize),
            forall|j: int|
                0 < j < line@.len() - 1 ==> #[trigger] keys@[j] == vertex_key(
                    line@,
                    *dist,
                    j,
                    0,
                    line@.len() - 1,
                    u64::MAX,
                ),
            out@ == old(out)@ + whole.take(i as int),
        decreases n - i,
    {
        let q: u16 = quantize(keys[i]);
        assert(call_ensures(*quantize, (keys@[i as int],), q));
        out.push(q);
        assert(out@ =~= old(out)@ + whole.take(i + 1));
        i = i + 1;
    }
    out.push(ALWAYS);
    assert(out@ =~= old(out)@ + whole);
}

/// Appends the importance of lines.
fn lines_importance<
    D: Fn((Coord, Coord, Coord)) -> u64,
    Q: Fn(u64) -> u16,
>(
    lines: &Vec<Vec<Coord>>,
    dist: &D,
    quantize: &Q,
    out: &mut Vec<u16>,
)
    requires
        is_function(*dist),
        is_function(*quantize),
    ensures
        final(out)@ == old(out)@ + lines_values(lines_of(lines@), *dist, *quantize),
{
    let n: usize = lines.len();
    let ghost models = lines_of(lines@);
    let mut i: usize = 0;
    assert(models.take(0) =~= Seq::<Seq<Coord>>::empty());
    assert(out@ =~= old(out)@ + lines_values(models.take(0), *dist, *quantize));
    while i < n
        invariant
            i <= n,
            n == lines@.len(),
            is_function(*dist),
            is_function(*quantize),
            models == lines_of(lines@),
            out@ == old(out)@ + lines_values(models.take(i as int), *dist, *quantize),
        decreases n - i,
    {
        line_importance(&lines[i], dist, quantize, out);
        proof {
            let now = models.take(i + 1);
            assert(now.drop_last() =~= models.take(i as int));
            assert(now.last() == lines@[i as int]@);
            assert(out@ =~= old(out)@ + lines_values(now, *dist, *quantize));
        }
        i = i + 1;
    }
    assert(models.take(n as int) =~= models);
}

/// Appends the importance of a polygon.
fn polygon_importance<
    D: Fn((Coord, Coord, Coord)) -> u64,
    Q: Fn(u64) -> u16,
>(
    p: &Polygon,
    dist: &D,
    quantize: &Q,
    out: &mut Vec<u16>,
)
    requires
        is_function(*dist),
        is_function(*quantize),
    ensures
        final(out)@ == old(out)@ + polygon_values(p@, *dist, *quantize),
{
    line_importance(&p.exterior, dist, quantize, out);
    lines_importance(&p.interiors, dist, quantize, out);
    assert(out@ =~= old(out)@ + polygon_values(p@, *dist, *quantize));
}

/// Appends the importance of a geometry.
fn collect<
    D: Fn((Coord, Coord, Coord)) -> u64,
    Q: Fn(u64) -> u16,
>(
    geom: &Geometry,
    dist: &D,
    quantize: &Q,
    out: &mut Vec<u16>,
)
    requires
        is_function(*dist),
        is_function(*quantize),
        storable(geom@),
    ensures
        final(out)@ == old(out)@ + geometry_values(geom@, *dist, *quantize),
    decreases *geom,
{
    match geom {
        Geometry::Point(_) => {
            out.push(ALWAYS);
            assert(out@ =~= old(out)@ + geometry_values(geom@, *dist, *quantize));
        },
        Geometry::MultiPoint(v) => {
            let n: usize = v.len();
            let mut i: usize = 0;
            let ghost whole = geometry_values(geom@, *dist, *quantize);
            assert(out@ =~= old(out)@ + whole.take(0));
            while i < n
                invariant
                    i <= n,
                    n == v@.len(),
                    whole == Seq::new(v@.len(), |j: int| ALWAYS),
                    out@ == old(out)@ + whole.take(i as int),
                decreases n - i,
            {
                out.push(ALWAYS);
                assert(out@ =~= old(out)@ + whole.take(i + 1));
                i = i + 1;
            }
            assert(whole.take(n as int) =~= whole);
        },
        Geometry::Line(_, _) => {
            out.push(ALWAYS);
            out.push(ALWAYS);
            assert(out@ =~= old(out)@ + geometry_values(geom@, *dist, *quantize));
        },
        Geometry::LineString(v) => {
            line_importance(v, dist, quantize, out);
        },
        Geometry::MultiLineString(v) => {
            lines_importance(v, dist, quantize, out);
        },
        Geometry::Polygon(p) => {
            polygon_importance(p, dist, quantize, out);
        },
        Geometry::MultiPolygon(v) => {
            let n: usize = v.len();
            let ghost models = polygons_of(v@);
            let mut i: usize = 0;
            assert(models.take(0) =~= Seq::<PolygonModel>::empty());
            assert(out@ =~= old(out)@ + polygons_values(models.take(0), *dist, *quantize));
            while i < n
                invariant
                    i <= n,
                    n == v@.len(),
                    is_function(*dist),
                    is_function(*quantize),
                    models == polygons_of(v@),
                    out@ == old(out)@ + polygons_values(models.take(i as int), *dist, *quantize),
                decreases n - i,
            {
                polygon_importance(&v[i], dist, quantize, out);
                proof {
                    let now = models.take(i + 1);
                    assert(now.drop_last() =~= models.take(i as int));
                    assert(now.last() == v@[i as int]@);
                    assert(out@ =~= old(out)@ + polygons_values(now, *dist, *quantize));
                }
                i = i + 1;
            }
            assert(models.take(n as int) =~= models);
        },
        Geometry::GeometryCollection(v) => {
            let n: usize = v.len();
            let ghost models = geometries_of(v@);
            let mut i: usize = 0;
            proof {
                lemma_collection_view(*geom, *v);
            }
            assert(models.take(0) =~= Seq::<GeometryModel>::empty());
            assert(out@ =~= old(out)@ + geometries_values(models.take(0), *dist, *quantize));
            while i < n
                invariant
                    i <= n,
                    n == v@.len(),
                    *geom == Geometry::GeometryCollection(*v),
                    is_function(*dist),
                    is_function(*quantize),
                    models == geometries_of(v@),
                    all_storable(models),
                    out@ == old(out)@ + geometries_values(models.take(i as int), *dist, *quantize),
                decreases n - i,
            {
                proof {
                    lemma_storable_part(models, i as int);
                    assert(decreases_to!(*geom => geom->GeometryCollection_0@[i as int]));
                }
                collect(&v[i], dist, quantize, out);
                proof {
                    let now = models.take(i + 1);
                    assert(now.drop_last() =~= models.take(i as int));
                    assert(now.last() == v@[i as int]@);
                    assert(out@ =~= old(out)@ + geometries_values(now, *dist, *quantize));
                }
                i = i + 1;
            }
            assert(models.take(n as int) =~= models);
        },
        Geometry::Rect(_, _) => {},
        Geometry::Triangle(_, _, _) => {},
    }
}

proof fn lemma_storable_part(gs: Seq<GeometryModel>, i: int)
    requires
        all_storable(gs),
        0 <= i < gs.len(),
    ensures
        storable(gs[i]),
    decreases gs.len(),
{
    if i < gs.len() - 1 {
        lemma_storable_part(gs.drop_last(), i);
    }
}

/// Compute the importance array for a geometry whose coordinates are in
/// unit mercator. The output order matches FlatGeobuf coordinate traversal
/// order (parts in order, exterior ring then interior rings).
///
/// `dist` gives the order key of the squared distance from its first
/// coordinate to the segment between the other two; `quantize` the importance
/// for a key.
pub fn geometry_importance<
    D: Fn((Coord, Coord, Coord)) -> u64,
    Q: Fn(u64) -> u16,
>(
    geom: &Geometry,
    dist: &D,
    quantize: &Q,
) -> (out: Vec<u16>)
    requires
        is_function(*dist),
        is_function(*quantize),
        storable(geom@),
    ensures
        out@ == geometry_values(geom@, *dist, *quantize),
        out@.len() == geometry_coords(geom@).len(),
{
    let mut out: Vec<u16> = Vec::new();
    collect(geom, dist, quantize, &mut out);
    assert(out@ =~= geometry_values(geom@, *dist, *quantize));
    proof {
        law_importance_matches_coords(geom@, *dist, *quantize);
    }
    out
}

/// The importance of a geometry is that of its parts, one after the other:
/// points are always kept, each line and each ring is taken by itself, the
/// exterior of a polygon before its holes.
pub proof fn law_importance_of_parts<
    D: Fn((Coord, Coord, Coord)) -> u64,
    Q: Fn(u64) -> u16,
>(
    c: Coord,
    points: Seq<Coord>,
    line: Seq<Coord>,
    lines: Seq<Seq<Coord>>,
    p: PolygonModel,
    ps: Seq<PolygonModel>,
    g: GeometryModel,
    gs: Seq<GeometryModel>,
    dist: D,
    quantize: Q,
)
    ensures
        geometry_values(GeometryModel::Point(c), dist, quantize) == seq![u16::MAX],
        geometry_values(GeometryModel::MultiPoint(points), dist, quantize) == Seq::new(
            points.len(),
            |i: int| u16::MAX,
        ),
        geometry_values(GeometryModel::LineString(line), dist, quantize) == line_values(
            line,
            dist,
            quantize,
        ),
        geometry_values(GeometryModel::MultiLineString(lines.push(line)), dist, quantize)
            == geometry_values(GeometryModel::MultiLineString(lines), dist, quantize)
            + geometry_values(GeometryModel::LineString(line), dist, quantize),
        geometry_values(GeometryModel::Polygon(p), dist, quantize) == geometry_values(
            GeometryModel::LineString(p.exterior),
            dist,
            quantize,
        ) + geometry_values(GeometryModel::MultiLineString(p.interiors), dist, quantize),
        geometry_values(GeometryModel::MultiPolygon(ps.push(p)), dist, quantize) == geometry_values(
            GeometryModel::MultiPolygon(ps),
            dist,
            quantize,
        ) + geometry_values(GeometryModel::Polygon(p), dist, quantize),
        geometry_values(GeometryModel::GeometryCollection(gs.push(g)), dist, quantize)
            == geometry_values(GeometryModel::GeometryCollection(gs), dist, quantize)
            + geometry_values(g, dist, quantize),
        geometry_values(GeometryModel::MultiLineString(Seq::empty()), dist, quantize).len() == 0,
        geometry_values(GeometryModel::MultiPolygon(Seq::empty()), dist, quantize).len() == 0,
        geometry_values(GeometryModel::GeometryCollection(Seq::empty()), dist, quantize).len() == 0,
{
    reveal_with_fuel(geometries_values, 2);
    reveal_with_fuel(geometry_values, 3);
    assert(lines.push(line).drop_last() =~= lines);
    assert(ps.push(p).drop_last() =~= ps);
    assert(gs.push(g).drop_last() =~= gs);
}

/// The threshold for a squared tolerance: its own bucket if that lies at the
/// tolerance or above, otherwise the next one, short of [`ALWAYS`].
pub open spec fn threshold_of(q: u16, reaches: bool) -> u16 {
    if reaches {
        q
    } else if q >= 65533 {
        65534
    } else {
        (q + 1) as u16
    }
}

/// Quantized threshold for filtering: keep vertex `i` iff
/// `importance[i] >= threshold_q(sq_tolerance)`.
///
/// `quantize` gives the bucket of a tolerance, `reaches` whether the lower
/// bound of a bucket is at least the tolerance.
pub fn threshold_q<Q: Fn(u64) -> u16, R: Fn((u16, u64)) -> bool>(
    sq_tolerance: u64,
    quantize: &Q,
    reaches: &R,
) -> (t: u16)
    requires
        is_function(*quantize),
        is_function(*reaches),
    ensures
        ({
            let q = value_of(*quantize, sq_tolerance);
            t == threshold_of(q, value_of(*reaches, (q, sq_tolerance)))
        }),
{
    // the smallest q whose lower bound is >= sq_tolerance
    let q: u16 = quantize(sq_tolerance);
    assert(call_ensures(*quantize, (sq_tolerance,), q));
    let enough: bool = reaches((q, sq_tolerance));
    assert(call_ensures(*reaches, ((q, sq_tolerance),), enough));
    if enough {
        q
    } else if q >= 65533 {
        65534
    } else {
        q + 1
    }
}

/// The threshold is the least bucket, from that of the tolerance on, whose
/// lower bound reaches the tolerance. Buckets of importance end before the one
/// that is always kept, so that where even the last one does not reach, the
/// threshold is the last one. `reaches` must hold of the bucket above that of
/// the tolerance.
pub proof fn law_threshold_is_least(q: u16, reaches: spec_fn(u16) -> bool, r: u16)
    requires
        q < 65535,
        q < 65534 ==> reaches((q + 1) as u16),
    ensures
        ({
            let t = threshold_of(q, reaches(q));
            &&& q <= t < u16::MAX
            &&& reaches(t) || t == 65534
            &&& q <= r < t ==> !reaches(r)
        }),
{
}

/// A sidecar is the number of features in eight bytes, one offset more than
/// that in eight bytes each, and the values in two bytes each.
pub proof fn law_sidecar_layout(m: SidecarModel, s: Seq<u16>, v: u16)
    requires
        m.wf(),
    ensures
        u16s_seq(Seq::empty()).len() == 0,
        u16s_seq(s.push(v)) == u16s_seq(s) + digits(v as nat, 2),
        sidecar_seq(m) == digits((m.offsets.len() - 1) as nat, 8) + u64s_seq(m.offsets) + u16s_seq(
            m.payload,
        ),
{
    law_numbers_are_little_endian(v as nat, 2);
    law_numbers_are_little_endian(m.count() as nat, 8);
    assert(s.push(v).drop_last() =~= s);
}

/// Bytes are taken for a sidecar exactly if they hold all offsets that they
/// announce, and the last one is the number of bytes behind them.
pub proof fn law_sidecar_is_complete(buf: Seq<u8>)
    ensures
        ({
            let n = field(buf, 0, 8) + 1;
            sidecar_of(buf) is Ok <==> 8 <= buf.len() && 8 + 8 * n <= buf.len() && field(
                buf,
                8 * n as int,
                8,
            ) == buf.len() - (8 + 8 * n)
        }),
        sidecar_of(buf) matches Ok(m) ==> m.count() == field(buf, 0, 8) && m.payload.len()
            == m.offsets.last() / 2,
{
    let n = field(buf, 0, 8) + 1;
    if buf.len() >= 8 && 8 + 8 * n <= buf.len() {
        let offsets = u64s_at(buf, 8, n);
        lemma_le_bounds();
        lemma_le_bytes_round_trip(buf.subrange(8 * n as int, 8 * n as int + 8));
        assert(offsets.last() == field(buf, 8 + 8 * (n - 1), 8));
    }
}

/// A sidecar that lacks bytes at its end is refused.
pub proof fn law_truncated_sidecar_is_refused(m: SidecarModel, k: int)
    requires
        m.built(),
        m.offsets.len() <= u64::MAX,
        0 <= k < sidecar_seq(m).len(),
    ensures
        sidecar_of(sidecar_seq(m).take(k)) is Err,
{
    let enc = sidecar_seq(m);
    let buf = enc.take(k);
    let n = m.offsets.len() as int;
    lemma_sidecar_parts(m);
    law_sidecar_is_complete(buf);
    if k >= 8 + 8 * n {
        assert(buf.subrange(0, 8) =~= enc.subrange(0, 8));
        assert(buf.subrange(8 * n, 8 * n + 8) =~= enc.subrange(8 * n, 8 * n + 8));
        assert(u64s_at(enc, 8, m.offsets.len())[n - 1] == m.offsets[n - 1]);
        lemma_le_bounds();
        lemma_le_bytes_round_trip(enc.subrange(8 * n, 8 * n + 8));
    } else if k >= 8 {
        assert(buf.subrange(0, 8) =~= enc.subrange(0, 8));
    }
}

/// All geometries can be stored but a rectangle and a triangle, and
/// collections that hold one of these.
pub proof fn law_what_can_be_stored(g: GeometryModel, gs: Seq<GeometryModel>)
    ensures
        g is Rect || g is Triangle ==> !storable(g),
        !(g is Rect || g is Triangle || g is GeometryCollection) ==> storable(g),
        storable(GeometryModel::GeometryCollection(Seq::empty())),
        storable(GeometryModel::GeometryCollection(gs.push(g))) <==> storable(
            GeometryModel::GeometryCollection(gs),
        ) && storable(g),
{
    reveal_with_fuel(storable, 3);
    reveal_with_fuel(all_storable, 2);
    assert(gs.push(g).drop_last() =~= gs);
}

} // verus!
