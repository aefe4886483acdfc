//! Calls into other crates and into parts of the standard library that
//! Verus has no specification for. Everything in this file is believed, not
//! proved; each item says what it claims of the function that it calls.

use crate::fgb::{Column, Crs, FeatureFields, FeatureModel, HeaderFields, HeaderModel};
use vstd::prelude::*;
use vstd::utf8::{encode_utf8, valid_utf8};

verus! {

/// The CRC-32 checksum of some bytes, as `crc32fast::hash` computes it.
pub uninterp spec fn crc32_of(bytes: Seq<u8>) -> u32;

/// Calls `crc32fast::hash`: the checksum is a function of the bytes alone.
#[verifier::external_body]
pub(crate) fn crc32_hash(bytes: &[u8]) -> (r: u32)
    ensures
        r == crc32_of(bytes@),
{
    crc32fast::hash(bytes)
}

/// Calls `String::from_utf8`: it succeeds exactly on valid UTF-8, and the
/// text that it gives has those bytes as its UTF-8 encoding.
#[verifier::external_body]
pub(crate) fn utf8_string(bytes: Vec<u8>) -> (r: Option<String>)
    ensures
        r is Some <==> valid_utf8(bytes@),
        r matches Some(s) ==> encode_utf8(s@) == bytes@,
{
    String::from_utf8(bytes).ok()
}

/// Calls `String::push`: the character comes behind the text.
#[verifier::external_body]
pub(crate) fn push_char(s: &mut String, c: char)
    ensures
        final(s)@ == old(s)@.push(c),
{
    s.push(c)
}

/// What `flatgeobuf::size_prefixed_root_as_header` finds in a buffer: the
/// fields of the header, or the text of the error that it reports. On a
/// machine that aligns eight-byte numbers otherwise than to eight bytes the
/// function accepts other buffers.
pub uninterp spec fn fgb_header(bytes: Seq<u8>) -> core::result::Result<HeaderModel, Seq<char>>;

/// Calls `flatgeobuf::size_prefixed_root_as_header` and the accessors of the
/// header, but for the columns: only their number is given here. What comes
/// back is a function of the buffer alone. A column is a table, and a buffer
/// with more than a million tables is refused.
#[verifier::external_body]
pub(crate) fn header_fields(buf: &[u8]) -> (r: core::result::Result<HeaderFields, String>)
    ensures
        match r {
            Ok(h) => fgb_header(buf@) matches Ok(m) && h.agrees(m) && (
                h.column_count matches Some(n) ==> n <= 1_000_000),
            Err(e) => fgb_header(buf@) == core::result::Result::<HeaderModel, Seq<char>>::Err(e@),
        },
{
    let h = flatgeobuf::size_prefixed_root_as_header(buf).map_err(|e| format!("{e}"))?;
    Ok(HeaderFields {
        name: h.name().map(|s| s.to_string()),
        geometry_type: h.geometry_type().0,
        has_z: h.has_z(),
        features_count: h.features_count(),
        index_node_size: h.index_node_size(),
        column_count: h.columns().map(|c| c.len() as u32),
        crs: h.crs().map(|c| Crs {
            org: c.org().map(|s| s.to_string()), code: c.code(), wkt: c.wkt().map(|s| s.to_string()),
        }),
    })
}

/// Calls `flatgeobuf::size_prefixed_root_as_header`, `Header::columns` and
/// the accessors of the `i`-th column: there is one where the buffer holds a
/// header with more than `i` columns. Where `usize` has 32 bits, stepping to
/// a column that stands further than the address space reaches overflows.
#[verifier::external_body]
pub(crate) fn header_column(buf: &[u8], i: u32) -> (r: Option<Column>)
    requires
        i < 0x4000_0000,
    ensures
        match fgb_header(buf@) {
            Ok(m) => match m.columns {
                Some(cols) => match r {
                    Some(c) => i < cols.len() && c@ == cols[i as int],
                    None => i >= cols.len(),
                },
                None => r is None,
            },
            Err(_) => r is None,
        },
{
    let h = flatgeobuf::size_prefixed_root_as_header(buf).ok()?;
    let c = h.columns()?.iter().nth(i as usize)?;
    Some(Column { name: c.name().to_string(), column_type: c.type_().0 })
}

/// What `flatgeobuf::size_prefixed_root_as_feature` finds in a buffer: the
/// property bytes of the feature, or the text of the error that it reports.
/// On a machine that aligns eight-byte numbers otherwise than to eight bytes
/// the function accepts other buffers.
pub uninterp spec fn fgb_feature(bytes: Seq<u8>) -> core::result::Result<FeatureModel, Seq<char>>;

/// Calls `flatgeobuf::size_prefixed_root_as_feature` and
/// `Feature::properties`. What comes back is a function of the buffer alone.
#[verifier::external_body]
pub(crate) fn feature_fields(buf: &[u8]) -> (r: core::result::Result<FeatureFields, String>)
    ensures
        match r {
            Ok(f) => fgb_feature(buf@) == core::result::Result::<FeatureModel, Seq<char>>::Ok(f@),
            Err(e) => fgb_feature(buf@) == core::result::Result::<FeatureModel, Seq<char>>::Err(e@),
        },
{
    let f = flatgeobuf::size_prefixed_root_as_feature(buf).map_err(|e| format!("{e}"))?;
    Ok(FeatureFields { properties: f.properties().map(|p| p.bytes().to_vec()) })
}

/// The number of nodes of a packed R-tree over `n` items with `k` entries to
/// a node: the items, and above them level by level one node for each `k`
/// below, up to a single root.
pub open spec fn tree_nodes(n: nat, k: nat) -> nat
    decreases n,
{
    let above = (n + k - 1) as nat / k;
    if k < 2 || above <= 1 || above >= n {
        n + 1
    } else {
        n + tree_nodes(above, k)
    }
}

/// Calls `PackedRTree::index_size`: forty bytes for each node of the tree.
/// The function panics for a node size under two, without items, and where
/// the size does not fit.
#[verifier::external_body]
pub(crate) fn packed_index_size(num_items: usize, node_size: u16) -> (size: usize)
    requires
        num_items > 0,
        node_size >= 2,
        40 * tree_nodes(num_items as nat, node_size as nat) <= usize::MAX,
    ensures
        size == 40 * tree_nodes(num_items as nat, node_size as nat),
{
    flatgeobuf::packed_r_tree::PackedRTree::index_size(num_items, node_size)
}

} // verus!
