//! HTTP range reading: what to ask a server for, and what its answer means.
//! Each read maps to exactly one `Range: bytes=...` request, so that request
//! counts equal real HTTP request counts.

use crate::error::{Error, Fault, IoError, Result};
use crate::sparse::{seek_target, signed, SeekFrom};
use crate::text::{
    chars_of, decimal, law_decimal_is_digits, law_decimal_round_trip, parse_number, parts_of, push_decimal, split,
};
use crate::text::{joined_with, law_joined_parts_come_back, starts};
use crate::text::{texts_of, trim, trimmed, unsigned_value, with_decimal};
use vstd::prelude::*;

verus! {

/// The status of an answer with part of a file.
pub const PARTIAL_CONTENT: u16 = 206;

/// The file length that a `Content-Range` header names ("bytes 0-0/12345"):
/// the number behind the last slash.
pub open spec fn range_total(header: Seq<char>) -> Option<nat> {
    unsigned_value(trimmed(parts_of(header, '/').last()), u64::MAX as nat)
}

/// What the answer to a one-byte range probe says: the length of the file, or
/// why there is none. `status_text` is the status as it is shown.
pub open spec fn probed(
    status: u16,
    status_text: Seq<char>,
    header: Option<Seq<char>>,
) -> core::result::Result<nat, Fault> {
    if status != PARTIAL_CONTENT {
        Err(
            Fault::InvalidInput(
                "server does not support range requests (status "@ + status_text + ")"@,
            ),
        )
    } else {
        match header {
            None => Err(Fault::InvalidInput("missing Content-Range header"@)),
            Some(h) => match range_total(h) {
                Some(n) => Ok(n),
                None => Err(Fault::InvalidInput("unparsable Content-Range: "@ + h)),
            },
        }
    }
}

/// Reads the answer to a one-byte range probe.
pub fn probe_len(status: u16, status_text: &str, header: Option<&str>) -> (r: Result<u64>)
    ensures
        match r {
            Ok(n) => probed(
                status,
                status_text@,
                match header {
                    Some(h) => Some(h@),
                    None => None,
                },
            ) == core::result::Result::<nat, Fault>::Ok(n as nat),
            Err(e) => probed(
                status,
                status_text@,
                match header {
                    Some(h) => Some(h@),
                    None => None,
                },
            ) == core::result::Result::<nat, Fault>::Err(e@),
        },
{
    if status != PARTIAL_CONTENT {
        let mut text: String = "server does not support range requests (status ".to_owned();
        text.append(status_text);
        text.append(")");
        return Err(Error::InvalidInput(text));
    }
    match header {
        None => Err(Error::invalid_input("missing Content-Range header")),
        Some(h) => {
            let parts: Vec<Vec<char>> = split(&chars_of(h), '/');
            let last: &Vec<char> = &parts[parts.len() - 1];
            assert(texts_of(parts@).last() == last@);
            match parse_number(&trim(last), u64::MAX) {
                Ok(n) => Ok(n),
                Err(_) => {
                    let mut text: String = "unparsable Content-Range: ".to_owned();
                    text.append(h);
                    Err(Error::InvalidInput(text))
                },
            }
        },
    }
}

/// The value of a `Range` header for the bytes from `start` to `end`, both
/// taken in.
pub open spec fn range_text(start: nat, end: nat) -> Seq<char> {
    "bytes="@ + decimal(start) + "-"@ + decimal(end)
}

/// The value of a `Range` header for `len` bytes at `offset`.
pub fn range_header(offset: u64, len: u64) -> (text: String)
    requires
        len > 0,
        offset + len <= u64::MAX,
    ensures
        text@ == range_text(offset as nat, (offset + len - 1) as nat),
{
    let mut text: String = with_decimal("bytes=", offset);
    text.append("-");
    push_decimal(&mut text, offset + len - 1);
    text
}

/// The position of a reader in a remote file.
#[derive(Debug, Clone, Copy, PartialEq, Eq, Structural)]
pub struct HttpRangeReader {
    pub len: u64,
    pub pos: u64,
}

impl HttpRangeReader {
    pub fn new(len: u64) -> (r: HttpRangeReader)
        ensures
            r == (HttpRangeReader { len, pos: 0 }),
    {
        HttpRangeReader { len, pos: 0 }
    }

    pub fn len(&self) -> (n: u64)
        ensures
            n == self.len,
    {
        self.len
    }

    pub fn is_empty(&self) -> (r: bool)
        ensures
            r == (self.len == 0),
    {
        self.len == 0
    }

    /// The first and the last byte to ask for when up to `buf_len` bytes are
    /// to be read; nothing at the end of the file.
    pub fn request(&self, buf_len: u64) -> (r: Option<(u64, u64)>)
        ensures
            match r {
                None => buf_len == 0 || self.pos >= self.len,
                Some((start, end)) => buf_len > 0 && self.pos < self.len && start == self.pos && end
                    == if buf_len < self.len - self.pos {
                    self.pos + buf_len - 1
                } else {
                    self.len - 1
                },
            },
    {
        let remaining: u64 = self.len.saturating_sub(self.pos);
        let want: u64 = if buf_len < remaining {
            buf_len
        } else {
            remaining
        };
        if want == 0 {
            return None;
        }
        Some((self.pos, self.pos + (want - 1)))
    }

    /// Moves on by the bytes that came.
    pub fn advance(&mut self, filled: u64)
        requires
            old(self).pos + filled <= u64::MAX,
        ensures
            *final(self) == (HttpRangeReader {
                pos: (old(self).pos + filled) as u64,
                len: old(self).len,
            }),
    {
        self.pos = self.pos + filled;
    }

    pub fn seek(&mut self, to: SeekFrom) -> (res: Result<u64>)
        requires
            i64::MIN <= seek_target(old(self).pos as int, old(self).len as int, to) <= i64::MAX,
        ensures
            final(self).len == old(self).len,
            ({
                let target = seek_target(old(self).pos as int, old(self).len as int, to);
                match res {
                    Ok(p) => target >= 0 && p == target && final(self).pos == target,
                    Err(e) => target < 0 && e@ == Fault::Io(IoError::InvalidSeek) && final(self).pos
                        == old(self).pos,
                }
            }),
    {
        let new: i64 = match to {
            SeekFrom::Start(o) => signed(o),
            SeekFrom::Current(d) => signed(self.pos) + d,
            SeekFrom::End(d) => signed(self.len) + d,
        };
        if new < 0 {
            return Err(Error::Io(IoError::InvalidSeek));
        }
        self.pos = new as u64;
        Ok(self.pos)
    }
}

/// A probe learns the length that the server names: whatever stands before
/// the last slash, the decimal number behind it is read.
pub proof fn law_named_length_is_read(before: Seq<char>, n: nat)
    requires
        n <= u64::MAX,
    ensures
        range_total(before + seq!['/'] + decimal(n)) == Some(n),
{
    lemma_decimal_digits(n);
    lemma_last_part(before, '/', decimal(n));
    let d = decimal(n);
    assert(trimmed(d) == d);
    law_decimal_round_trip(n, u64::MAX as nat);
}

/// A decimal number starts and ends with a digit and has only digits.
proof fn lemma_decimal_digits(n: nat)
    ensures
        decimal(n).len() > 0,
        forall|i: int| 0 <= i < decimal(n).len() ==> '0' <= #[trigger] decimal(n)[i] <= '9',
{
    law_decimal_is_digits(n);
}

/// The last part behind a separator.
proof fn lemma_last_part(before: Seq<char>, sep: char, last: Seq<char>)
    requires
        forall|i: int| 0 <= i < last.len() ==> #[trigger] last[i] != sep,
    ensures
        parts_of(before + seq![sep] + last, sep).len() > 0,
        parts_of(before + seq![sep] + last, sep).last() == last,
    decreases last.len(),
{
    let s = before + seq![sep] + last;
    if last.len() == 0 {
        assert(s.drop_last() =~= before);
        assert(last =~= Seq::<char>::empty());
    } else {
        let init = last.drop_last();
        assert(s.drop_last() =~= before + seq![sep] + init);
        lemma_last_part(before, sep, init);
        assert(init.push(last.last()) =~= last);
    }
}

/// A server that does not answer with the status 206 is refused, and so is an
/// answer without a range; from one with a range the length is read that is
/// named behind its last slash.
pub proof fn law_probe_answers(status: u16, text: Seq<char>, before: Seq<char>, n: nat)
    requires
        n <= u64::MAX,
    ensures
        status != 206 ==> probed(status, text, Some(before + seq!['/'] + decimal(n))) is Err,
        probed(206, text, None) is Err,
        probed(206, text, Some(before + seq!['/'] + decimal(n))) == core::result::Result::<
            nat,
            Fault,
        >::Ok(n),
{
    law_named_length_is_read(before, n);
}

/// The value of a `Range` header is "bytes=" and then the first and the last
/// byte, with a dash between them.
pub proof fn law_range_names_both_ends(start: nat, end: nat)
    ensures
        starts(range_text(start, end), "bytes="@),
        parts_of(range_text(start, end).skip(6), '-') == seq![decimal(start), decimal(end)],
{
    reveal_strlit("bytes=");
    reveal_strlit("-");
    let text = range_text(start, end);
    let parts = seq![decimal(start), decimal(end)];
    law_decimal_is_digits(start);
    law_decimal_is_digits(end);
    reveal_with_fuel(joined_with, 3);
    assert(parts.drop_last() =~= seq![decimal(start)]);
    assert(text.skip(6) =~= joined_with(parts, '-'));
    assert forall|i: int, j: int|
        0 <= i < parts.len() && 0 <= j < parts[i].len() implies #[trigger] parts[i][j] != '-' by {
        if i == 0 {
            assert('0' <= decimal(start)[j] <= '9');
        } else {
            assert('0' <= decimal(end)[j] <= '9');
        }
    }
    law_joined_parts_come_back(parts, '-');
    assert(text.take(6) =~= "bytes="@);
}

} // verus!
