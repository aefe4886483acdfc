//! Little-endian integers.
//!
//! `le_seq` and `le_value` say what the encoding is over mathematical
//! integers; the executable readers and writers are proved against them.

use vstd::arithmetic::div_mod::lemma_div_denominator;
use vstd::arithmetic::power::{lemma_pow0, lemma_pow_positive, pow};
use vstd::prelude::*;

verus! {

/// The `width` low base-256 digits of `n`, least significant first.
pub open spec fn le_seq(n: nat, width: nat) -> Seq<u8>
    decreases width,
{
    if width == 0 {
        Seq::empty()
    } else {
        seq![(n % 256) as u8] + le_seq(n / 256, (width - 1) as nat)
    }
}

/// The number whose base-256 digits are `s`, least significant first.
pub open spec fn le_value(s: Seq<u8>) -> nat
    decreases s.len(),
{
    if s.len() == 0 {
        0
    } else {
        s[0] as nat + 256 * le_value(s.drop_first())
    }
}

/// 256 to the power `width`: one more than the largest number that `width`
/// bytes can hold.
pub open spec fn le_bound(width: nat) -> nat
    decreases width,
{
    if width == 0 {
        1
    } else {
        256 * le_bound((width - 1) as nat)
    }
}

pub proof fn lemma_le_seq_len(n: nat, width: nat)
    ensures
        le_seq(n, width).len() == width,
    decreases width,
{
    if width > 0 {
        lemma_le_seq_len(n / 256, (width - 1) as nat);
    }
}

/// A number that fits comes back from its bytes.
pub proof fn lemma_le_round_trip(n: nat, width: nat)
    requires
        n < le_bound(width),
    ensures
        le_value(le_seq(n, width)) == n,
    decreases width,
{
    if width > 0 {
        let tail = le_seq(n / 256, (width - 1) as nat);
        lemma_le_round_trip(n / 256, (width - 1) as nat);
        assert(le_seq(n, width).drop_first() =~= tail);
        assert(le_seq(n, width)[0] == (n % 256) as u8);
    }
}

/// Bytes come back from the number that they hold.
pub proof fn lemma_le_bytes_round_trip(s: Seq<u8>)
    ensures
        le_value(s) < le_bound(s.len()),
        le_seq(le_value(s), s.len()) == s,
    decreases s.len(),
{
    if s.len() > 0 {
        let tail = s.drop_first();
        lemma_le_bytes_round_trip(tail);
        let n = le_value(s);
        assert(n % 256 == s[0] as nat);
        assert(n / 256 == le_value(tail));
        assert(le_seq(n, s.len()) =~= s);
    } else {
        assert(le_seq(0, 0) =~= s);
    }
}

pub proof fn lemma_le_bounds()
    ensures
        le_bound(1) == 0x100,
        le_bound(2) == 0x1_0000,
        le_bound(4) == 0x1_0000_0000,
        le_bound(8) == 0x1_0000_0000_0000_0000,
{
    reveal_with_fuel(le_bound, 9);
}

/// Appends the `width` low bytes of `n`.
fn put_le(buf: &mut Vec<u8>, n: u64, width: usize)
    requires
        width <= 8,
    ensures
        final(buf)@ == old(buf)@ + le_seq(n as nat, width as nat),
{
    let ghost start = buf@;
    let mut rest: u64 = n;
    let mut left: usize = width;
    assert(buf@ + le_seq(n as nat, width as nat) =~= start + le_seq(n as nat, width as nat));
    while left > 0
        invariant
            buf@ + le_seq(rest as nat, left as nat) == start + le_seq(n as nat, width as nat),
        decreases left,
    {
        let ghost before = buf@;
        buf.push((rest % 256) as u8);
        proof {
            let tail = le_seq((rest / 256) as nat, (left - 1) as nat);
            assert(before + le_seq(rest as nat, left as nat) =~= before.push((rest % 256) as u8)
                + tail);
        }
        rest = rest / 256;
        left = left - 1;
    }
    assert(buf@ + le_seq(rest as nat, 0) =~= buf@);
}

/// Appends `v` as two bytes.
pub fn put_u16(buf: &mut Vec<u8>, v: u16)
    ensures
        final(buf)@ == old(buf)@ + le_seq(v as nat, 2),
{
    put_le(buf, v as u64, 2);
}

/// Appends `v` as four bytes.
pub fn put_u32(buf: &mut Vec<u8>, v: u32)
    ensures
        final(buf)@ == old(buf)@ + le_seq(v as nat, 4),
{
    put_le(buf, v as u64, 4);
}

/// Appends `v` as eight bytes.
pub fn put_u64(buf: &mut Vec<u8>, v: u64)
    ensures
        final(buf)@ == old(buf)@ + le_seq(v as nat, 8),
{
    put_le(buf, v, 8);
}

/// Reads `width` bytes of `buf` at `at`.
pub(crate) fn get_le(buf: &[u8], at: usize, width: usize) -> (v: u64)
    requires
        width <= 8,
        at + width <= buf@.len(),
    ensures
        v as nat == le_value(buf@.subrange(at as int, at + width)),
{
    let mut v: u64 = 0;
    let mut i: usize = width;
    let end: usize = buf.len();
    let ghost whole = buf@.subrange(at as int, at + width);
    proof {
        lemma_le_bounds();
    }
    assert(buf@.subrange(at + width, at + width) =~= Seq::<u8>::empty());
    while i > 0
        invariant
            i <= width <= 8,
            at + width <= end,
            end == buf@.len(),
            v as nat == le_value(buf@.subrange(at + i, at + width)),
        decreases i,
    {
        let ghost tail = buf@.subrange(at + i, at + width);
        let ghost now = buf@.subrange(at + i - 1, at + width);
        proof {
            assert(now.drop_first() =~= tail);
            lemma_le_bytes_round_trip(now);
            reveal_with_fuel(le_bound, 9);
            assert(le_bound(now.len()) <= 0x1_0000_0000_0000_0000);
        }
        i = i - 1;
        v = (buf[at + i] as u64) + 256 * v;
    }
    v
}

/// The two bytes of `buf` at `at`, as a number.
pub fn get_u16(buf: &[u8], at: usize) -> (v: u16)
    requires
        at + 2 <= buf@.len(),
    ensures
        v as nat == le_value(buf@.subrange(at as int, at + 2)),
{
    let v: u64 = get_le(buf, at, 2);
    proof {
        lemma_le_bounds();
        lemma_le_bytes_round_trip(buf@.subrange(at as int, at + 2));
    }
    v as u16
}

/// The four bytes of `buf` at `at`, as a number.
pub fn get_u32(buf: &[u8], at: usize) -> (v: u32)
    requires
        at + 4 <= buf@.len(),
    ensures
        v as nat == le_value(buf@.subrange(at as int, at + 4)),
{
    let v: u64 = get_le(buf, at, 4);
    proof {
        lemma_le_bounds();
        lemma_le_bytes_round_trip(buf@.subrange(at as int, at + 4));
    }
    v as u32
}

/// The eight bytes of `buf` at `at`, as a number.
pub fn get_u64(buf: &[u8], at: usize) -> (v: u64)
    requires
        at + 8 <= buf@.len(),
    ensures
        v as nat == le_value(buf@.subrange(at as int, at + 8)),
{
    get_le(buf, at, 8)
}

/// The bytes `part` stand in `buf` at `at`.
pub open spec fn stands_at(buf: Seq<u8>, at: int, part: Seq<u8>) -> bool {
    &&& 0 <= at
    &&& at + part.len() <= buf.len()
    &&& buf.subrange(at, at + part.len()) == part
}

/// Two parts stand one after the other where their concatenation stands.
pub proof fn lemma_stands_split(buf: Seq<u8>, at: int, a: Seq<u8>, b: Seq<u8>)
    ensures
        stands_at(buf, at, a + b) <==> stands_at(buf, at, a) && stands_at(buf, at + a.len(), b),
{
    if stands_at(buf, at, a + b) {
        let whole = buf.subrange(at, at + (a + b).len());
        assert(buf.subrange(at, at + a.len()) =~= whole.subrange(0, a.len() as int));
        assert((a + b).subrange(0, a.len() as int) =~= a);
        assert(buf.subrange(at + a.len(), at + a.len() + b.len()) =~= whole.subrange(
            a.len() as int,
            (a + b).len() as int,
        ));
        assert((a + b).subrange(a.len() as int, (a + b).len() as int) =~= b);
    }
    if stands_at(buf, at, a) && stands_at(buf, at + a.len(), b) {
        assert(buf.subrange(at, at + (a + b).len()) =~= buf.subrange(at, at + a.len())
            + buf.subrange(at + a.len(), at + a.len() + b.len()));
    }
}

/// A single byte that stands at `at` is the byte there.
pub proof fn lemma_stands_byte(buf: Seq<u8>, at: int, b: u8)
    requires
        stands_at(buf, at, seq![b]),
    ensures
        0 <= at < buf.len(),
        buf[at] == b,
{
    assert(buf.subrange(at, at + 1)[0] == b);
}

/// A number that stands at `at` is read back there.
pub proof fn lemma_stands_number(buf: Seq<u8>, at: int, n: nat, width: nat)
    requires
        stands_at(buf, at, le_seq(n, width)),
        n < le_bound(width),
    ensures
        0 <= at,
        at + width <= buf.len(),
        le_value(buf.subrange(at, at + width)) == n,
{
    lemma_le_seq_len(n, width);
    lemma_le_round_trip(n, width);
}

/// The digit of `n` to the base 256 that counts the power `i`.
pub open spec fn digit(n: nat, i: nat) -> u8 {
    (n as int / pow(256, i) % 256) as u8
}

/// `width` bytes with the digits of `n`, the one that counts least first.
pub open spec fn digits(n: nat, width: nat) -> Seq<u8> {
    Seq::new(width, |i: int| digit(n, i as nat))
}

/// A number is written with the digits that count least first.
pub proof fn law_numbers_are_little_endian(n: nat, width: nat)
    ensures
        le_seq(n, width) == digits(n, width),
    decreases width,
{
    if width > 0 {
        let rest = (width - 1) as nat;
        law_numbers_are_little_endian(n / 256, rest);
        assert forall|i: int| 0 <= i < width implies le_seq(n, width)[i] == #[trigger] digit(
            n,
            i as nat,
        ) by {
            if i == 0 {
                lemma_pow0(256);
            } else {
                assert(le_seq(n, width)[i] == le_seq(n / 256, rest)[i - 1]);
                assert(digits(n / 256, rest)[i - 1] == digit(n / 256, (i - 1) as nat));
                lemma_pow_positive(256, (i - 1) as nat);
                lemma_div_denominator(n as int, 256, pow(256, (i - 1) as nat));
                reveal(pow);
            }
        }
        lemma_le_seq_len(n, width);
    }
    assert(le_seq(n, width) =~= digits(n, width));
}

/// One more byte behind the others counts the next power of 256.
pub proof fn law_next_byte_counts_more(s: Seq<u8>, b: u8)
    ensures
        le_value(s.push(b)) == le_value(s) + b * pow(256, s.len()),
        le_value(s) < pow(256, s.len()),
        le_bound(s.len()) == pow(256, s.len()),
    decreases s.len(),
{
    let t = s.push(b);
    if s.len() == 0 {
        lemma_pow0(256);
        assert(t.drop_first() =~= Seq::<u8>::empty());
        assert(le_value(t.drop_first()) == 0);
    } else {
        let rest = s.drop_first();
        law_next_byte_counts_more(rest, b);
        assert(t.drop_first() =~= rest.push(b));
        reveal(pow);
        let p = pow(256, rest.len());
        assert(pow(256, s.len()) == 256 * p);
        assert(256 * (b * p) == b * (256 * p)) by (nonlinear_arith);
    }
}

} // verus!
