//! Text helpers: decimal numbers, trimming and splitting over characters.

use crate::outside::push_char;
use vstd::prelude::*;

verus! {

/// The decimal digit of `d` (for `d < 10`).
pub open spec fn digit_char(d: nat) -> char {
    if d == 0 {
        '0'
    } else if d == 1 {
        '1'
    } else if d == 2 {
        '2'
    } else if d == 3 {
        '3'
    } else if d == 4 {
        '4'
    } else if d == 5 {
        '5'
    } else if d == 6 {
        '6'
    } else if d == 7 {
        '7'
    } else if d == 8 {
        '8'
    } else {
        '9'
    }
}

/// `n` in decimal notation, without leading zeros.
pub open spec fn decimal(n: nat) -> Seq<char>
    decreases n,
{
    if n < 10 {
        seq![digit_char(n)]
    } else {
        decimal(n / 10).push(digit_char(n % 10))
    }
}

/// The number that a decimal digit stands for.
pub open spec fn digit_value(c: char) -> Option<nat> {
    if '0' <= c <= '9' {
        Some((c as nat - '0' as nat) as nat)
    } else {
        None
    }
}

/// The number that a sequence of decimal digits stands for; `None` where a
/// character is not a digit. The empty sequence stands for zero.
pub open spec fn digits_value(s: Seq<char>) -> Option<nat>
    decreases s.len(),
{
    if s.len() == 0 {
        Some(0)
    } else {
        match (digits_value(s.drop_last()), digit_value(s.last())) {
            (Some(v), Some(d)) => Some(10 * v + d),
            _ => None,
        }
    }
}

/// `s` read as an unsigned number: an optional `+`, then at least one
/// decimal digit and nothing else, the value at most `max`.
pub open spec fn unsigned_value(s: Seq<char>, max: nat) -> Option<nat> {
    let digits = if s.len() > 0 && s[0] == '+' {
        s.skip(1)
    } else {
        s
    };
    match digits_value(digits) {
        Some(v) => if digits.len() > 0 && v <= max {
            Some(v)
        } else {
            None
        },
        None => None,
    }
}

/// A number comes back from its decimal notation.
pub proof fn law_decimal_round_trip(n: nat, max: nat)
    requires
        n <= max,
    ensures
        unsigned_value(decimal(n), max) == Some(n),
{
    lemma_decimal_value(n);
}

proof fn lemma_decimal_value(n: nat)
    ensures
        digits_value(decimal(n)) == Some(n),
        decimal(n).len() > 0,
        decimal(n)[0] != '+',
    decreases n,
{
    reveal_with_fuel(digits_value, 2);
    if n < 10 {
        assert(decimal(n).drop_last() =~= Seq::<char>::empty());
    } else {
        lemma_decimal_value(n / 10);
        assert(decimal(n).drop_last() =~= decimal(n / 10));
        assert(decimal(n)[0] == decimal(n / 10)[0]);
    }
}

/// Decimal notation has digits, and only digits.
pub proof fn law_decimal_is_digits(n: nat)
    ensures
        decimal(n).len() > 0,
        forall|i: int| 0 <= i < decimal(n).len() ==> '0' <= #[trigger] decimal(n)[i] <= '9',
    decreases n,
{
    if n >= 10 {
        law_decimal_is_digits(n / 10);
    }
}

/// Appends the digit `d`.
fn push_digit(out: &mut String, d: u64)
    requires
        d < 10,
    ensures
        final(out)@ == old(out)@.push(digit_char(d as nat)),
{
    proof {
        reveal_strlit("0");
        reveal_strlit("1");
        reveal_strlit("2");
        reveal_strlit("3");
        reveal_strlit("4");
        reveal_strlit("5");
        reveal_strlit("6");
        reveal_strlit("7");
        reveal_strlit("8");
        reveal_strlit("9");
    }
    let digit: &str = match d {
        0 => "0",
        1 => "1",
        2 => "2",
        3 => "3",
        4 => "4",
        5 => "5",
        6 => "6",
        7 => "7",
        8 => "8",
        _ => "9",
    };
    assert(digit@ =~= seq![digit_char(d as nat)]);
    out.append(digit);
    assert(out@ =~= old(out)@.push(digit_char(d as nat)));
}

/// Appends `n` in decimal notation.
pub fn push_decimal(out: &mut String, n: u64)
    ensures
        final(out)@ == old(out)@ + decimal(n as nat),
    decreases n,
{
    if n < 10 {
        push_digit(out, n);
        assert(out@ =~= old(out)@ + decimal(n as nat));
    } else {
        push_decimal(out, n / 10);
        push_digit(out, n % 10);
        assert(out@ =~= old(out)@ + decimal(n as nat));
    }
}

/// `prefix` followed by `n` in decimal notation.
pub fn with_decimal(prefix: &str, n: u64) -> (out: String)
    ensures
        out@ == prefix@ + decimal(n as nat),
{
    let mut out: String = prefix.to_owned();
    push_decimal(&mut out, n);
    out
}

/// The characters of `s`.
pub fn chars_of(s: &str) -> (out: Vec<char>)
    ensures
        out@ == s@,
{
    let mut out: Vec<char> = Vec::new();
    for c in it: s.chars()
        invariant
            out@ == s@.take(it.index() as int),
            it.seq() == s@,
    {
        proof {
            assert(s@.take(it.index() as int).push(c) =~= s@.take(it.index() + 1));
        }
        out.push(c);
    }
    assert(s@.take(s@.len() as int) =~= s@);
    out
}

/// One character that is not a digit spoils the whole number.
proof fn lemma_bad_digit(s: Seq<char>, i: int)
    requires
        0 <= i < s.len(),
        digit_value(s[i]) is None,
    ensures
        digits_value(s) is None,
    decreases s.len(),
{
    if i < s.len() - 1 {
        lemma_bad_digit(s.drop_last(), i);
    }
}

/// Why a text is not a number.
#[derive(Debug, Clone, Copy, PartialEq, Eq, Structural)]
pub enum NumberError {
    /// There is no text.
    Empty,
    /// A character is not a digit, or there is no digit.
    InvalidDigit,
    /// The number is greater than the greatest one allowed.
    TooLarge,
}

impl NumberError {
    /// The text shown to a user.
    pub fn message(&self) -> (text: String)
        ensures
            text@ == number_error_text(*self),
    {
        match self {
            NumberError::Empty => "cannot parse integer from empty string".to_owned(),
            NumberError::InvalidDigit => "invalid digit found in string".to_owned(),
            NumberError::TooLarge => "number too large to fit in target type".to_owned(),
        }
    }
}

/// The text that stands for a number error.
pub open spec fn number_error_text(e: NumberError) -> Seq<char> {
    match e {
        NumberError::Empty => "cannot parse integer from empty string"@,
        NumberError::InvalidDigit => "invalid digit found in string"@,
        NumberError::TooLarge => "number too large to fit in target type"@,
    }
}

/// The first fault in the digits from `i` on, when those before stand for
/// `value`.
pub open spec fn digits_fault(s: Seq<char>, i: int, value: nat, max: nat) -> Option<NumberError>
    decreases s.len() - i,
{
    if i >= s.len() {
        None
    } else {
        match digit_value(s[i]) {
            None => Some(NumberError::InvalidDigit),
            Some(d) => if 10 * value + d > max {
                Some(NumberError::TooLarge)
            } else {
                digits_fault(s, i + 1, 10 * value + d, max)
            },
        }
    }
}

/// Why `s` is not an unsigned number of at most `max`, if it is none: the
/// first fault from the left.
pub open spec fn number_fault(s: Seq<char>, max: nat) -> Option<NumberError> {
    let digits = if s.len() > 0 && s[0] == '+' {
        s.skip(1)
    } else {
        s
    };
    if s.len() == 0 {
        Some(NumberError::Empty)
    } else if digits.len() == 0 {
        Some(NumberError::InvalidDigit)
    } else {
        digits_fault(digits, 0, 0, max)
    }
}

/// A text is an unsigned number or has a fault, and not both.
pub proof fn law_number_or_fault(s: Seq<char>, max: nat)
    ensures
        number_fault(s, max) is None <==> unsigned_value(s, max) is Some,
{
    let digits = if s.len() > 0 && s[0] == '+' {
        s.skip(1)
    } else {
        s
    };
    assert(digits.take(0) =~= Seq::<char>::empty());
    lemma_digits_fault(digits, 0, 0, max);
}

proof fn lemma_digits_fault(s: Seq<char>, i: int, value: nat, max: nat)
    requires
        0 <= i <= s.len(),
        value <= max,
        digits_value(s.take(i)) == Some(value),
    ensures
        digits_fault(s, i, value, max) is None <==> (digits_value(s) matches Some(v) && v <= max),
    decreases s.len() - i,
{
    if i == s.len() {
        assert(s.take(i) =~= s);
    } else {
        let now = s.take(i + 1);
        assert(now.drop_last() =~= s.take(i));
        assert(now.last() == s[i]);
        match digit_value(s[i]) {
            None => {
                lemma_bad_digit(s, i);
            },
            Some(d) => if 10 * value + d > max {
                if digits_value(s) is Some {
                    lemma_digits_prefix(s, i + 1);
                }
            } else {
                lemma_digits_fault(s, i + 1, 10 * value + d, max);
            },
        }
    }
}

/// The first digits of a number stand for no more than all of them.
proof fn lemma_digits_prefix(s: Seq<char>, k: int)
    requires
        0 <= k <= s.len(),
        digits_value(s) is Some,
    ensures
        digits_value(s.take(k)) is Some,
        digits_value(s.take(k))->0 <= digits_value(s)->0,
    decreases s.len(),
{
    if k == s.len() {
        assert(s.take(k) =~= s);
    } else {
        assert(s.drop_last().take(k) =~= s.take(k));
        lemma_digits_prefix(s.drop_last(), k);
    }
}

/// `s` read as an unsigned number of at most `max`, with the reason where it
/// is none.
pub fn parse_number(s: &Vec<char>, max: u64) -> (r: core::result::Result<u64, NumberError>)
    ensures
        match r {
            Ok(v) => number_fault(s@, max as nat) is None && unsigned_value(s@, max as nat) == Some(
                v as nat,
            ),
            Err(e) => number_fault(s@, max as nat) == Some(e) && unsigned_value(
                s@,
                max as nat,
            ) is None,
        },
{
    proof {
        law_number_or_fault(s@, max as nat);
    }
    let n: usize = s.len();
    if n == 0 {
        return Err(NumberError::Empty);
    }
    let from: usize = if s[0] == '+' {
        1
    } else {
        0
    };
    if from == n {
        return Err(NumberError::InvalidDigit);
    }
    let ghost all = s@.skip(from as int);
    proof {
        if from == 0 {
            assert(all =~= s@);
        }
        assert(all.take(0) =~= Seq::<char>::empty());
    }
    let mut value: u64 = 0;
    let mut i: usize = from;
    while i < n
        invariant
            from <= i <= n,
            n == s@.len(),
            all == s@.skip(from as int),
            value <= max,
            digits_value(all.take(i - from)) == Some(value as nat),
            number_fault(s@, max as nat) is None <==> unsigned_value(s@, max as nat) is Some,
            number_fault(s@, max as nat) == digits_fault(
                all,
                i - from,
                value as nat,
                max as nat,
            ),
        decreases n - i,
    {
        let c: char = s[i];
        proof {
            let now = all.take(i - from + 1);
            assert(now.drop_last() =~= all.take(i - from));
            assert(now.last() == c);
        }
        if c < '0' || c > '9' {
            return Err(NumberError::InvalidDigit);
        }
        let d: u64 = (c as u32 - '0' as u32) as u64;
        if value > max / 10 || (value == max / 10 && d > max % 10) {
            return Err(NumberError::TooLarge);
        }
        value = value * 10 + d;
        i = i + 1;
    }
    assert(all.take(n - from) =~= all);
    Ok(value)
}

/// Appends characters to a text.
pub fn push_chars(out: &mut String, s: &Vec<char>)
    ensures
        final(out)@ == old(out)@ + s@,
{
    let n: usize = s.len();
    let mut i: usize = 0;
    assert(out@ =~= old(out)@ + s@.take(0));
    while i < n
        invariant
            i <= n,
            n == s@.len(),
            out@ == old(out)@ + s@.take(i as int),
        decreases n - i,
    {
        push_char(out, s[i]);
        i = i + 1;
        assert(out@ =~= old(out)@ + s@.take(i as int));
    }
    assert(s@.take(n as int) =~= s@);
}

/// A character with the Unicode property `White_Space`.
pub open spec fn is_space(c: char) -> bool {
    ||| '\u{9}' <= c <= '\u{d}'
    ||| c == '\u{20}'
    ||| c == '\u{85}'
    ||| c == '\u{a0}'
    ||| c == '\u{1680}'
    ||| '\u{2000}' <= c <= '\u{200a}'
    ||| c == '\u{2028}'
    ||| c == '\u{2029}'
    ||| c == '\u{202f}'
    ||| c == '\u{205f}'
    ||| c == '\u{3000}'
}

fn space(c: char) -> (r: bool)
    ensures
        r == is_space(c),
{
    ('\u{9}' <= c && c <= '\u{d}') || c == '\u{20}' || c == '\u{85}' || c == '\u{a0}' || c
        == '\u{1680}' || ('\u{2000}' <= c && c <= '\u{200a}') || c == '\u{2028}' || c == '\u{2029}'
        || c == '\u{202f}' || c == '\u{205f}' || c == '\u{3000}'
}

/// `s` without white space at its end.
pub open spec fn trimmed_end(s: Seq<char>) -> Seq<char>
    decreases s.len(),
{
    if s.len() > 0 && is_space(s.last()) {
        trimmed_end(s.drop_last())
    } else {
        s
    }
}

/// `s` without white space at its start.
pub open spec fn trimmed_start(s: Seq<char>) -> Seq<char>
    decreases s.len(),
{
    if s.len() > 0 && is_space(s[0]) {
        trimmed_start(s.skip(1))
    } else {
        s
    }
}

/// `s` without white space at both ends.
pub open spec fn trimmed(s: Seq<char>) -> Seq<char> {
    trimmed_end(trimmed_start(s))
}

/// `s` without white space at both ends.
pub fn trim(s: &Vec<char>) -> (r: Vec<char>)
    ensures
        r@ == trimmed(s@),
{
    let n: usize = s.len();
    let mut from: usize = 0;
    assert(s@.skip(0) =~= s@);
    while from < n && space(s[from])
        invariant
            from <= n,
            n == s@.len(),
            trimmed_start(s@) == trimmed_start(s@.skip(from as int)),
        decreases n - from,
    {
        assert(s@.skip(from as int).skip(1) =~= s@.skip(from + 1));
        from = from + 1;
    }
    let ghost rest = s@.skip(from as int);
    assert(trimmed_start(s@) == rest);
    let mut to: usize = n;
    assert(s@.subrange(from as int, n as int) =~= rest);
    while to > from && space(s[to - 1])
        invariant
            from <= to <= n,
            n == s@.len(),
            trimmed_end(rest) == trimmed_end(s@.subrange(from as int, to as int)),
        decreases to,
    {
        assert(s@.subrange(from as int, to as int).drop_last() =~= s@.subrange(
            from as int,
            to - 1,
        ));
        to = to - 1;
    }
    vstd::slice::slice_to_vec(vstd::slice::slice_subrange(s.as_slice(), from, to))
}

/// The parts of `s` between separators; there is one more than separators.
pub open spec fn parts_of(s: Seq<char>, sep: char) -> Seq<Seq<char>>
    decreases s.len(),
{
    if s.len() == 0 {
        seq![s]
    } else {
        let init = parts_of(s.drop_last(), sep);
        if s.last() == sep {
            init.push(Seq::empty())
        } else {
            init.drop_last().push(init.last().push(s.last()))
        }
    }
}

/// Texts as sequences of characters.
pub open spec fn texts_of(v: Seq<Vec<char>>) -> Seq<Seq<char>> {
    Seq::new(v.len(), |i: int| v[i]@)
}

/// Splits `s` at every separator.
pub fn split(s: &Vec<char>, sep: char) -> (out: Vec<Vec<char>>)
    ensures
        texts_of(out@) == parts_of(s@, sep),
        out@.len() > 0,
{
    let n: usize = s.len();
    let mut out: Vec<Vec<char>> = Vec::new();
    let mut cur: Vec<char> = Vec::new();
    let mut i: usize = 0;
    assert(s@.take(0) =~= Seq::<char>::empty());
    assert(texts_of(out@).push(cur@) =~= parts_of(s@.take(0), sep));
    while i < n
        invariant
            i <= n,
            n == s@.len(),
            texts_of(out@).push(cur@) == parts_of(s@.take(i as int), sep),
        decreases n - i,
    {
        let c: char = s[i];
        let ghost before = texts_of(out@);
        let ghost part = cur@;
        proof {
            let now = s@.take(i + 1);
            assert(now.drop_last() =~= s@.take(i as int));
            assert(before.push(part).drop_last() =~= before);
        }
        if c == sep {
            out.push(cur);
            cur = Vec::new();
            assert(texts_of(out@) =~= before.push(part));
            assert(cur@ =~= Seq::<char>::empty());
        } else {
            cur.push(c);
        }
        i = i + 1;
        assert(texts_of(out@).push(cur@) =~= parts_of(s@.take(i as int), sep));
    }
    let ghost before = texts_of(out@);
    let ghost part = cur@;
    out.push(cur);
    assert(texts_of(out@) =~= before.push(part));
    assert(s@.take(n as int) =~= s@);
    out
}

/// The position of the first `c` in `s`, from `i` on.
pub open spec fn first_at(s: Seq<char>, c: char, i: int) -> Option<int>
    decreases s.len() - i,
{
    if i >= s.len() {
        None
    } else if s[i] == c {
        Some(i)
    } else {
        first_at(s, c, i + 1)
    }
}

/// The position of the first `c` in `s`.
pub fn find(s: &Vec<char>, c: char) -> (r: Option<usize>)
    ensures
        match r {
            Some(i) => first_at(s@, c, 0) == Some(i as int) && i < s@.len(),
            None => first_at(s@, c, 0) is None,
        },
{
    let n: usize = s.len();
    let mut i: usize = 0;
    while i < n
        invariant
            i <= n,
            n == s@.len(),
            first_at(s@, c, 0) == first_at(s@, c, i as int),
        decreases n - i,
    {
        if s[i] == c {
            return Some(i);
        }
        i = i + 1;
    }
    None
}

/// Whether `s` starts with `prefix`.
pub open spec fn starts(s: Seq<char>, prefix: Seq<char>) -> bool {
    prefix.len() <= s.len() && s.take(prefix.len() as int) == prefix
}

/// Whether `s` ends with `suffix`.
pub open spec fn ends(s: Seq<char>, suffix: Seq<char>) -> bool {
    suffix.len() <= s.len() && s.skip(s.len() - suffix.len()) == suffix
}

/// Whether `s` holds `part` at `at`.
fn has_at(s: &Vec<char>, at: usize, part: &Vec<char>) -> (r: bool)
    requires
        at + part@.len() <= s@.len(),
    ensures
        r == (s@.subrange(at as int, at + part@.len()) == part@),
{
    let n: usize = part.len();
    let end: usize = s.len();
    let mut i: usize = 0;
    while i < n
        invariant
            i <= n,
            n == part@.len(),
            end == s@.len(),
            at + n <= end,
            forall|j: int| 0 <= j < i ==> s@[at + j] == part@[j],
        decreases n - i,
    {
        if s[at + i] != part[i] {
            assert(s@.subrange(at as int, at + n)[i as int] != part@[i as int]);
            return false;
        }
        i = i + 1;
    }
    assert(s@.subrange(at as int, at + n) =~= part@);
    true
}

/// Whether `s` starts with `prefix`.
pub fn starts_with(s: &Vec<char>, prefix: &Vec<char>) -> (r: bool)
    ensures
        r == starts(s@, prefix@),
{
    if prefix.len() > s.len() {
        return false;
    }
    assert(s@.subrange(0, prefix@.len() as int) =~= s@.take(prefix@.len() as int));
    has_at(s, 0, prefix)
}

/// `s` without the suffix, as often as it ends with it.
pub open spec fn without_suffix(s: Seq<char>, suffix: Seq<char>) -> Seq<char>
    decreases s.len(),
{
    if suffix.len() > 0 && ends(s, suffix) {
        without_suffix(s.take(s.len() - suffix.len()), suffix)
    } else {
        s
    }
}

/// `s` without the suffix, as often as it ends with it.
pub fn trim_suffix(s: &Vec<char>, suffix: &Vec<char>) -> (r: Vec<char>)
    ensures
        r@ == without_suffix(s@, suffix@),
{
    let k: usize = suffix.len();
    let total: usize = s.len();
    let mut n: usize = total;
    assert(s@.take(n as int) =~= s@);
    while k > 0 && k <= n && has_at(s, n - k, suffix)
        invariant
            n <= total,
            total == s@.len(),
            k == suffix@.len(),
            without_suffix(s@, suffix@) == without_suffix(s@.take(n as int), suffix@),
        decreases n,
    {
        proof {
            let cur = s@.take(n as int);
            assert(cur.skip(n - k) =~= s@.subrange(n - k, n as int));
            assert(cur.take(n - k) =~= s@.take(n - k));
        }
        n = n - k;
    }
    proof {
        let cur = s@.take(n as int);
        if k > 0 && k <= n {
            assert(cur.skip(n - k) =~= s@.subrange(n - k, n as int));
        }
        assert(s@.subrange(0, n as int) =~= cur);
    }
    vstd::slice::slice_to_vec(vstd::slice::slice_subrange(s.as_slice(), 0, n))
}

// ---- laws -----------------------------------------------------------------------

/// One more digit behind a number counts ones and makes the others count
/// tenfold, both when it is written and when it is read; and a number of one
/// digit is that digit.
pub proof fn law_digits_count_tenfold(n: nat, d: nat, s: Seq<char>)
    requires
        d < 10,
    ensures
        n > 0 ==> decimal(10 * n + d) == decimal(n).push((48 + d) as char),
        decimal(d) == seq![(48 + d) as char],
        digits_value(Seq::empty()) == Some(0nat),
        digits_value(s) matches Some(v) ==> digits_value(s.push((48 + d) as char)) == Some(
            10 * v + d,
        ),
{
    assert(s.push((48 + d) as char).drop_last() =~= s);
}

/// A text is read as a number exactly if it has digits, and only digits, and
/// stands for no more than the greatest number; a plus before it does not
/// count.
pub proof fn law_numbers_are_digits(s: Seq<char>, max: nat)
    requires
        s.len() > 0 ==> s[0] != '+',
    ensures
        unsigned_value(s, max) is Some <==> s.len() > 0 && (forall|i: int|
            0 <= i < s.len() ==> '0' <= #[trigger] s[i] <= '9') && digits_value(s)->0 <= max,
        unsigned_value(s, max) matches Some(v) ==> digits_value(s) == Some(v),
        unsigned_value(seq!['+'] + s, max) == unsigned_value(s, max),
{
    assert((seq!['+'] + s).skip(1) =~= s);
    lemma_all_digits(s);
    if !(forall|i: int| 0 <= i < s.len() ==> '0' <= #[trigger] s[i] <= '9') {
        let i = choose|i: int| 0 <= i < s.len() && !('0' <= #[trigger] s[i] <= '9');
        lemma_bad_digit(s, i);
    }
}

proof fn lemma_all_digits(s: Seq<char>)
    ensures
        (forall|i: int| 0 <= i < s.len() ==> '0' <= #[trigger] s[i] <= '9') ==> digits_value(
            s,
        ) is Some,
    decreases s.len(),
{
    if s.len() > 0 {
        let init = s.drop_last();
        lemma_all_digits(init);
        if forall|i: int| 0 <= i < s.len() ==> '0' <= #[trigger] s[i] <= '9' {
            assert forall|i: int| 0 <= i < init.len() implies '0' <= #[trigger] init[i] <= '9' by {
                assert(init[i] == s[i]);
            }
            assert('0' <= s[s.len() - 1] <= '9');
        }
    }
}

/// Why a text is no number: it is empty; a character is no digit, and what
/// stands before it is not too large; or there are only digits, and these
/// are too large.
pub proof fn law_number_faults(s: Seq<char>, max: nat, i: int)
    requires
        s.len() > 0 ==> s[0] != '+',
    ensures
        s.len() == 0 ==> number_fault(s, max) == Some(NumberError::Empty),
        number_fault(seq!['+'], max) == Some(NumberError::InvalidDigit),
        0 <= i < s.len() && !('0' <= s[i] <= '9') && (digits_value(s.take(i)) matches Some(v)
            && v <= max) ==> number_fault(s, max) == Some(NumberError::InvalidDigit),
        s.len() > 0 && (digits_value(s) matches Some(v) && v > max) ==> number_fault(s, max)
            == Some(NumberError::TooLarge),
{
    assert(s.take(0) =~= Seq::<char>::empty());
    assert(seq!['+'].skip(1) =~= Seq::<char>::empty());
    if 0 <= i < s.len() && !('0' <= s[i] <= '9') {
        if let Some(v) = digits_value(s.take(i)) {
            if v <= max {
                lemma_fault_at(s, 0, 0, max, i);
            }
        }
    }
    if s.len() > 0 {
        if let Some(v) = digits_value(s) {
            if v > max {
                lemma_too_large(s, 0, 0, max);
            }
        }
    }
}

proof fn lemma_fault_at(s: Seq<char>, from: int, value: nat, max: nat, i: int)
    requires
        0 <= from <= i < s.len(),
        digits_value(s.take(from)) == Some(value),
        digits_value(s.take(i)) is Some,
        digits_value(s.take(i))->0 <= max,
        digit_value(s[i]) is None,
    ensures
        digits_fault(s, from, value, max) == Some(NumberError::InvalidDigit),
    decreases i - from,
{
    if from < i {
        let now = s.take(from + 1);
        assert(now.drop_last() =~= s.take(from));
        assert(now.last() == s[from]);
        lemma_digits_prefix(s.take(i), from + 1);
        assert(s.take(i).take(from + 1) =~= now);
        lemma_fault_at(s, from + 1, 10 * value + digit_value(s[from])->0, max, i);
    }
}

proof fn lemma_too_large(s: Seq<char>, from: int, value: nat, max: nat)
    requires
        0 <= from <= s.len(),
        digits_value(s.take(from)) == Some(value),
        value <= max,
        digits_value(s) is Some,
        digits_value(s)->0 > max,
    ensures
        digits_fault(s, from, value, max) == Some(NumberError::TooLarge),
    decreases s.len() - from,
{
    if from == s.len() {
        assert(s.take(from) =~= s);
    } else {
        let now = s.take(from + 1);
        assert(now.drop_last() =~= s.take(from));
        assert(now.last() == s[from]);
        lemma_digits_prefix(s, from + 1);
        let d = digit_value(s[from])->0;
        if 10 * value + d <= max {
            lemma_too_large(s, from + 1, 10 * value + d, max);
        }
    }
}

/// White space among the ASCII characters: the space, and the characters from
/// tab to carriage return.
pub proof fn law_ascii_spaces(c: char)
    requires
        c < '\u{80}',
    ensures
        is_space(c) <==> c == ' ' || '\t' <= c <= '\r',
{
}

/// Trimming leaves the part between white space at both ends: what goes is
/// all white space, and what stays neither starts nor ends with any.
pub proof fn law_trimmed_part(s: Seq<char>) -> (range: (int, int))
    ensures
        ({
            let (from, to) = range;
            &&& 0 <= from <= to <= s.len()
            &&& trimmed(s) == s.subrange(from, to)
            &&& forall|i: int| 0 <= i < from ==> is_space(#[trigger] s[i])
            &&& forall|i: int| to <= i < s.len() ==> is_space(#[trigger] s[i])
            &&& from < to ==> !is_space(s[from]) && !is_space(s[to - 1])
        }),
{
    let from = lemma_trimmed_start(s);
    let rest = s.skip(from);
    let len = lemma_trimmed_end(rest);
    let to = from + len;
    assert(rest.take(len) =~= s.subrange(from, to));
    assert forall|i: int| to <= i < s.len() implies is_space(#[trigger] s[i]) by {
        assert(rest[i - from] == s[i]);
    }
    if from < to {
        assert(rest[0] == s[from] && rest[len - 1] == s[to - 1]);
    }
    (from, to)
}

proof fn lemma_trimmed_start(s: Seq<char>) -> (from: int)
    ensures
        0 <= from <= s.len(),
        trimmed_start(s) == s.skip(from),
        forall|i: int| 0 <= i < from ==> is_space(#[trigger] s[i]),
        from < s.len() ==> !is_space(s[from]),
    decreases s.len(),
{
    if s.len() > 0 && is_space(s[0]) {
        let rest = s.skip(1);
        let k = lemma_trimmed_start(rest);
        assert(rest.skip(k) =~= s.skip(k + 1));
        assert forall|i: int| 0 <= i < k + 1 implies is_space(#[trigger] s[i]) by {
            if i > 0 {
                assert(rest[i - 1] == s[i]);
            }
        }
        k + 1
    } else {
        assert(s.skip(0) =~= s);
        0
    }
}

proof fn lemma_trimmed_end(s: Seq<char>) -> (to: int)
    ensures
        0 <= to <= s.len(),
        trimmed_end(s) == s.take(to),
        forall|i: int| to <= i < s.len() ==> is_space(#[trigger] s[i]),
        to > 0 ==> !is_space(s[to - 1]),
    decreases s.len(),
{
    if s.len() > 0 && is_space(s.last()) {
        let init = s.drop_last();
        let k = lemma_trimmed_end(init);
        assert(init.take(k) =~= s.take(k));
        assert forall|i: int| k <= i < s.len() implies is_space(#[trigger] s[i]) by {
            if i < init.len() {
                assert(init[i] == s[i]);
            }
        }
        k
    } else {
        assert(s.take(s.len() as int) =~= s);
        s.len() as int
    }
}

/// White space around a text that neither starts nor ends with any is what
/// trimming takes away.
pub proof fn law_spaces_are_trimmed(a: Seq<char>, t: Seq<char>, b: Seq<char>)
    requires
        forall|i: int| 0 <= i < a.len() ==> is_space(#[trigger] a[i]),
        forall|i: int| 0 <= i < b.len() ==> is_space(#[trigger] b[i]),
        t.len() > 0,
        !is_space(t[0]),
        !is_space(t[t.len() - 1]),
    ensures
        trimmed(a + t + b) == t,
{
    let s = a + t + b;
    let (from, to) = law_trimmed_part(s);
    let n = a.len() as int;
    let m = n + t.len();
    assert(s[n] == t[0] && s[m - 1] == t[t.len() - 1]);
    assert(from <= n && m <= to);
    if from < n {
        assert(s[from] == a[from]);
    }
    if m < to {
        assert(s[to - 1] == b[to - 1 - m]);
    }
    assert(s.subrange(n, m) =~= t);
}

/// Parts with a separator between each two.
pub open spec fn joined_with(parts: Seq<Seq<char>>, sep: char) -> Seq<char>
    decreases parts.len(),
{
    if parts.len() == 0 {
        Seq::empty()
    } else if parts.len() == 1 {
        parts[0]
    } else {
        joined_with(parts.drop_last(), sep) + seq![sep] + parts.last()
    }
}

/// No part holds the separator.
pub open spec fn none_holds(parts: Seq<Seq<char>>, sep: char) -> bool {
    forall|i: int, j: int|
        0 <= i < parts.len() && 0 <= j < parts[i].len() ==> #[trigger] parts[i][j] != sep
}

/// Splitting takes a text apart at every separator: the parts hold none, and
/// with separators between them they are the text.
pub proof fn law_split_parts(s: Seq<char>, sep: char)
    ensures
        parts_of(s, sep).len() > 0,
        none_holds(parts_of(s, sep), sep),
        joined_with(parts_of(s, sep), sep) == s,
    decreases s.len(),
{
    reveal_with_fuel(joined_with, 2);
    let parts = parts_of(s, sep);
    if s.len() == 0 {
        assert(parts[0] == s);
    } else {
        let init = s.drop_last();
        law_split_parts(init, sep);
        let before = parts_of(init, sep);
        if s.last() == sep {
            assert(parts.drop_last() =~= before);
            assert(joined_with(parts, sep) =~= s);
        } else {
            let head = before.drop_last();
            assert(parts.drop_last() =~= head);
            assert forall|i: int, j: int|
                0 <= i < parts.len() && 0 <= j < parts[i].len() implies #[trigger] parts[i][j]
                != sep by {
                if i < head.len() {
                    assert(before[i][j] != sep);
                } else if j < before.last().len() {
                    assert(before[before.len() - 1][j] != sep);
                }
            }
            let grown = before.last().push(s.last());
            assert(parts.last() == grown);
            if head.len() == 0 {
                assert(joined_with(before, sep) == before[0]);
                assert(joined_with(parts, sep) == grown);
            } else {
                let front = joined_with(head, sep) + seq![sep];
                assert(joined_with(before, sep) == front + before.last());
                assert(joined_with(parts, sep) == front + grown);
                assert(front + grown =~= (front + before.last()).push(s.last()));
            }
            assert(init.push(s.last()) =~= s);
        }
    }
}

/// Parts that hold no separator come back when their text is split.
pub proof fn law_joined_parts_come_back(parts: Seq<Seq<char>>, sep: char)
    requires
        parts.len() > 0,
        none_holds(parts, sep),
    ensures
        parts_of(joined_with(parts, sep), sep) == parts,
    decreases parts.len(),
{
    let last = parts.last();
    assert forall|j: int| 0 <= j < last.len() implies #[trigger] last[j] != sep by {
        assert(parts[parts.len() - 1][j] != sep);
    }
    if parts.len() == 1 {
        let none = Seq::<char>::empty();
        assert(parts_of(none, sep) =~= seq![none]);
        assert(none + last =~= last);
        lemma_more_of_the_last(none, last, sep);
        assert(seq![none].drop_last().push(none + last) =~= parts);
    } else {
        let init = parts.drop_last();
        assert forall|i: int, j: int|
            0 <= i < init.len() && 0 <= j < init[i].len() implies #[trigger] init[i][j] != sep by {
            assert(parts[i][j] != sep);
        }
        law_joined_parts_come_back(init, sep);
        let before = joined_with(init, sep);
        let cut = before + seq![sep];
        assert(cut.drop_last() =~= before);
        assert(parts_of(cut, sep) == init.push(Seq::empty()));
        lemma_more_of_the_last(cut, last, sep);
        let grown = init.push(Seq::<char>::empty());
        assert(grown.drop_last() =~= init);
        assert(grown.last() + last =~= last);
        assert(init.push(last) =~= parts);
    }
}

proof fn lemma_more_of_the_last(s: Seq<char>, t: Seq<char>, sep: char)
    requires
        forall|j: int| 0 <= j < t.len() ==> #[trigger] t[j] != sep,
    ensures
        parts_of(s + t, sep) == parts_of(s, sep).drop_last().push(parts_of(s, sep).last() + t),
    decreases t.len(),
{
    law_split_parts(s, sep);
    let before = parts_of(s, sep);
    if t.len() == 0 {
        assert(s + t =~= s);
        assert(before.last() + t =~= before.last());
        assert(before.drop_last().push(before.last()) =~= before);
    } else {
        let init = t.drop_last();
        assert forall|j: int| 0 <= j < init.len() implies #[trigger] init[j] != sep by {
            assert(t[j] != sep);
        }
        lemma_more_of_the_last(s, init, sep);
        assert((s + t).drop_last() =~= s + init);
        assert(t[t.len() - 1] != sep);
        assert((before.last() + init).push(t.last()) =~= before.last() + t);
        let now = before.drop_last().push(before.last() + init);
        assert(now.drop_last() =~= before.drop_last());
    }
}

/// The first place of a character: there it stands, and nowhere before; it
/// has none exactly if it does not occur.
pub proof fn law_first_place(s: Seq<char>, c: char, i: int)
    requires
        0 <= i,
    ensures
        match first_at(s, c, i) {
            Some(k) => i <= k < s.len() && s[k] == c && forall|j: int|
                i <= j < k ==> #[trigger] s[j] != c,
            None => forall|j: int| i <= j < s.len() ==> #[trigger] s[j] != c,
        },
    decreases s.len() - i,
{
    if i < s.len() {
        law_first_place(s, c, i + 1);
    }
}

/// A text starts with another, or ends with it, exactly if it is that text
/// and something behind it, or before it.
pub proof fn law_starts_and_ends(s: Seq<char>, part: Seq<char>)
    ensures
        starts(s, part) <==> exists|rest: Seq<char>| s == #[trigger] (part + rest),
        ends(s, part) <==> exists|rest: Seq<char>| s == #[trigger] (rest + part),
{
    if starts(s, part) {
        assert(s =~= part + s.skip(part.len() as int));
    }
    if exists|rest: Seq<char>| s == #[trigger] (part + rest) {
        let rest = choose|rest: Seq<char>| s == #[trigger] (part + rest);
        assert((part + rest).take(part.len() as int) =~= part);
    }
    if ends(s, part) {
        assert(s =~= s.take(s.len() - part.len()) + part);
    }
    if exists|rest: Seq<char>| s == #[trigger] (rest + part) {
        let rest = choose|rest: Seq<char>| s == #[trigger] (rest + part);
        assert((rest + part).skip(rest.len() as int) =~= part);
    }
}

/// Suffixes are taken away until there is none left, and nothing else is: one
/// more of them makes no difference.
pub proof fn law_suffixes_go(s: Seq<char>, suffix: Seq<char>)
    requires
        suffix.len() > 0,
    ensures
        without_suffix(s + suffix, suffix) == without_suffix(s, suffix),
        !ends(s, suffix) ==> without_suffix(s, suffix) == s,
        !ends(without_suffix(s, suffix), suffix),
    decreases s.len(),
{
    assert((s + suffix).skip(s.len() as int) =~= suffix);
    assert((s + suffix).take(s.len() as int) =~= s);
    if ends(s, suffix) {
        law_suffixes_go(s.take(s.len() - suffix.len()), suffix);
    }
}

} // verus!
