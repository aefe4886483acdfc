//! What the command line and the tile server decide from text: zoom levels,
//! input formats, tile addresses, and how sizes are shown.

use crate::encoder::LevelSpec;
use crate::text::{
    chars_of, decimal, find, first_at, number_error_text, number_fault, parse_number, parts_of,
    push_chars, push_decimal, split, starts, starts_with, texts_of, trim, trim_suffix, trimmed,
    unsigned_value, without_suffix, with_decimal, NumberError,
};
use crate::text::{
    ends, is_space, joined_with, law_decimal_is_digits, law_decimal_round_trip, law_first_place,
    law_joined_parts_come_back, law_number_or_fault, law_spaces_are_trimmed, law_starts_and_ends,
    law_suffixes_go, law_trimmed_part,
};
use vstd::arithmetic::div_mod::lemma_mod_multiples_basic;
use vstd::arithmetic::power2::{
    lemma2_to64, lemma_pow2_pos, lemma_pow2_strictly_increases, lemma_pow2_unfold, pow2,
};
use vstd::prelude::*;

verus! {

/// Why a list of levels cannot be read.
#[derive(Debug, Clone, PartialEq)]
pub enum LevelsError {
    /// A part has no dash.
    NoRange(String),
    /// A zoom is not a number.
    Zoom(NumberError),
}

/// A levels error as a mathematical value.
pub enum LevelsFault {
    NoRange(Seq<char>),
    Zoom(NumberError),
}

impl View for LevelsError {
    type V = LevelsFault;

    open spec fn view(&self) -> LevelsFault {
        match self {
            LevelsError::NoRange(part) => LevelsFault::NoRange(part@),
            LevelsError::Zoom(e) => LevelsFault::Zoom(*e),
        }
    }
}

impl LevelsError {
    /// The text shown to a user.
    pub fn message(&self) -> (text: String)
        ensures
            text@ == match self@ {
                LevelsFault::NoRange(part) => "invalid level spec: "@ + part,
                LevelsFault::Zoom(e) => number_error_text(e),
            },
    {
        match self {
            LevelsError::NoRange(part) => {
                let mut text: String = "invalid level spec: ".to_owned();
                text.append(part.as_str());
                text
            },
            LevelsError::Zoom(e) => e.message(),
        }
    }
}

/// The level that one part of a list names: two zooms with a dash between
/// them, white space around the part not counted.
pub open spec fn level_of(part: Seq<char>) -> core::result::Result<LevelSpec, LevelsFault> {
    let t = trimmed(part);
    match first_at(t, '-', 0) {
        None => Err(LevelsFault::NoRange(part)),
        Some(i) => {
            let low = t.take(i);
            let high = t.skip(i + 1);
            match (number_fault(low, 255), number_fault(high, 255)) {
                (Some(e), _) => Err(LevelsFault::Zoom(e)),
                (None, Some(e)) => Err(LevelsFault::Zoom(e)),
                (None, None) => Ok(
                    LevelSpec {
                        min_zoom: unsigned_value(low, 255)->0 as u8,
                        max_zoom: unsigned_value(high, 255)->0 as u8,
                    },
                ),
            }
        },
    }
}

/// The levels that the parts from `i` on name.
pub open spec fn levels_of(parts: Seq<Seq<char>>, i: int) -> core::result::Result<
    Seq<LevelSpec>,
    LevelsFault,
>
    decreases parts.len() - i,
{
    if i >= parts.len() {
        Ok(Seq::empty())
    } else {
        match level_of(parts[i]) {
            Err(f) => Err(f),
            Ok(l) => match levels_of(parts, i + 1) {
                Err(f) => Err(f),
                Ok(rest) => Ok(seq![l] + rest),
            },
        }
    }
}

fn parse_level(part: &Vec<char>) -> (r: core::result::Result<LevelSpec, LevelsError>)
    ensures
        match r {
            Ok(l) => level_of(part@) == core::result::Result::<LevelSpec, LevelsFault>::Ok(l),
            Err(e) => level_of(part@) == core::result::Result::<LevelSpec, LevelsFault>::Err(e@),
        },
{
    let t: Vec<char> = trim(part);
    match find(&t, '-') {
        None => {
            let mut text: String = String::new();
            push_chars(&mut text, part);
            assert(text@ =~= part@);
            Err(LevelsError::NoRange(text))
        },
        Some(i) => {
            let end: usize = t.len();
            let low: Vec<char> = vstd::slice::slice_to_vec(
                vstd::slice::slice_subrange(t.as_slice(), 0, i),
            );
            let high: Vec<char> = vstd::slice::slice_to_vec(
                vstd::slice::slice_subrange(t.as_slice(), i + 1, end),
            );
            assert(low@ =~= t@.take(i as int));
            assert(high@ =~= t@.skip(i + 1));
            let min_zoom: u64 = match parse_number(&low, 255) {
                Ok(n) => n,
                Err(e) => {
                    return Err(LevelsError::Zoom(e));
                },
            };
            let max_zoom: u64 = match parse_number(&high, 255) {
                Ok(n) => n,
                Err(e) => {
                    return Err(LevelsError::Zoom(e));
                },
            };
            Ok(LevelSpec { min_zoom: min_zoom as u8, max_zoom: max_zoom as u8 })
        },
    }
}

/// Reads overview zoom levels, e.g. "0-4,5-8,9-11".
pub fn parse_levels(s: &str) -> (r: core::result::Result<Vec<LevelSpec>, LevelsError>)
    ensures
        match r {
            Ok(v) => levels_of(parts_of(s@, ','), 0) == core::result::Result::<
                Seq<LevelSpec>,
                LevelsFault,
            >::Ok(v@),
            Err(e) => levels_of(parts_of(s@, ','), 0) == core::result::Result::<
                Seq<LevelSpec>,
                LevelsFault,
            >::Err(e@),
        },
{
    let parts: Vec<Vec<char>> = split(&chars_of(s), ',');
    let ghost all = texts_of(parts@);
    let ghost whole = levels_of(all, 0);
    let n: usize = parts.len();
    let mut levels: Vec<LevelSpec> = Vec::new();
    let mut i: usize = 0;
    proof {
        if whole is Ok {
            assert(levels@ + whole->Ok_0 =~= whole->Ok_0);
        }
    }
    while i < n
        invariant
            i <= n,
            n == parts@.len(),
            all == texts_of(parts@),
            all == parts_of(s@, ','),
            whole == levels_of(all, 0),
            match whole {
                Ok(v) => levels_of(all, i as int) matches Ok(rest) && v == levels@ + rest,
                Err(f) => levels_of(all, i as int) == core::result::Result::<
                    Seq<LevelSpec>,
                    LevelsFault,
                >::Err(f),
            },
        decreases n - i,
    {
        assert(all[i as int] == parts@[i as int]@);
        let l: LevelSpec = match parse_level(&parts[i]) {
            Ok(l) => l,
            Err(e) => {
                return Err(e);
            },
        };
        let ghost before = levels@;
        levels.push(l);
        i = i + 1;
        proof {
            if whole is Ok {
                let rest = levels_of(all, i as int)->Ok_0;
                assert(before + (seq![l] + rest) =~= levels@ + rest);
            }
        }
    }
    assert(levels@ + Seq::<LevelSpec>::empty() =~= levels@);
    Ok(levels)
}

// ---- sizes ------------------------------------------------------------------

/// `n / d` rounded to the nearest integer, halves to the even one.
pub open spec fn rounded(n: nat, d: nat) -> nat {
    let q = n / d;
    let r = n % d;
    if 2 * r > d || (2 * r == d && q % 2 == 1) {
        q + 1
    } else {
        q
    }
}

/// The distance between neighbouring double-precision numbers around `n`: the
/// least of `step`, `2 * step`, ... that leaves a significand of 53 bits.
pub open spec fn double_step(n: nat, step: nat) -> nat
    decreases n - step,
{
    if step == 0 || n < 0x20_0000_0000_0000 * step {
        step
    } else {
        double_step(n, 2 * step)
    }
}

/// The double-precision number nearest to `n`.
pub open spec fn nearest_double(n: nat) -> nat {
    rounded(n, double_step(n, 1)) * double_step(n, 1)
}

/// `n` units of `unit` bytes with one decimal, as a double-precision quotient
/// is shown.
pub open spec fn tenths_text(n: nat, unit: nat, name: Seq<char>) -> Seq<char> {
    let t = rounded(10 * nearest_double(n), unit);
    decimal(t / 10) + "."@ + decimal(t % 10) + name
}

/// A number of bytes as it is shown to a user.
pub open spec fn human_text(n: nat) -> Seq<char> {
    if n >= 0x10_0000 {
        tenths_text(n, 0x10_0000, " MiB"@)
    } else if n >= 0x400 {
        tenths_text(n, 0x400, " KiB"@)
    } else {
        decimal(n) + " B"@
    }
}

fn round_div(n: u128, d: u128) -> (r: u128)
    requires
        0 < d <= 0x1_0000_0000_0000_0000,
    ensures
        r == rounded(n as nat, d as nat),
        r <= n / d + 1,
{
    let q: u128 = n / d;
    let rest: u128 = n % d;
    if 2 * rest > d || (2 * rest == d && q % 2 == 1) {
        proof {
            assert(n / d < u128::MAX) by (nonlinear_arith)
                requires
                    d > 0,
                    n % d > 0,
                    n <= u128::MAX,
            ;
        }
        q + 1
    } else {
        q
    }
}

fn to_double(n: u64) -> (r: u128)
    ensures
        r == nearest_double(n as nat),
        r <= 0x2_0000_0000_0000_0000,
{
    let wide: u128 = n as u128;
    let mut step: u128 = 1;
    while wide >= 0x20_0000_0000_0000 * step
        invariant
            wide == n,
            0 < step <= 0x1000,
            double_step(n as nat, 1) == double_step(n as nat, step as nat),
        decreases 0x1000 - step,
    {
        step = 2 * step;
    }
    let q: u128 = round_div(wide, step);
    proof {
        let w = wide as int;
        let d = step as int;
        assert(q * step <= w + d) by (nonlinear_arith)
            requires
                q <= w / d + 1,
                step == d,
                0 < d,
                0 <= w,
        ;
    }
    q * step
}

fn push_tenths(n: u64, unit: u64, name: &str) -> (text: String)
    requires
        unit == 0x400 || unit == 0x10_0000,
    ensures
        text@ == tenths_text(n as nat, unit as nat, name@),
{
    let top: u128 = 10 * to_double(n);
    let t: u128 = round_div(top, unit as u128);
    assert(t <= top / 0x400 + 1) by {
        if unit == 0x10_0000 {
            assert(top / 0x10_0000 <= top / 0x400);
        }
    }
    let whole: u64 = (t / 10) as u64;
    let tenth: u64 = (t % 10) as u64;
    let mut text: String = String::new();
    push_decimal(&mut text, whole);
    text.append(".");
    push_decimal(&mut text, tenth);
    text.append(name);
    assert(Seq::<char>::empty() + decimal(whole as nat) =~= decimal(whole as nat));
    text
}

/// A number of bytes as it is shown to a user.
pub fn human(n: u64) -> (text: String)
    ensures
        text@ == human_text(n as nat),
{
    if n >= 0x10_0000 {
        push_tenths(n, 0x10_0000, " MiB")
    } else if n >= 0x400 {
        push_tenths(n, 0x400, " KiB")
    } else {
        let mut text: String = with_decimal("", n);
        proof {
            reveal_strlit("");
            assert(""@ + decimal(n as nat) =~= decimal(n as nat));
        }
        text.append(" B");
        text
    }
}

// ---- inputs -----------------------------------------------------------------

/// Whether a file is named by an http(s) URL.
pub open spec fn names_url(spec: Seq<char>) -> bool {
    starts(spec, "http://"@) || starts(spec, "https://"@)
}

pub fn is_url(spec: &str) -> (r: bool)
    ensures
        r == names_url(spec@),
{
    let s: Vec<char> = chars_of(spec);
    starts_with(&s, &chars_of("http://")) || starts_with(&s, &chars_of("https://"))
}

/// Formats that can be converted.
#[derive(Debug, Clone, Copy, PartialEq, Eq, Structural)]
pub enum InputFormat {
    GeoJson,
    FlatGeobuf,
}

/// `c` in lower case is `w`; only ASCII letters have a lower case here.
pub open spec fn lowers_to(c: char, w: char) -> bool {
    if 'A' <= c <= 'Z' {
        'a' <= w <= 'z' && w as int - 'a' as int == c as int - 'A' as int
    } else {
        c == w
    }
}

/// `s` is the given word, in upper or lower case.
pub open spec fn is_word(s: Seq<char>, word: Seq<char>) -> bool {
    &&& s.len() == word.len()
    &&& forall|i: int| 0 <= i < s.len() ==> lowers_to(#[trigger] s[i], word[i])
}

/// The format that a file extension stands for, in upper or lower case.
pub open spec fn format_for(ext: Seq<char>) -> Option<InputFormat> {
    if is_word(ext, "json"@) || is_word(ext, "geojson"@) {
        Some(InputFormat::GeoJson)
    } else if is_word(ext, "fgb"@) {
        Some(InputFormat::FlatGeobuf)
    } else {
        None
    }
}

fn same_word(s: &Vec<char>, word: &Vec<char>) -> (r: bool)
    ensures
        r == is_word(s@, word@),
{
    if s.len() != word.len() {
        return false;
    }
    let n: usize = s.len();
    let mut i: usize = 0;
    while i < n
        invariant
            i <= n,
            n == s@.len(),
            n == word@.len(),
            forall|j: int| 0 <= j < i ==> lowers_to(#[trigger] s@[j], word@[j]),
        decreases n - i,
    {
        let c: char = s[i];
        let w: char = word[i];
        let same: bool = if 'A' <= c && c <= 'Z' {
            'a' <= w && w <= 'z' && w as u32 - 'a' as u32 == c as u32 - 'A' as u32
        } else {
            c == w
        };
        if !same {
            assert(!lowers_to(s@[i as int], word@[i as int]));
            return false;
        }
        i = i + 1;
    }
    true
}

/// The format of an input by its file extension.
pub fn input_format(ext: &str) -> (r: Option<InputFormat>)
    ensures
        r == format_for(ext@),
{
    let s: Vec<char> = chars_of(ext);
    if same_word(&s, &chars_of("json")) || same_word(&s, &chars_of("geojson")) {
        Some(InputFormat::GeoJson)
    } else if same_word(&s, &chars_of("fgb")) {
        Some(InputFormat::FlatGeobuf)
    } else {
        None
    }
}

// ---- tile addresses -----------------------------------------------------------

/// Why a tile address is refused.
#[derive(Debug, Clone, Copy, PartialEq, Eq, Structural)]
pub enum TileAddressError {
    InvalidY,
    OutOfRange,
}

impl TileAddressError {
    /// The text shown to a user.
    pub fn message(&self) -> (text: String)
        ensures
            text@ == match *self {
                TileAddressError::InvalidY => "invalid y"@,
                TileAddressError::OutOfRange => "tile out of range"@,
            },
    {
        match self {
            TileAddressError::InvalidY => "invalid y".to_owned(),
            TileAddressError::OutOfRange => "tile out of range".to_owned(),
        }
    }
}

/// Greatest zoom that is served.
pub const MAX_ZOOM: u8 = 24;

/// The row that the last part of a tile path names: a number, with the
/// endings of tile files not counted.
pub open spec fn row_in(y: Seq<char>) -> Option<nat> {
    unsigned_value(without_suffix(without_suffix(y, ".mvt"@), ".pbf"@), u32::MAX as nat)
}

/// The row of a tile, if the address names a tile that can exist.
pub open spec fn tile_row(z: u8, x: u32, y: Seq<char>) -> core::result::Result<
    nat,
    TileAddressError,
> {
    match row_in(y) {
        None => Err(TileAddressError::InvalidY),
        Some(row) => if z > MAX_ZOOM || x >= pow2(z as nat) || row >= pow2(z as nat) {
            Err(TileAddressError::OutOfRange)
        } else {
            Ok(row)
        },
    }
}

/// Two to the power of a zoom.
fn tiles_at(z: u8) -> (n: u32)
    requires
        z <= MAX_ZOOM,
    ensures
        n == pow2(z as nat),
        n <= 0x100_0000,
{
    let mut n: u32 = 1;
    let mut i: u8 = 0;
    proof {
        lemma2_to64();
    }
    while i < z
        invariant
            i <= z <= MAX_ZOOM,
            n == pow2(i as nat),
            pow2(24) == 0x100_0000,
            n <= 0x100_0000,
        decreases z - i,
    {
        proof {
            lemma_pow2_unfold((i + 1) as nat);
            if i + 1 < 24 {
                lemma_pow2_strictly_increases((i + 1) as nat, 24);
            }
        }
        n = n * 2;
        i = i + 1;
    }
    n
}

/// The row of the tile z/x/y; y may carry the ending ".mvt" or ".pbf".
pub fn parse_tile_row(z: u8, x: u32, y: &str) -> (r: core::result::Result<u32, TileAddressError>)
    ensures
        match r {
            Ok(row) => tile_row(z, x, y@) == core::result::Result::<nat, TileAddressError>::Ok(
                row as nat,
            ),
            Err(e) => tile_row(z, x, y@) == core::result::Result::<nat, TileAddressError>::Err(e),
        },
{
    let text: Vec<char> = chars_of(y);
    let text: Vec<char> = trim_suffix(&text, &chars_of(".mvt"));
    let text: Vec<char> = trim_suffix(&text, &chars_of(".pbf"));
    let row: u64 = match parse_number(&text, u32::MAX as u64) {
        Ok(n) => n,
        Err(_) => {
            return Err(TileAddressError::InvalidY);
        },
    };
    if z > MAX_ZOOM {
        return Err(TileAddressError::OutOfRange);
    }
    let n: u32 = tiles_at(z);
    if x >= n || row >= n as u64 {
        return Err(TileAddressError::OutOfRange);
    }
    Ok(row as u32)
}

// ---- laws -----------------------------------------------------------------------

/// A level as it is written: two zooms with a dash between them.
pub open spec fn level_text(l: LevelSpec) -> Seq<char> {
    decimal(l.min_zoom as nat) + seq!['-'] + decimal(l.max_zoom as nat)
}

/// A level comes back from how it is written, with any white space around it.
pub proof fn law_level_comes_back(a: Seq<char>, l: LevelSpec, b: Seq<char>)
    requires
        forall|i: int| 0 <= i < a.len() ==> is_space(#[trigger] a[i]),
        forall|i: int| 0 <= i < b.len() ==> is_space(#[trigger] b[i]),
    ensures
        level_of(a + level_text(l) + b) == core::result::Result::<LevelSpec, LevelsFault>::Ok(l),
{
    let low = decimal(l.min_zoom as nat);
    let high = decimal(l.max_zoom as nat);
    let t = level_text(l);
    law_decimal_is_digits(l.min_zoom as nat);
    law_decimal_is_digits(l.max_zoom as nat);
    assert('0' <= low[0] <= '9');
    assert('0' <= high[high.len() - 1] <= '9');
    assert(t[0] == low[0] && t[t.len() - 1] == high[high.len() - 1]);
    law_spaces_are_trimmed(a, t, b);
    law_first_place(t, '-', 0);
    assert(t[low.len() as int] == '-');
    assert forall|j: int| 0 <= j < low.len() implies #[trigger] t[j] != '-' by {
        assert('0' <= low[j] <= '9');
    }
    assert(first_at(t, '-', 0) == Some(low.len() as int));
    assert(t.take(low.len() as int) =~= low);
    assert(t.skip(low.len() as int + 1) =~= high);
    law_decimal_round_trip(l.min_zoom as nat, 255);
    law_decimal_round_trip(l.max_zoom as nat, 255);
    law_number_or_fault(low, 255);
    law_number_or_fault(high, 255);
}

/// A part without a dash is refused, and named.
pub proof fn law_level_needs_a_dash(part: Seq<char>)
    requires
        forall|i: int| 0 <= i < part.len() ==> #[trigger] part[i] != '-',
    ensures
        level_of(part) == core::result::Result::<LevelSpec, LevelsFault>::Err(
            LevelsFault::NoRange(part),
        ),
{
    let (from, to) = law_trimmed_part(part);
    law_first_place(trimmed(part), '-', 0);
    assert forall|i: int| 0 <= i < trimmed(part).len() implies #[trigger] trimmed(part)[i]
        != '-' by {
        assert(trimmed(part)[i] == part[from + i]);
    }
}

/// A zoom greater than 255, or one that is no number, is refused: a part that
/// is read is two numbers of at most 255.
pub proof fn law_read_level_is_two_zooms(part: Seq<char>)
    requires
        level_of(part) is Ok,
    ensures
        ({
            let l = level_of(part)->Ok_0;
            exists|low: Seq<char>, high: Seq<char>|
                {
                    &&& trimmed(part) == #[trigger] (low + seq!['-'] + high)
                    &&& unsigned_value(low, 255) == Some(l.min_zoom as nat)
                    &&& unsigned_value(high, 255) == Some(l.max_zoom as nat)
                }
        }),
{
    let t = trimmed(part);
    law_first_place(t, '-', 0);
    let i = first_at(t, '-', 0)->0;
    let low = t.take(i);
    let high = t.skip(i + 1);
    assert(t =~= low + seq!['-'] + high);
    law_number_or_fault(low, 255);
    law_number_or_fault(high, 255);
}

/// How levels are written: with commas between them.
pub open spec fn levels_text(levels: Seq<LevelSpec>) -> Seq<char> {
    joined_with(levels.map_values(|l: LevelSpec| level_text(l)), ',')
}

proof fn lemma_levels_from(parts: Seq<Seq<char>>, levels: Seq<LevelSpec>, i: int)
    requires
        parts == levels.map_values(|l: LevelSpec| level_text(l)),
        0 <= i <= levels.len(),
    ensures
        levels_of(parts, i) == core::result::Result::<Seq<LevelSpec>, LevelsFault>::Ok(
            levels.skip(i),
        ),
    decreases levels.len() - i,
{
    if i < levels.len() {
        let none = Seq::<char>::empty();
        lemma_levels_from(parts, levels, i + 1);
        law_level_comes_back(none, levels[i], none);
        assert(none + level_text(levels[i]) + none =~= level_text(levels[i]));
        assert(parts[i] == level_text(levels[i]));
        assert(seq![levels[i]] + levels.skip(i + 1) =~= levels.skip(i));
    } else {
        assert(levels.skip(i) =~= Seq::<LevelSpec>::empty());
    }
}

/// A list of levels comes back from how it is written, in its order.
pub proof fn law_levels_come_back(levels: Seq<LevelSpec>)
    requires
        levels.len() > 0,
    ensures
        levels_of(parts_of(levels_text(levels), ','), 0) == core::result::Result::<
            Seq<LevelSpec>,
            LevelsFault,
        >::Ok(levels),
{
    let parts = levels.map_values(|l: LevelSpec| level_text(l));
    assert forall|i: int, j: int|
        0 <= i < parts.len() && 0 <= j < parts[i].len() implies #[trigger] parts[i][j] != ',' by {
        let low = decimal(levels[i].min_zoom as nat);
        let high = decimal(levels[i].max_zoom as nat);
        law_decimal_is_digits(levels[i].min_zoom as nat);
        law_decimal_is_digits(levels[i].max_zoom as nat);
        if j < low.len() {
            assert('0' <= low[j] <= '9');
        } else if j > low.len() {
            assert('0' <= high[j - low.len() - 1] <= '9');
        }
    }
    law_joined_parts_come_back(parts, ',');
    lemma_levels_from(parts, levels, 0);
    assert(levels.skip(0) =~= levels);
}

/// Rounding gives the nearest integer, and the even one of two.
pub proof fn law_rounding_is_nearest(n: nat, d: nat)
    requires
        d > 0,
    ensures
        ({
            let r = rounded(n, d);
            &&& 2 * (r * d) <= 2 * n + d
            &&& 2 * n <= 2 * (r * d) + d
            &&& 2 * (r * d) == 2 * n + d || 2 * n == 2 * (r * d) + d ==> r % 2 == 0
        }),
{
    let q = n / d;
    let rest = n % d;
    assert(n == q * d + rest && rest < d) by (nonlinear_arith)
        requires
            d > 0,
            q == n / d,
            rest == n % d,
    ;
    assert((q + 1) * d == q * d + d) by (nonlinear_arith);
}

/// Up to 53 bits a number is a double-precision number.
pub proof fn law_small_numbers_are_doubles(n: nat)
    requires
        n < 0x20_0000_0000_0000,
    ensures
        nearest_double(n) == n,
{
    assert(double_step(n, 1) == 1);
    assert(n / 1 == n && n % 1 == 0);
}

proof fn lemma_step_from(n: nat, k: nat) -> (j: nat)
    requires
        k > 0 ==> 2 * n >= 0x20_0000_0000_0000 * pow2(k),
    ensures
        k <= j,
        double_step(n, pow2(k)) == pow2(j),
        n < 0x20_0000_0000_0000 * pow2(j),
        j > 0 ==> 2 * n >= 0x20_0000_0000_0000 * pow2(j),
    decreases n - pow2(k),
{
    lemma_pow2_pos(k);
    if n < 0x20_0000_0000_0000 * pow2(k) {
        k
    } else {
        lemma_pow2_unfold(k + 1);
        lemma_step_from(n, k + 1)
    }
}

/// The step between double-precision numbers around `n` is the power of two
/// for which `n` has 53 bits, or one if it has no more than these.
pub proof fn law_step_of_doubles(n: nat) -> (j: nat)
    ensures
        double_step(n, 1) == pow2(j),
        n < 0x20_0000_0000_0000 * pow2(j),
        j > 0 ==> 2 * n >= 0x20_0000_0000_0000 * pow2(j),
{
    lemma2_to64();
    lemma_step_from(n, 0)
}

/// The nearest double-precision number is no further away than half a step.
pub proof fn law_nearest_double(n: nat)
    ensures
        ({
            let step = double_step(n, 1);
            &&& nearest_double(n) % step == 0
            &&& 2 * nearest_double(n) <= 2 * n + step
            &&& 2 * n <= 2 * nearest_double(n) + step
        }),
{
    let j = law_step_of_doubles(n);
    lemma_pow2_pos(j);
    let step = double_step(n, 1);
    law_rounding_is_nearest(n, step);
    lemma_mod_multiples_basic(rounded(n, step) as int, step as int);
}

/// A size is shown in bytes below a kibibyte, in kibibytes below a mebibyte,
/// and in mebibytes from there on, with the nearest tenth.
pub proof fn law_shown_size(n: nat) -> (t: nat)
    requires
        n < 0x20_0000_0000_0000,
    ensures
        n < 1024 ==> human_text(n) == decimal(n) + " B"@,
        1024 <= n < 1_048_576 ==> {
            &&& human_text(n) == decimal(t / 10) + "."@ + decimal(t % 10) + " KiB"@
            &&& 2 * (t * 1024) <= 2 * (10 * n) + 1024
            &&& 2 * (10 * n) <= 2 * (t * 1024) + 1024
        },
        1_048_576 <= n ==> {
            &&& human_text(n) == decimal(t / 10) + "."@ + decimal(t % 10) + " MiB"@
            &&& 2 * (t * 1_048_576) <= 2 * (10 * n) + 1_048_576
            &&& 2 * (10 * n) <= 2 * (t * 1_048_576) + 1_048_576
        },
{
    law_small_numbers_are_doubles(n);
    if n < 1_048_576 {
        law_rounding_is_nearest(10 * n, 1024);
        rounded(10 * n, 1024)
    } else {
        law_rounding_is_nearest(10 * n, 1_048_576);
        rounded(10 * n, 1_048_576)
    }
}

/// A URL starts with "http://" or "https://".
pub proof fn law_urls(spec: Seq<char>)
    ensures
        names_url("http://"@ + spec),
        names_url("https://"@ + spec),
        names_url(spec) ==> exists|rest: Seq<char>|
            spec == #[trigger] ("http://"@ + rest) || spec == "https://"@ + rest,
{
    law_starts_and_ends("http://"@ + spec, "http://"@);
    law_starts_and_ends("https://"@ + spec, "https://"@);
    law_starts_and_ends(spec, "http://"@);
    law_starts_and_ends(spec, "https://"@);
    if starts(spec, "https://"@) {
        let rest = choose|rest: Seq<char>| spec == #[trigger] ("https://"@ + rest);
        assert("http://"@ + rest == "http://"@ + rest);
    }
}

/// An ASCII letter in lower case; other characters as they are.
pub open spec fn lower(c: char) -> char {
    if 'A' <= c <= 'Z' {
        (c as int + 32) as char
    } else {
        c
    }
}

/// A text is a word in upper or lower case exactly if it is the word when it
/// is put in lower case.
pub proof fn law_words_in_any_case(s: Seq<char>, word: Seq<char>)
    ensures
        is_word(s, word) <==> word == s.map_values(|c: char| lower(c)),
{
    let low = s.map_values(|c: char| lower(c));
    if is_word(s, word) {
        assert forall|i: int| 0 <= i < s.len() implies word[i] == low[i] by {
            assert(lowers_to(s[i], word[i]));
        }
        assert(word =~= low);
    }
}

/// The extensions "json" and "geojson" stand for GeoJSON and "fgb" stands for
/// FlatGeobuf, in upper or lower case; others stand for nothing.
pub proof fn law_formats_by_extension(ext: Seq<char>)
    ensures
        ({
            let low = ext.map_values(|c: char| lower(c));
            &&& format_for(ext) == Some(InputFormat::GeoJson) <==> low == "json"@ || low
                == "geojson"@
            &&& format_for(ext) == Some(InputFormat::FlatGeobuf) <==> low == "fgb"@
        }),
{
    law_words_in_any_case(ext, "json"@);
    law_words_in_any_case(ext, "geojson"@);
    law_words_in_any_case(ext, "fgb"@);
    reveal_strlit("json");
    reveal_strlit("geojson");
    reveal_strlit("fgb");
}

proof fn lemma_row_with_ending(row: nat, ending: Seq<char>)
    requires
        row <= u32::MAX,
        ending.len() == 0 || ending == ".mvt"@ || ending == ".pbf"@,
    ensures
        row_in(decimal(row) + ending) == Some(row),
{
    let d = decimal(row);
    reveal_strlit(".mvt");
    reveal_strlit(".pbf");
    law_decimal_is_digits(row);
    law_decimal_round_trip(row, u32::MAX as nat);
    let last = d.len() - 1;
    assert('0' <= d[last] <= '9');
    lemma_not_ending(d, ".mvt"@);
    lemma_not_ending(d, ".pbf"@);
    law_suffixes_go(d, ".mvt"@);
    law_suffixes_go(d, ".pbf"@);
    if ending.len() == 0 {
        assert(d + ending =~= d);
    } else if ending == ".pbf"@ {
        lemma_other_ending(d);
        law_suffixes_go(d + ending, ".mvt"@);
    }
}

proof fn lemma_not_ending(d: Seq<char>, ending: Seq<char>)
    requires
        d.len() > 0,
        '0' <= d[d.len() - 1] <= '9',
        ending.len() == 4,
        !('0' <= ending[3] <= '9'),
    ensures
        !ends(d, ending),
{
    if ends(d, ending) {
        assert(d.skip(d.len() - 4)[3] == d[d.len() - 1]);
    }
}

proof fn lemma_other_ending(d: Seq<char>)
    ensures
        !ends(d + ".pbf"@, ".mvt"@),
{
    reveal_strlit(".mvt");
    reveal_strlit(".pbf");
    let s = d + ".pbf"@;
    assert(s.skip(s.len() - 4)[3] == 'f');
}

/// The address of a tile, with one of the endings or with none, is accepted
/// exactly if the zoom is 24 at most and the grid of the zoom has the column
/// and the row; it names this row.
pub proof fn law_tile_addresses(z: u8, x: u32, row: u32, ending: Seq<char>)
    requires
        ending.len() == 0 || ending == ".mvt"@ || ending == ".pbf"@,
    ensures
        ({
            let address = decimal(row as nat) + ending;
            let exists_so = z <= 24 && x < pow2(z as nat) && row < pow2(z as nat);
            &&& exists_so ==> tile_row(z, x, address) == core::result::Result::<
                nat,
                TileAddressError,
            >::Ok(row as nat)
            &&& !exists_so ==> tile_row(z, x, address) == core::result::Result::<
                nat,
                TileAddressError,
            >::Err(TileAddressError::OutOfRange)
        }),
{
    lemma_row_with_ending(row as nat, ending);
}

} // verus!
