//! The fixed-width header: a version and the byte ranges of the other segments.
use core::ops::RangeInclusive;
use vstd::prelude::*;

use crate::chars::chars_of;

verus! {

/// Length of the header, in characters.
pub const HEADER_LEN: usize = 58;

/// Width of the version and reserved columns together.
pub const VERSION_WIDTH: usize = 10;

/// Width of each offset column.
pub const OFFSET_WIDTH: usize = 8;

/// Why a column is not a number.
#[derive(Debug, Clone, Copy, PartialEq, Eq, Structural)]
pub enum NumberError {
    /// Nothing but whitespace.
    Empty,
    /// A character that is not a digit, or a lone `+`.
    InvalidDigit,
}

/// Which part of a header could not be decoded.
#[derive(Debug, Clone, Copy, PartialEq, Eq, Structural)]
pub enum HeaderFieldError {
    /// The header is shorter than its fixed width.
    Length,
    TextStart,
    TextEnd,
    DataStart,
    DataEnd,
    AnalysisStart,
    AnalysisEnd,
}

/// Whitespace as `char::is_whitespace` defines it (the Unicode `White_Space` property).
pub open spec fn is_whitespace(c: char) -> bool {
    ('\u{9}' <= c && c <= '\u{d}') || c == ' ' || c == '\u{85}' || c == '\u{a0}' || c == '\u{1680}'
        || ('\u{2000}' <= c && c <= '\u{200a}') || c == '\u{2028}' || c == '\u{2029}'
        || c == '\u{202f}' || c == '\u{205f}' || c == '\u{3000}'
}

/// `s` without its leading whitespace.
pub open spec fn trim_start(s: Seq<char>) -> Seq<char>
    decreases s.len(),
{
    if s.len() > 0 && is_whitespace(s[0]) {
        trim_start(s.drop_first())
    } else {
        s
    }
}

pub open spec fn is_digit(c: char) -> bool {
    '0' <= c && c <= '9'
}

pub open spec fn digit_value(c: char) -> nat {
    (c as u32 - '0' as u32) as nat
}

pub open spec fn all_digits(s: Seq<char>) -> bool {
    forall|i: int| 0 <= i < s.len() ==> is_digit(#[trigger] s[i])
}

/// The value of a sequence of decimal digits, most significant first.
pub open spec fn digits_value(s: Seq<char>) -> nat
    decreases s.len(),
{
    if s.len() == 0 {
        0
    } else {
        digits_value(s.drop_last()) * 10 + digit_value(s.last())
    }
}

/// An unsigned decimal number: an optional `+` and at least one digit.
pub open spec fn number(t: Seq<char>) -> Option<nat> {
    let d = if t.len() > 0 && t[0] == '+' { t.drop_first() } else { t };
    if d.len() > 0 && all_digits(d) {
        Some(digits_value(d))
    } else {
        None
    }
}

/// Reading a column as a number after skipping its leading whitespace: what is left
/// is empty, or a number, or holds a character that a number cannot.
pub open spec fn parse_number(f: Seq<char>) -> Result<nat, NumberError> {
    let t = trim_start(f);
    if t.len() == 0 {
        Err(NumberError::Empty)
    } else {
        match number(t) {
            Some(v) => Ok(v),
            None => Err(NumberError::InvalidDigit),
        }
    }
}

/// A blank column read as zero.
pub open spec fn zero_if_empty(r: Result<nat, NumberError>) -> Result<nat, NumberError> {
    match r {
        Err(NumberError::Empty) => Ok(0),
        _ => r,
    }
}

/// The value of one offset column. Leading whitespace is skipped; a blank column is
/// zero where `blank_is_zero` holds and invalid elsewhere.
pub open spec fn field_value(f: Seq<char>, blank_is_zero: bool) -> Option<nat> {
    let r = if blank_is_zero {
        zero_if_empty(parse_number(f))
    } else {
        parse_number(f)
    };
    match r {
        Ok(v) => Some(v),
        Err(_) => None,
    }
}

/// The characters of offset column `k` (0 to 5) of header `s`.
pub open spec fn column(s: Seq<char>, k: int) -> Seq<char> {
    s.subrange(VERSION_WIDTH + OFFSET_WIDTH * k, VERSION_WIDTH + OFFSET_WIDTH * (k + 1))
}

pub open spec fn column_value(s: Seq<char>, k: int) -> Option<nat> {
    field_value(column(s, k), k >= 4)
}

pub open spec fn column_error(k: int) -> HeaderFieldError {
    if k == 0 {
        HeaderFieldError::TextStart
    } else if k == 1 {
        HeaderFieldError::TextEnd
    } else if k == 2 {
        HeaderFieldError::DataStart
    } else if k == 3 {
        HeaderFieldError::DataEnd
    } else if k == 4 {
        HeaderFieldError::AnalysisStart
    } else {
        HeaderFieldError::AnalysisEnd
    }
}

/// Decoding a header: its version (the first six characters) and its six offsets, or
/// the first part that is too short or not a number.
pub open spec fn decode_header(s: Seq<char>) -> Result<(Seq<char>, Seq<nat>), HeaderFieldError> {
    if s.len() < HEADER_LEN {
        Err(HeaderFieldError::Length)
    } else if column_value(s, 0) is None {
        Err(column_error(0))
    } else if column_value(s, 1) is None {
        Err(column_error(1))
    } else if column_value(s, 2) is None {
        Err(column_error(2))
    } else if column_value(s, 3) is None {
        Err(column_error(3))
    } else if column_value(s, 4) is None {
        Err(column_error(4))
    } else if column_value(s, 5) is None {
        Err(column_error(5))
    } else {
        Ok(
            (
                s.subrange(0, 6),
                seq![
                    column_value(s, 0)->0,
                    column_value(s, 1)->0,
                    column_value(s, 2)->0,
                    column_value(s, 3)->0,
                    column_value(s, 4)->0,
                    column_value(s, 5)->0,
                ],
            ),
        )
    }
}

/// Skips leading whitespace of `cs[start..end]`, returning the first position that is
/// not whitespace.
fn skip_whitespace(cs: &Vec<char>, start: usize, end: usize) -> (i: usize)
    requires
        start <= end <= cs.len(),
    ensures
        start <= i <= end,
        trim_start(cs@.subrange(start as int, end as int)) == cs@.subrange(i as int, end as int),
{
    let mut i = start;
    while i < end && is_whitespace_char(cs[i])
        invariant
            start <= i <= end <= cs.len(),
            trim_start(cs@.subrange(start as int, end as int)) == trim_start(
                cs@.subrange(i as int, end as int),
            ),
        decreases end - i,
    {
        assert(cs@.subrange(i as int, end as int).drop_first() =~= cs@.subrange(
            i + 1,
            end as int,
        ));
        i = i + 1;
    }
    i
}

fn is_whitespace_char(c: char) -> (r: bool)
    ensures
        r == is_whitespace(c),
{
    ('\u{9}' <= c && c <= '\u{d}') || c == ' ' || c == '\u{85}' || c == '\u{a0}' || c == '\u{1680}'
        || ('\u{2000}' <= c && c <= '\u{200a}') || c == '\u{2028}' || c == '\u{2029}'
        || c == '\u{202f}' || c == '\u{205f}' || c == '\u{3000}'
}

/// Reads a blank column as zero; any other error stays.
pub fn zero_when_empty(error: NumberError) -> (r: Result<usize, NumberError>)
    ensures
        match error {
            NumberError::Empty => r == Ok::<usize, NumberError>(0),
            _ => r == Err::<usize, NumberError>(error),
        },
{
    match error {
        NumberError::Empty => Ok(0),
        _ => Err(error),
    }
}

/// Parses the offset column that starts at `start`.
fn parse_column(cs: &Vec<char>, start: usize) -> (r: Result<usize, NumberError>)
    requires
        start + OFFSET_WIDTH <= cs.len(),
    ensures
        match parse_number(cs@.subrange(start as int, start + OFFSET_WIDTH)) {
            Ok(v) => r == Ok::<usize, NumberError>(v as usize) && v <= usize::MAX,
            Err(e) => r == Err::<usize, NumberError>(e),
        },
{
    let end = start + OFFSET_WIDTH;
    let ghost f = cs@.subrange(start as int, end as int);
    let i = skip_whitespace(cs, start, end);
    if i == end {
        return Err(NumberError::Empty);
    }
    let ghost t = cs@.subrange(i as int, end as int);
    let mut j = i;
    if cs[j] == '+' {
        j = j + 1;
    }
    if j == end {
        return Err(NumberError::InvalidDigit);
    }
    let j0 = j;
    let ghost d = cs@.subrange(j0 as int, end as int);
    assert(d =~= (if t.len() > 0 && t[0] == '+' { t.drop_first() } else { t }));
    let mut value: usize = 0;
    while j < end
        invariant
            start <= j0 <= j <= end,
            end == start + OFFSET_WIDTH,
            f == cs@.subrange(start as int, end as int),
            t.len() > 0,
            trim_start(f) == t,
            d == (if t.len() > 0 && t[0] == '+' { t.drop_first() } else { t }),
            end <= cs.len(),
            d == cs@.subrange(j0 as int, end as int),
            all_digits(cs@.subrange(j0 as int, j as int)),
            value == digits_value(cs@.subrange(j0 as int, j as int)),
            value < pow10((j - j0) as nat),
            j - j0 <= OFFSET_WIDTH,
        decreases end - j,
    {
        let c = cs[j];
        if !('0' <= c && c <= '9') {
            assert(!is_digit(d[j - j0]));
            return Err(NumberError::InvalidDigit);
        }
        let dv = (c as u32 - '0' as u32) as usize;
        proof {
            lemma_pow10_bound((j - j0) as nat);
            let p = pow10((j - j0) as nat);
            assert(value * 10 + dv < p * 10) by (nonlinear_arith)
                requires
                    value < p,
                    dv < 10,
            ;
            assert(cs@.subrange(j0 as int, j + 1).drop_last() =~= cs@.subrange(
                j0 as int,
                j as int,
            ));
        }
        value = value * 10 + dv;
        j = j + 1;
    }
    assert(cs@.subrange(j0 as int, j as int) =~= d);
    Ok(value)
}

pub open spec fn pow10(n: nat) -> nat
    decreases n,
{
    if n == 0 {
        1
    } else {
        10 * pow10((n - 1) as nat)
    }
}

proof fn lemma_pow10_bound(n: nat)
    requires
        n < OFFSET_WIDTH,
    ensures
        pow10(n) * 10 == pow10(n + 1),
        pow10(n + 1) <= 100_000_000,
{
    reveal_with_fuel(pow10, 9);
}


/// The header of a file: its version and the inclusive byte ranges of the text, data
/// and analysis segments. A range of `0..=0` marks an absent segment.
#[derive(Debug, PartialEq)]
pub struct Header {
    pub version: String,
    pub text_offsets: RangeInclusive<usize>,
    pub data_offsets: RangeInclusive<usize>,
    pub analysis_offsets: RangeInclusive<usize>,
}

/// Decimal digit `d` (0 to 9) as a character.
pub open spec fn digit_char(d: nat) -> char {
    ((d + 48) as u8) as char
}

/// The decimal representation of `n`, without leading zeros.
pub open spec fn decimal(n: nat) -> Seq<char>
    decreases n,
{
    if n < 10 {
        seq![digit_char(n)]
    } else {
        decimal(n / 10).push(digit_char(n % 10))
    }
}

pub open spec fn spaces(n: int) -> Seq<char> {
    Seq::new(if n > 0 { n as nat } else { 0 }, |i: int| ' ')
}

/// `s` right-justified in a column of width `w`; never truncated.
pub open spec fn pad_left(s: Seq<char>, w: int) -> Seq<char> {
    spaces(w - s.len()) + s
}

/// `s` left-justified in a column of width `w`; never truncated.
pub open spec fn pad_right(s: Seq<char>, w: int) -> Seq<char> {
    s + spaces(w - s.len())
}

/// Encoding a header: the version left-justified in ten columns, then each offset
/// right-justified in eight.
pub open spec fn encode_header(version: Seq<char>, o: Seq<nat>) -> Seq<char> {
    pad_right(version, VERSION_WIDTH as int) + pad_left(decimal(o[0]), OFFSET_WIDTH as int)
        + pad_left(decimal(o[1]), OFFSET_WIDTH as int) + pad_left(decimal(o[2]), OFFSET_WIDTH as int)
        + pad_left(decimal(o[3]), OFFSET_WIDTH as int) + pad_left(decimal(o[4]), OFFSET_WIDTH as int)
        + pad_left(decimal(o[5]), OFFSET_WIDTH as int)
}

impl Header {
    /// The six offsets: text start and end, data start and end, analysis start and end.
    pub open spec fn offsets(&self) -> Seq<nat> {
        seq![
            self.text_offsets@.start as nat,
            self.text_offsets@.end as nat,
            self.data_offsets@.start as nat,
            self.data_offsets@.end as nat,
            self.analysis_offsets@.start as nat,
            self.analysis_offsets@.end as nat,
        ]
    }

    /// Decodes the first 58 characters of `header`: the version from the first six,
    /// then the six offset columns after four reserved characters. In the ASCII text
    /// that the format prescribes, characters and bytes coincide.
    pub fn try_from(header: &str) -> (r: Result<Header, HeaderFieldError>)
        ensures
            match decode_header(header@) {
                Ok((v, o)) => r is Ok && r->Ok_0.version@ == v && r->Ok_0.offsets() == o,
                Err(e) => r is Err && r->Err_0 == e,
            },
    {
        let cs = chars_of(header);
        if cs.len() < HEADER_LEN {
            return Err(HeaderFieldError::Length);
        }
        let mut values: Vec<usize> = Vec::new();
        let mut k: usize = 0;
        while k < 6
            invariant
                cs@ == header@,
                cs.len() >= HEADER_LEN,
                k <= 6,
                values.len() == k,
                forall|m: int| 0 <= m < k ==> #[trigger] column_value(header@, m) == Some(values[m] as nat),
            decreases 6 - k,
        {
            let start = VERSION_WIDTH + OFFSET_WIDTH * k;
            let parsed = match parse_column(&cs, start) {
                Ok(v) => Ok(v),
                Err(e) => if k >= 4 {
                    zero_when_empty(e)
                } else {
                    Err(e)
                },
            };
            match parsed {
                Ok(v) => values.push(v),
                Err(_) => {
                    proof {
                        assert forall|m: int| 0 <= m < k implies column_value(header@, m) is Some by {
                            assert(column_value(header@, m) == Some(values[m] as nat));
                        }
                    }
                    return Err(column_error_of(k));
                },
            }
            k = k + 1;
        }
        let mut version = String::new();
        let mut i: usize = 0;
        while i < 6
            invariant
                cs@ == header@,
                cs.len() >= HEADER_LEN,
                i <= 6,
                version@ == header@.subrange(0, i as int),
            decreases 6 - i,
        {
            version.push(cs[i]);
            assert(header@.subrange(0, i + 1) =~= header@.subrange(0, i as int).push(cs@[i as int]));
            i = i + 1;
        }
        assert(column_value(header@, 0) == Some(values[0] as nat));
        assert(column_value(header@, 1) == Some(values[1] as nat));
        assert(column_value(header@, 2) == Some(values[2] as nat));
        assert(column_value(header@, 3) == Some(values[3] as nat));
        assert(column_value(header@, 4) == Some(values[4] as nat));
        assert(column_value(header@, 5) == Some(values[5] as nat));
        let h = Header {
            version,
            text_offsets: RangeInclusive::new(values[0], values[1]),
            data_offsets: RangeInclusive::new(values[2], values[3]),
            analysis_offsets: RangeInclusive::new(values[4], values[5]),
        };
        assert(h.offsets() =~= decode_header(header@)->Ok_0.1);
        Ok(h)
    }

    /// The 58-character text of this header.
    pub fn to_string(&self) -> (r: String)
        ensures
            r@ == encode_header(self.version@, self.offsets()),
    {
        let mut r = String::new();
        r.append(self.version.as_str());
        push_spaces(&mut r, VERSION_WIDTH, self.version.as_str().unicode_len());
        push_column(&mut r, *self.text_offsets.start());
        push_column(&mut r, *self.text_offsets.end());
        push_column(&mut r, *self.data_offsets.start());
        push_column(&mut r, *self.data_offsets.end());
        push_column(&mut r, *self.analysis_offsets.start());
        push_column(&mut r, *self.analysis_offsets.end());
        r
    }
}

/// Relies on `RangeInclusive::start`: the lower bound the range was made with.
pub assume_specification<Idx>[ RangeInclusive::<Idx>::start ](r: &RangeInclusive<Idx>) -> (s: &Idx)
    ensures
        *s == r@.start,
;

/// Relies on `RangeInclusive::end`: the upper bound the range was made with.
pub assume_specification<Idx>[ RangeInclusive::<Idx>::end ](r: &RangeInclusive<Idx>) -> (e: &Idx)
    ensures
        *e == r@.end,
;

/// Appends the decimal digits of `n`.
fn push_decimal(s: &mut String, n: usize)
    ensures
        final(s)@ == old(s)@ + decimal(n as nat),
    decreases n,
{
    if n >= 10 {
        push_decimal(s, n / 10);
    }
    let c = ((n % 10) as u8 + 48u8) as char;
    s.push(c);
    assert(final(s)@ =~= old(s)@ + decimal(n as nat));
}

/// Appends spaces up to `width` after content of length `len`.
fn push_spaces(s: &mut String, width: usize, len: usize)
    ensures
        final(s)@ == old(s)@ + spaces(width - len),
{
    let mut k = len;
    while k < width
        invariant
            len <= k,
            k <= width || k == len,
            s@ == old(s)@ + spaces(k - len),
        decreases width - k,
    {
        s.push(' ');
        assert(spaces(k + 1 - len) =~= spaces(k - len).push(' '));
        k = k + 1;
    }
    assert(spaces(k - len) =~= spaces(width - len));
}

/// Appends `n` right-justified in an offset column.
fn push_column(s: &mut String, n: usize)
    ensures
        final(s)@ == old(s)@ + pad_left(decimal(n as nat), OFFSET_WIDTH as int),
{
    let mut d = String::new();
    push_decimal(&mut d, n);
    push_spaces(s, OFFSET_WIDTH, d.as_str().unicode_len());
    s.append(d.as_str());
    assert(final(s)@ =~= old(s)@ + pad_left(decimal(n as nat), OFFSET_WIDTH as int));
}

proof fn lemma_digit_char(d: nat)
    requires
        d < 10,
    ensures
        is_digit(digit_char(d)),
        digit_value(digit_char(d)) == d,
{
    let b = (d + 48) as u8;
    assert(b as char as u32 == b as u32);
}

proof fn lemma_decimal(n: nat)
    ensures
        decimal(n).len() >= 1,
        all_digits(decimal(n)),
        digits_value(decimal(n)) == n,
    decreases n,
{
    lemma_digit_char(n % 10);
    if n >= 10 {
        lemma_decimal(n / 10);
        let d = decimal(n);
        assert(d.drop_last() =~= decimal(n / 10));
        assert forall|i: int| 0 <= i < d.len() implies is_digit(#[trigger] d[i]) by {
            if i < d.len() - 1 {
                assert(d[i] == decimal(n / 10)[i]);
            }
        }
        assert(digits_value(d) == (n / 10) * 10 + n % 10);
    } else {
        assert(decimal(n).drop_last() =~= Seq::<char>::empty());
        assert(n % 10 == n);
        assert(digits_value(Seq::<char>::empty()) == 0);
        assert(digits_value(decimal(n)) == digits_value(Seq::<char>::empty()) * 10 + digit_value(digit_char(n)));
    }
}

proof fn lemma_decimal_len(n: nat, k: nat)
    requires
        k >= 1,
        n < pow10(k),
    ensures
        decimal(n).len() <= k,
    decreases n,
{
    if n >= 10 {
        assert(k >= 2) by {
            if k == 1 {
                reveal_with_fuel(pow10, 2);
            }
        }
        assert(n / 10 < pow10((k - 1) as nat));
        lemma_decimal_len(n / 10, (k - 1) as nat);
    }
}

proof fn lemma_trim_spaces(n: int, s: Seq<char>)
    requires
        s.len() > 0,
        !is_whitespace(s[0]),
    ensures
        trim_start(spaces(n) + s) == s,
    decreases n,
{
    if n <= 0 {
        assert(spaces(n) + s =~= s);
    } else {
        assert((spaces(n) + s).drop_first() =~= spaces(n - 1) + s);
        lemma_trim_spaces(n - 1, s);
    }
}

/// An offset below 10^8 survives its column.
proof fn lemma_column_round_trip(n: nat, blank_is_zero: bool)
    requires
        n < 100_000_000,
    ensures
        pad_left(decimal(n), OFFSET_WIDTH as int).len() == OFFSET_WIDTH,
        field_value(pad_left(decimal(n), OFFSET_WIDTH as int), blank_is_zero) == Some(n),
{
    lemma_decimal(n);
    reveal_with_fuel(pow10, 9);
    lemma_decimal_len(n, 8);
    let d = decimal(n);
    assert(is_digit(d[0]));
    lemma_trim_spaces(OFFSET_WIDTH - d.len(), d);
}

/// Encoding then decoding gives back the version and offsets, for a six-character
/// version and offsets of at most eight digits.
pub proof fn lemma_encode_decode(version: Seq<char>, o: Seq<nat>)
    requires
        version.len() == 6,
        o.len() == 6,
        forall|i: int| 0 <= i < 6 ==> #[trigger] o[i] < 100_000_000,
    ensures
        decode_header(encode_header(version, o)) == Ok::<(Seq<char>, Seq<nat>), HeaderFieldError>(
            (version, o),
        ),
{
    let e = encode_header(version, o);
    assert(o[0] < 100_000_000);
    assert(o[1] < 100_000_000);
    assert(o[2] < 100_000_000);
    assert(o[3] < 100_000_000);
    assert(o[4] < 100_000_000);
    assert(o[5] < 100_000_000);
    lemma_column_round_trip(o[0], false);
    lemma_column_round_trip(o[1], false);
    lemma_column_round_trip(o[2], false);
    lemma_column_round_trip(o[3], false);
    lemma_column_round_trip(o[4], true);
    lemma_column_round_trip(o[5], true);
    assert(e.len() == HEADER_LEN);
    assert(column(e, 0) =~= pad_left(decimal(o[0]), OFFSET_WIDTH as int));
    assert(column(e, 1) =~= pad_left(decimal(o[1]), OFFSET_WIDTH as int));
    assert(column(e, 2) =~= pad_left(decimal(o[2]), OFFSET_WIDTH as int));
    assert(column(e, 3) =~= pad_left(decimal(o[3]), OFFSET_WIDTH as int));
    assert(column(e, 4) =~= pad_left(decimal(o[4]), OFFSET_WIDTH as int));
    assert(column(e, 5) =~= pad_left(decimal(o[5]), OFFSET_WIDTH as int));
    assert(e.subrange(0, 6) =~= version);
    let r = decode_header(e)->Ok_0.1;
    assert(r =~= o);
}

/// A header with a six-character version and offsets of at most eight digits decodes
/// from its own text to the same version and offsets.
pub proof fn lemma_header_round_trip(h: Header)
    requires
        h.version@.len() == 6,
        forall|i: int| 0 <= i < 6 ==> #[trigger] h.offsets()[i] < 100_000_000,
    ensures
        decode_header(encode_header(h.version@, h.offsets())) == Ok::<
            (Seq<char>, Seq<nat>),
            HeaderFieldError,
        >((h.version@, h.offsets())),
{
    lemma_encode_decode(h.version@, h.offsets());
}

/// `trim_start` drops a prefix of whitespace.
proof fn lemma_trim_start(s: Seq<char>) -> (k: int)
    ensures
        0 <= k <= s.len(),
        trim_start(s) == s.subrange(k, s.len() as int),
        forall|j: int| 0 <= j < k ==> is_whitespace(#[trigger] s[j]),
        k < s.len() ==> !is_whitespace(s[k]),
    decreases s.len(),
{
    if s.len() > 0 && is_whitespace(s[0]) {
        let k0 = lemma_trim_start(s.drop_first());
        assert(s.drop_first().subrange(k0, s.len() - 1) =~= s.subrange(k0 + 1, s.len() as int));
        assert forall|j: int| 0 <= j < k0 + 1 implies is_whitespace(#[trigger] s[j]) by {
            if j > 0 {
                assert(s[j] == s.drop_first()[j - 1]);
            }
        }
        k0 + 1
    } else {
        assert(s.subrange(0, s.len() as int) =~= s);
        0
    }
}

/// A column holding a character that is neither whitespace, a digit nor `+` is not a
/// number, blank or not.
pub proof fn lemma_column_rejects(f: Seq<char>, i: int, blank_is_zero: bool)
    requires
        0 <= i < f.len(),
        !is_whitespace(f[i]),
        !is_digit(f[i]),
        f[i] != '+',
    ensures
        field_value(f, blank_is_zero) is None,
{
    let k = lemma_trim_start(f);
    let t = trim_start(f);
    assert(k <= i);
    let d = if t.len() > 0 && t[0] == '+' { t.drop_first() } else { t };
    if t[0] == '+' {
        assert(d[i - k - 1] == f[i]);
    } else {
        assert(d[i - k] == f[i]);
    }
}

/// A column of whitespace only is blank: zero for the analysis offsets, invalid for
/// the others.
pub proof fn lemma_blank_column(f: Seq<char>, blank_is_zero: bool)
    requires
        forall|i: int| 0 <= i < f.len() ==> is_whitespace(#[trigger] f[i]),
    ensures
        field_value(f, blank_is_zero) == (if blank_is_zero { Some(0nat) } else { None }),
{
    let k = lemma_trim_start(f);
    assert(trim_start(f).len() == 0);
}

/// A header whose text-start column holds a letter fails on that column; whitespace
/// alone there fails too, while whitespace alone in an analysis column reads as zero.
pub proof fn lemma_header_rejects_letters(s: Seq<char>, i: int)
    requires
        s.len() >= HEADER_LEN,
        VERSION_WIDTH <= i < VERSION_WIDTH + OFFSET_WIDTH,
        ('a' <= s[i] <= 'z') || ('A' <= s[i] <= 'Z'),
    ensures
        decode_header(s) == Err::<(Seq<char>, Seq<nat>), HeaderFieldError>(
            HeaderFieldError::TextStart,
        ),
{
    assert(column(s, 0)[i - VERSION_WIDTH] == s[i]);
    lemma_column_rejects(column(s, 0), i - VERSION_WIDTH, false);
}

/// A header whose text-start column is all whitespace fails on that column.
pub proof fn lemma_header_rejects_blank_text_start(s: Seq<char>)
    requires
        s.len() >= HEADER_LEN,
        forall|i: int| VERSION_WIDTH <= i < VERSION_WIDTH + OFFSET_WIDTH ==> is_whitespace(#[trigger] s[i]),
    ensures
        decode_header(s) == Err::<(Seq<char>, Seq<nat>), HeaderFieldError>(
            HeaderFieldError::TextStart,
        ),
{
    assert forall|j: int| 0 <= j < column(s, 0).len() implies is_whitespace(#[trigger] column(s, 0)[j]) by {
        assert(column(s, 0)[j] == s[j + VERSION_WIDTH]);
    }
    lemma_blank_column(column(s, 0), false);
}

/// Analysis columns that are all whitespace read as zero.
pub proof fn lemma_blank_analysis_is_zero(s: Seq<char>, k: int)
    requires
        s.len() >= HEADER_LEN,
        k == 4 || k == 5,
        forall|j: int| 0 <= j < OFFSET_WIDTH ==> is_whitespace(#[trigger] column(s, k)[j]),
    ensures
        column_value(s, k) == Some(0nat),
{
    lemma_blank_column(column(s, k), true);
}

fn column_error_of(k: usize) -> (e: HeaderFieldError)
    ensures
        e == column_error(k as int),
{
    if k == 0 {
        HeaderFieldError::TextStart
    } else if k == 1 {
        HeaderFieldError::TextEnd
    } else if k == 2 {
        HeaderFieldError::DataStart
    } else if k == 3 {
        HeaderFieldError::DataEnd
    } else if k == 4 {
        HeaderFieldError::AnalysisStart
    } else {
        HeaderFieldError::AnalysisEnd
    }
}

} // verus!
