//! The capture-instant key of a photo, read from two EXIF field texts.
use vstd::prelude::*;
use crate::text::{decimal, digit_char, lemma_decimal_len_pow, padded, pow10, push_char, push_padded, zeros};

verus! {

/// Declared so that chrono's parse error can pass through a wrapper.
#[verifier::external_type_specification]
#[verifier::external_body]
pub struct ExParseError(chrono::format::ParseError);

/// Declared so that a decoded EXIF container can be handed to the key constructor.
#[verifier::external_type_specification]
#[verifier::external_body]
pub struct ExExif(exif::Exif);

/// Why the two time fields could not be turned into a key.
#[derive(Debug, Clone, Copy, PartialEq, Eq)]
pub enum DateTimeError {
    /// The date-time text is not `YYYY-MM-DD HH:MM:SS` or not a real calendar instant.
    ParseDateTimeError,
    /// The sub-second text is not an unsigned base-10 integer below 65536.
    ParseMillisError,
    /// The container has no date-time field.
    NoDateTime,
    /// The container has no sub-second field.
    NoMilliseconds,
}

/// A capture instant to millisecond precision. Fields are ordered from the most
/// significant to the least, so the derived order is chronological.
#[derive(Debug, Clone, Copy, PartialEq, Eq, Structural, PartialOrd, Ord, Hash)]
pub struct PhotoDate {
    pub year: u16,
    pub month: u8,
    pub day: u8,
    pub hour: u8,
    pub minute: u8,
    pub second: u8,
    pub millis: u16,
}

/// The pattern that the date-time field must follow, in chrono's notation.
pub const DATE_TIME_FORMAT: &'static str = "%Y-%m-%d %H:%M:%S";

/// Whether chrono's `NaiveDateTime::parse_from_str` accepts `text` under `format`.
pub uninterp spec fn chrono_accepts(text: Seq<char>, format: Seq<char>) -> bool;

/// Relies on chrono::NaiveDateTime::parse_from_str: succeeds exactly when `text`
/// is read by `format` as a valid calendar date and time.
#[verifier::external_body]
fn parse_naive_date_time(text: &str, format: &str) -> (r: Result<(), chrono::format::ParseError>)
    ensures
        r is Ok == chrono_accepts(text@, format@),
{
    chrono::NaiveDateTime::parse_from_str(text, format).map(|_| ())
}

/// The displayed texts of a container's primary DateTime and SubSecTime
/// fields, where present.
pub uninterp spec fn exif_time_texts(exif: exif::Exif) -> (Option<Seq<char>>, Option<Seq<char>>);

/// The view of an optional string.
pub open spec fn opt_view(s: Option<String>) -> Option<Seq<char>> {
    match s {
        Some(x) => Some(x@),
        None => None,
    }
}

/// Relies on exif::Exif::get_field and exif::Field::display_value: the displayed
/// text of the primary image's DateTime and SubSecTime fields, where present,
/// which depends on the container alone.
#[verifier::external_body]
fn primary_time_fields(exif: &exif::Exif) -> (r: (Option<String>, Option<String>))
    ensures
        (opt_view(r.0), opt_view(r.1)) == exif_time_texts(*exif),
{
    let date_time = exif.get_field(exif::Tag::DateTime, exif::In::PRIMARY).map(|f| f.display_value().to_string());
    let subsec = exif.get_field(exif::Tag::SubSecTime, exif::In::PRIMARY).map(|f| f.display_value().to_string());
    (date_time, subsec)
}

pub open spec fn is_digit(c: char) -> bool {
    '0' <= c && c <= '9'
}

pub open spec fn digit_value(c: char) -> int {
    c as int - '0' as int
}

/// Value of the two digits at `i` and `i + 1`.
pub open spec fn two_digits(s: Seq<char>, i: int) -> int {
    digit_value(s[i]) * 10 + digit_value(s[i + 1])
}

/// The exact shape `YYYY-MM-DD HH:MM:SS`.
pub open spec fn has_date_time_shape(s: Seq<char>) -> bool {
    &&& s.len() == 19
    &&& s[4] == '-' && s[7] == '-' && s[10] == ' ' && s[13] == ':' && s[16] == ':'
    &&& forall|i: int|
        0 <= i < 19 && i != 4 && i != 7 && i != 10 && i != 13 && i != 16 ==> is_digit(#[trigger] s[i])
}

/// Value of a string of decimal digits.
pub open spec fn digits_value(s: Seq<char>) -> int
    decreases s.len(),
{
    if s.len() == 0 {
        0
    } else {
        digits_value(s.drop_last()) * 10 + digit_value(s.last())
    }
}

pub open spec fn all_digits(s: Seq<char>) -> bool {
    forall|i: int| 0 <= i < s.len() ==> is_digit(#[trigger] s[i])
}

/// The sub-second text without one enclosing double quote on each side.
pub open spec fn unquoted(s: Seq<char>) -> Seq<char> {
    let a = if s.len() > 0 && s[0] == '"' { s.drop_first() } else { s };
    if a.len() > 0 && a.last() == '"' { a.drop_last() } else { a }
}

/// The digits of an unsigned integer text, after an optional `+`.
pub open spec fn unsigned_digits(t: Seq<char>) -> Seq<char> {
    if t.len() > 0 && t[0] == '+' { t.drop_first() } else { t }
}

/// The millisecond count that a sub-second text denotes, if it denotes one.
pub open spec fn millis_of(s: Seq<char>) -> Option<u16> {
    let d = unsigned_digits(unquoted(s));
    if d.len() > 0 && all_digits(d) && digits_value(d) <= 65535 {
        Some(digits_value(d) as u16)
    } else {
        None
    }
}

/// The key whose fields are the numbers written in a date-time text of the
/// right shape, with `millis`.
pub open spec fn key_of(s: Seq<char>, millis: u16) -> PhotoDate {
    PhotoDate {
        year: (two_digits(s, 0) * 100 + two_digits(s, 2)) as u16,
        month: two_digits(s, 5) as u8,
        day: two_digits(s, 8) as u8,
        hour: two_digits(s, 11) as u8,
        minute: two_digits(s, 14) as u8,
        second: two_digits(s, 17) as u8,
        millis,
    }
}

/// The key, or the error, for two present field texts, where `calendar_ok`
/// says whether the date-time text names a real calendar instant.
pub open spec fn parse_spec(date_time: Seq<char>, subsec: Seq<char>, calendar_ok: bool) -> Result<PhotoDate, DateTimeError> {
    if !has_date_time_shape(date_time) || !calendar_ok {
        Err(DateTimeError::ParseDateTimeError)
    } else {
        match millis_of(subsec) {
            None => Err(DateTimeError::ParseMillisError),
            Some(m) => Ok(key_of(date_time, m)),
        }
    }
}

/// The key, or the error, for two field texts that may be absent; the
/// calendar is judged by chrono under `DATE_TIME_FORMAT`.
pub open spec fn decode_spec(date_time: Option<Seq<char>>, subsec: Option<Seq<char>>) -> Result<PhotoDate, DateTimeError> {
    match date_time {
        None => Err(DateTimeError::NoDateTime),
        Some(d) => match subsec {
            None => Err(DateTimeError::NoMilliseconds),
            Some(s) => parse_spec(d, s, chrono_accepts(d, DATE_TIME_FORMAT@)),
        },
    }
}

/// Strict chronological order: by date, then time of day, then milliseconds.
pub open spec fn precedes(a: PhotoDate, b: PhotoDate) -> bool {
    a.year < b.year || (a.year == b.year && (a.month < b.month || (a.month == b.month && (a.day
        < b.day || (a.day == b.day && (a.hour < b.hour || (a.hour == b.hour && (a.minute
        < b.minute || (a.minute == b.minute && (a.second < b.second || (a.second == b.second
        && a.millis < b.millis)))))))))))
}

/// The output folder name of a key: its date as `YYYY_MM_DD`.
pub open spec fn folder_text(k: PhotoDate) -> Seq<char> {
    padded(k.year as nat, 4) + seq!['_'] + padded(k.month as nat, 2) + seq!['_'] + padded(k.day as nat, 2)
}

/// The numbers that two field texts write, most significant first: year,
/// month, day, hour, minute, second, milliseconds.
pub open spec fn instant_of(date_time: Seq<char>, subsec: Seq<char>) -> Seq<int> {
    seq![
        two_digits(date_time, 0) * 100 + two_digits(date_time, 2),
        two_digits(date_time, 5),
        two_digits(date_time, 8),
        two_digits(date_time, 11),
        two_digits(date_time, 14),
        two_digits(date_time, 17),
        digits_value(unsigned_digits(unquoted(subsec))),
    ]
}

/// `a` comes before `b` in lexicographic order of equal-length sequences.
pub open spec fn lex_before(a: Seq<int>, b: Seq<int>) -> bool {
    exists|i: int|
        0 <= i < a.len() && i < b.len() && a[i] < b[i] && (forall|j: int| 0 <= j < i ==> #[trigger] a[j] == b[j])
}

/// The fields are small enough to be written with the digits of the pattern.
pub open spec fn in_pattern_range(k: PhotoDate) -> bool {
    k.year <= 9999 && k.month <= 99 && k.day <= 99 && k.hour <= 99 && k.minute <= 99 && k.second <= 99
}

proof fn lemma_key_of(s: Seq<char>, ss: Seq<char>, c: bool)
    requires
        parse_spec(s, ss, c) is Ok,
    ensures
        ({
            let k = parse_spec(s, ss, c)->Ok_0;
            let v = instant_of(s, ss);
            &&& in_pattern_range(k)
            &&& k.year == v[0] && k.month == v[1] && k.day == v[2]
            &&& k.hour == v[3] && k.minute == v[4] && k.second == v[5] && k.millis == v[6]
        }),
{
    let is = |i: int| is_digit(s[i]);
    assert(is(0) && is(1) && is(2) && is(3) && is(5) && is(6) && is(8) && is(9));
    assert(is(11) && is(12) && is(14) && is(15) && is(17) && is(18));
    let d = unsigned_digits(unquoted(ss));
    lemma_digits_value_nonneg(d);
}

/// Keys keep the order of the instants written in their field texts: an
/// earlier instant, to the millisecond, gives a key that comes first, and the
/// same instant gives the same key.
pub proof fn lemma_parse_keeps_order(
    d1: Seq<char>,
    s1: Seq<char>,
    c1: bool,
    d2: Seq<char>,
    s2: Seq<char>,
    c2: bool,
)
    requires
        parse_spec(d1, s1, c1) is Ok,
        parse_spec(d2, s2, c2) is Ok,
    ensures
        lex_before(instant_of(d1, s1), instant_of(d2, s2)) ==> precedes(
            parse_spec(d1, s1, c1)->Ok_0,
            parse_spec(d2, s2, c2)->Ok_0,
        ),
        instant_of(d1, s1) == instant_of(d2, s2) ==> parse_spec(d1, s1, c1)->Ok_0 == parse_spec(d2, s2, c2)->Ok_0,
{
    lemma_key_of(d1, s1, c1);
    lemma_key_of(d2, s2, c2);
    let a = instant_of(d1, s1);
    let b = instant_of(d2, s2);
    if lex_before(a, b) {
        let i = choose|i: int|
            0 <= i < a.len() && i < b.len() && a[i] < b[i] && (forall|j: int| 0 <= j < i ==> #[trigger] a[j] == b[j]);
        assert(i > 0 ==> a[0] == b[0]);
        assert(i > 1 ==> a[1] == b[1]);
        assert(i > 2 ==> a[2] == b[2]);
        assert(i > 3 ==> a[3] == b[3]);
        assert(i > 4 ==> a[4] == b[4]);
        assert(i > 5 ==> a[5] == b[5]);
    }
    if a == b {
        assert(a[0] == b[0] && a[1] == b[1] && a[2] == b[2] && a[3] == b[3]);
        assert(a[4] == b[4] && a[5] == b[5] && a[6] == b[6]);
    }
}

proof fn lemma_decimal_value(n: nat)
    ensures
        digits_value(decimal(n)) == n,
        all_digits(decimal(n)),
    decreases n,
{
    if n < 10 {
        let d = decimal(n);
        assert(d.drop_last() =~= Seq::<char>::empty());
        assert(digits_value(d) == digits_value(d.drop_last()) * 10 + digit_value(d.last()));
    } else {
        lemma_decimal_value(n / 10);
        let d = decimal(n);
        assert(d.drop_last() == decimal(n / 10));
        assert(digit_value(digit_char(n % 10)) == n % 10);
        assert((n / 10) * 10 + n % 10 == n) by (nonlinear_arith);
        assert(digits_value(d) == digits_value(decimal(n / 10)) * 10 + digit_value(d.last()));
    }
}

proof fn lemma_zeros_prefix(k: nat, s: Seq<char>)
    ensures
        digits_value(zeros(k) + s) == digits_value(s),
        all_digits(s) ==> all_digits(zeros(k) + s),
    decreases s.len(), k,
{
    if s.len() == 0 {
        assert(zeros(k) + s =~= zeros(k));
        if k > 0 {
            lemma_zeros_prefix((k - 1) as nat, s);
            assert(zeros(k).drop_last() =~= zeros((k - 1) as nat) + s);
        }
        assert forall|i: int| 0 <= i < zeros(k).len() implies is_digit(#[trigger] zeros(k)[i]) by {
            lemma_zeros_all(k, i);
        }
    } else {
        lemma_zeros_prefix(k, s.drop_last());
        assert((zeros(k) + s).drop_last() =~= zeros(k) + s.drop_last());
        if all_digits(s) {
            assert forall|i: int| 0 <= i < (zeros(k) + s).len() implies is_digit(#[trigger] (zeros(k) + s)[i]) by {
                if i < zeros(k).len() {
                    lemma_zeros_all(k, i);
                } else {
                    assert((zeros(k) + s)[i] == s[i - zeros(k).len()]);
                }
            }
        }
    }
}

proof fn lemma_zeros_all(k: nat, i: int)
    requires
        0 <= i < zeros(k).len(),
    ensures
        zeros(k)[i] == '0',
        zeros(k).len() == k,
    decreases k,
{
    lemma_zeros_len(k);
    if i < k - 1 {
        lemma_zeros_all((k - 1) as nat, i);
    }
}

proof fn lemma_zeros_len(k: nat)
    ensures
        zeros(k).len() == k,
    decreases k,
{
    if k > 0 {
        lemma_zeros_len((k - 1) as nat);
    }
}

proof fn lemma_padded(n: nat, w: nat)
    requires
        1 <= w,
        n < pow10(w),
    ensures
        padded(n, w).len() == w,
        digits_value(padded(n, w)) == n,
{
    lemma_decimal_len_pow(n, w);
    lemma_decimal_value(n);
    if decimal(n).len() < w {
        let k = (w - decimal(n).len()) as nat;
        lemma_zeros_len(k);
        lemma_zeros_prefix(k, decimal(n));
    }
}

/// Two keys in the pattern's range get the same folder name exactly when
/// they fall on the same calendar date; time of day and milliseconds do not
/// matter.
pub proof fn lemma_folder_by_date(a: PhotoDate, b: PhotoDate)
    requires
        in_pattern_range(a),
        in_pattern_range(b),
    ensures
        folder_text(a) == folder_text(b) <==> (a.year == b.year && a.month == b.month && a.day == b.day),
{
    reveal_with_fuel(pow10, 5);
    lemma_padded(a.year as nat, 4);
    lemma_padded(b.year as nat, 4);
    lemma_padded(a.month as nat, 2);
    lemma_padded(b.month as nat, 2);
    lemma_padded(a.day as nat, 2);
    lemma_padded(b.day as nat, 2);
    let fa = folder_text(a);
    let fb = folder_text(b);
    if fa == fb {
        assert(fa.subrange(0, 4) =~= padded(a.year as nat, 4));
        assert(fb.subrange(0, 4) =~= padded(b.year as nat, 4));
        assert(fa.subrange(5, 7) =~= padded(a.month as nat, 2));
        assert(fb.subrange(5, 7) =~= padded(b.month as nat, 2));
        assert(fa.subrange(8, 10) =~= padded(a.day as nat, 2));
        assert(fb.subrange(8, 10) =~= padded(b.day as nat, 2));
    }
}

fn char_digit(c: char) -> (r: u32)
    requires
        is_digit(c),
    ensures
        r as int == digit_value(c),
        r < 10,
{
    (c as u32) - ('0' as u32)
}

fn read_two(s: &str, i: usize) -> (r: u32)
    requires
        i < 18,
        i + 1 < s@.len(),
        is_digit(s@[i as int]),
        is_digit(s@[i + 1]),
    ensures
        r as int == two_digits(s@, i as int),
        r < 100,
{
    char_digit(s.get_char(i)) * 10 + char_digit(s.get_char(i + 1))
}

fn check_shape(s: &str) -> (r: bool)
    ensures
        r == has_date_time_shape(s@),
{
    if s.unicode_len() != 19 {
        return false;
    }
    let mut i: usize = 0;
    while i < 19
        invariant
            s@.len() == 19,
            i <= 19,
            forall|j: int|
                0 <= j < i ==> (if j == 4 || j == 7 { s@[j] == '-' } else if j == 10 {
                    s@[j] == ' '
                } else if j == 13 || j == 16 {
                    s@[j] == ':'
                } else {
                    is_digit(s@[j])
                }),
        decreases 19 - i,
    {
        let c = s.get_char(i);
        let ok = if i == 4 || i == 7 {
            c == '-'
        } else if i == 10 {
            c == ' '
        } else if i == 13 || i == 16 {
            c == ':'
        } else {
            '0' <= c && c <= '9'
        };
        if !ok {
            return false;
        }
        i = i + 1;
    }
    assert(s@[4] == '-' && s@[7] == '-' && s@[10] == ' ' && s@[13] == ':' && s@[16] == ':');
    true
}

proof fn lemma_digits_value_nonneg(s: Seq<char>)
    requires
        all_digits(s),
    ensures
        digits_value(s) >= 0,
    decreases s.len(),
{
    if s.len() > 0 {
        assert(is_digit(s[s.len() - 1]));
        lemma_digits_value_nonneg(s.drop_last());
    }
}

proof fn lemma_digits_value_grows(s: Seq<char>, i: int)
    requires
        all_digits(s),
        0 <= i <= s.len(),
    ensures
        digits_value(s.subrange(0, i)) <= digits_value(s),
    decreases s.len() - i,
{
    if i < s.len() {
        lemma_digits_value_grows(s, i + 1);
        let p = s.subrange(0, i + 1);
        assert(p.drop_last() == s.subrange(0, i));
        assert(is_digit(s[i]));
        lemma_digits_value_nonneg(s.subrange(0, i));
        assert(digits_value(p) == digits_value(s.subrange(0, i)) * 10 + digit_value(s[i]));
    } else {
        assert(s.subrange(0, i) == s);
    }
}

/// Reads the millisecond count from a sub-second text.
fn parse_millis(s: &str) -> (r: Option<u16>)
    ensures
        r == millis_of(s@),
{
    let n = s.unicode_len();
    let mut lo: usize = 0;
    let mut hi: usize = n;
    if lo < hi && s.get_char(0) == '"' {
        lo = 1;
    }
    if lo < hi && s.get_char(hi - 1) == '"' {
        hi = hi - 1;
    }
    assert(unquoted(s@) == s@.subrange(lo as int, hi as int));
    if lo < hi && s.get_char(lo) == '+' {
        lo = lo + 1;
    }
    let ghost d = s@.subrange(lo as int, hi as int);
    assert(d == unsigned_digits(unquoted(s@)));
    if lo >= hi {
        return None;
    }
    let mut v: u32 = 0;
    let mut i: usize = lo;
    while i < hi
        invariant
            lo <= i <= hi <= n,
            n == s@.len(),
            d == s@.subrange(lo as int, hi as int),
            d == unsigned_digits(unquoted(s@)),
            all_digits(d.subrange(0, i - lo)),
            v as int == digits_value(d.subrange(0, i - lo)),
            v <= 65535,
        decreases hi - i,
    {
        let c = s.get_char(i);
        if !('0' <= c && c <= '9') {
            assert(d[i - lo] == c);
            assert(!all_digits(d));
            return None;
        }
        let ghost p = d.subrange(0, i + 1 - lo);
        assert(p.drop_last() == d.subrange(0, i - lo));
        assert(p.last() == c);
        v = v * 10 + char_digit(c);
        if v > 65535 {
            proof {
                assert(all_digits(p));
                assert(digits_value(p) > 65535);
                if all_digits(d) {
                    lemma_digits_value_grows(d, i + 1 - lo);
                }
            }
            return None;
        }
        i = i + 1;
    }
    assert(d.subrange(0, i - lo) == d);
    Some(v as u16)
}

impl PhotoDate {
    /// The key for two present field texts, where `calendar_ok` is chrono's
    /// verdict on the date-time text.
    pub fn parse(date_time: &str, subsec: &str, calendar_ok: bool) -> (r: Result<PhotoDate, DateTimeError>)
        ensures
            r == parse_spec(date_time@, subsec@, calendar_ok),
            r is Ok ==> in_pattern_range(r->Ok_0),
    {
        if !check_shape(date_time) || !calendar_ok {
            return Err(DateTimeError::ParseDateTimeError);
        }
        match parse_millis(subsec) {
            None => Err(DateTimeError::ParseMillisError),
            Some(millis) => {
                proof {
                    if parse_spec(date_time@, subsec@, calendar_ok) is Ok {
                        lemma_key_of(date_time@, subsec@, calendar_ok);
                    }
                }
                let y = read_two(date_time, 0) * 100 + read_two(date_time, 2);
                Ok(PhotoDate {
                    year: y as u16,
                    month: read_two(date_time, 5) as u8,
                    day: read_two(date_time, 8) as u8,
                    hour: read_two(date_time, 11) as u8,
                    minute: read_two(date_time, 14) as u8,
                    second: read_two(date_time, 17) as u8,
                    millis,
                })
            },
        }
    }

    /// The key for two field texts that may be absent.
    pub fn from_fields(date_time: Option<&str>, subsec: Option<&str>) -> (r: Result<PhotoDate, DateTimeError>)
        ensures
            r == decode_spec(
                match date_time { Some(d) => Some(d@), None => None },
                match subsec { Some(s) => Some(s@), None => None },
            ),
    {
        match date_time {
            None => Err(DateTimeError::NoDateTime),
            Some(d) => match subsec {
                None => Err(DateTimeError::NoMilliseconds),
                Some(s) => {
                    let calendar_ok = parse_naive_date_time(d, DATE_TIME_FORMAT).is_ok();
                    PhotoDate::parse(d, s, calendar_ok)
                },
            },
        }
    }

    /// The key of a decoded EXIF container, from its primary image's DateTime
    /// and SubSecTime fields.
    pub fn new(exif: &exif::Exif) -> (r: Result<PhotoDate, DateTimeError>)
        ensures
            r == decode_spec(exif_time_texts(*exif).0, exif_time_texts(*exif).1),
    {
        let (d, s) = primary_time_fields(exif);
        let r = match (&d, &s) {
            (Some(dt), Some(ss)) => PhotoDate::from_fields(Some(dt.as_str()), Some(ss.as_str())),
            (Some(dt), None) => PhotoDate::from_fields(Some(dt.as_str()), None),
            (None, Some(ss)) => PhotoDate::from_fields(None, Some(ss.as_str())),
            (None, None) => PhotoDate::from_fields(None, None),
        };
        r
    }

    /// Whether `self` comes strictly before `other` in time.
    pub fn is_before(&self, other: &PhotoDate) -> (r: bool)
        ensures
            r == precedes(*self, *other),
    {
        if self.year != other.year {
            return self.year < other.year;
        }
        if self.month != other.month {
            return self.month < other.month;
        }
        if self.day != other.day {
            return self.day < other.day;
        }
        if self.hour != other.hour {
            return self.hour < other.hour;
        }
        if self.minute != other.minute {
            return self.minute < other.minute;
        }
        if self.second != other.second {
            return self.second < other.second;
        }
        self.millis < other.millis
    }

    /// The output folder name: the date as `YYYY_MM_DD`.
    pub fn folder_name(&self) -> (r: String)
        ensures
            r@ == folder_text(*self),
    {
        let mut s = String::new();
        push_padded(&mut s, self.year as u64, 4);
        push_char(&mut s, '_');
        push_padded(&mut s, self.month as u64, 2);
        push_char(&mut s, '_');
        push_padded(&mut s, self.day as u64, 2);
        s
    }
}

} // verus!
