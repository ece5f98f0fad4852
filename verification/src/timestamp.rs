use vstd::prelude::*;
use vstd::string::StrSliceExecFns;

use crate::error::StorageError;
use crate::strutil::push_char;

verus! {

/// A timezone-aware creation timestamp, held as plain calendar and clock
/// components plus a UTC offset in minutes. Both backends persist it in the
/// same fixed textual format (`YYYY-MM-DDThh:mm:ssZ`, or `±hh:mm` in place of
/// `Z` for a non-zero offset), so values round-trip between the backends.
#[derive(Clone, Copy, Debug, PartialEq, Eq, Structural)]
pub struct Timestamp {
    pub year: u16,
    pub month: u8,
    pub day: u8,
    pub hour: u8,
    pub minute: u8,
    pub second: u8,
    /// UTC offset in minutes, negative for offsets west of UTC.
    pub offset_minutes: i32,
}

pub open spec fn is_leap_year(y: int) -> bool {
    (y % 4 == 0 && y % 100 != 0) || y % 400 == 0
}

pub open spec fn days_in_month(y: int, m: int) -> int {
    if m == 2 {
        if is_leap_year(y) {
            29
        } else {
            28
        }
    } else if m == 4 || m == 6 || m == 9 || m == 11 {
        30
    } else {
        31
    }
}

impl Timestamp {
    /// A well-formed timestamp: a real calendar date and clock time, with an
    /// offset of strictly less than a full day in either direction.
    pub open spec fn wf(self) -> bool {
        &&& self.year <= 9999
        &&& 1 <= self.month <= 12
        &&& 1 <= self.day <= days_in_month(self.year as int, self.month as int)
        &&& self.hour < 24
        &&& self.minute < 60
        &&& self.second < 60
        &&& -1439 <= self.offset_minutes <= 1439
    }
}

/// The decimal digit character for `d`.
pub open spec fn digit(d: int) -> char {
    if d == 0 {
        '0'
    } else if d == 1 {
        '1'
    } else if d == 2 {
        '2'
    } else if d == 3 {
        '3'
    } else if d == 4 {
        '4'
    } else if d == 5 {
        '5'
    } else if d == 6 {
        '6'
    } else if d == 7 {
        '7'
    } else if d == 8 {
        '8'
    } else {
        '9'
    }
}

pub open spec fn two_digits(n: int) -> Seq<char> {
    seq![digit(n / 10), digit(n % 10)]
}

pub open spec fn four_digits(n: int) -> Seq<char> {
    seq![digit(n / 1000), digit((n / 100) % 10), digit((n / 10) % 10), digit(n % 10)]
}

pub open spec fn abs_minutes(off: int) -> int {
    if off >= 0 {
        off
    } else {
        -off
    }
}

/// The offset suffix: `Z` for UTC, otherwise a sign and `hh:mm`.
pub open spec fn offset_chars(off: int) -> Seq<char> {
    if off == 0 {
        seq!['Z']
    } else {
        seq![if off > 0 { '+' } else { '-' }] + two_digits(abs_minutes(off) / 60) + seq![':']
            + two_digits(abs_minutes(off) % 60)
    }
}

/// The fixed textual form of a timestamp: date, `T`, time, offset suffix.
pub open spec fn rfc3339(t: Timestamp) -> Seq<char> {
    four_digits(t.year as int) + seq!['-'] + two_digits(t.month as int) + seq!['-'] + two_digits(
        t.day as int,
    ) + seq!['T'] + two_digits(t.hour as int) + seq![':'] + two_digits(t.minute as int) + seq![':']
        + two_digits(t.second as int) + offset_chars(t.offset_minutes as int)
}

pub proof fn lemma_digit_injective(a: int, b: int)
    requires
        0 <= a < 10,
        0 <= b < 10,
        digit(a) == digit(b),
    ensures
        a == b,
{
}

proof fn lemma_two_digit_bounds(n: int)
    requires
        0 <= n < 100,
    ensures
        0 <= n / 10 < 10,
        0 <= n % 10 < 10,
        n == (n / 10) * 10 + n % 10,
{
}

proof fn lemma_four_digit_bounds(n: int)
    requires
        0 <= n < 10000,
    ensures
        0 <= n / 1000 < 10,
        0 <= (n / 100) % 10 < 10,
        0 <= (n / 10) % 10 < 10,
        0 <= n % 10 < 10,
        n == (n / 1000) * 1000 + ((n / 100) % 10) * 100 + ((n / 10) % 10) * 10 + n % 10,
{
    assert(n == (n / 1000) * 1000 + ((n / 100) % 10) * 100 + ((n / 10) % 10) * 10 + n % 10)
        by (nonlinear_arith)
        requires
            0 <= n < 10000,
    ;
}

/// Where each character of the fixed form stands, for a well-formed timestamp.
proof fn lemma_shape(t: Timestamp)
    requires
        t.wf(),
    ensures
        rfc3339(t).len() == if t.offset_minutes == 0 { 20int } else { 25int },
        rfc3339(t)[0] == digit(t.year as int / 1000),
        rfc3339(t)[1] == digit((t.year as int / 100) % 10),
        rfc3339(t)[2] == digit((t.year as int / 10) % 10),
        rfc3339(t)[3] == digit(t.year as int % 10),
        rfc3339(t)[4] == '-',
        rfc3339(t)[5] == digit(t.month as int / 10),
        rfc3339(t)[6] == digit(t.month as int % 10),
        rfc3339(t)[7] == '-',
        rfc3339(t)[8] == digit(t.day as int / 10),
        rfc3339(t)[9] == digit(t.day as int % 10),
        rfc3339(t)[10] == 'T',
        rfc3339(t)[11] == digit(t.hour as int / 10),
        rfc3339(t)[12] == digit(t.hour as int % 10),
        rfc3339(t)[13] == ':',
        rfc3339(t)[14] == digit(t.minute as int / 10),
        rfc3339(t)[15] == digit(t.minute as int % 10),
        rfc3339(t)[16] == ':',
        rfc3339(t)[17] == digit(t.second as int / 10),
        rfc3339(t)[18] == digit(t.second as int % 10),
        t.offset_minutes == 0 ==> rfc3339(t)[19] == 'Z',
        t.offset_minutes > 0 ==> rfc3339(t)[19] == '+',
        t.offset_minutes < 0 ==> rfc3339(t)[19] == '-',
        t.offset_minutes != 0 ==> rfc3339(t)[20] == digit(
            abs_minutes(t.offset_minutes as int) / 60 / 10,
        ),
        t.offset_minutes != 0 ==> rfc3339(t)[21] == digit(
            abs_minutes(t.offset_minutes as int) / 60 % 10,
        ),
        t.offset_minutes != 0 ==> rfc3339(t)[22] == ':',
        t.offset_minutes != 0 ==> rfc3339(t)[23] == digit(
            abs_minutes(t.offset_minutes as int) % 60 / 10,
        ),
        t.offset_minutes != 0 ==> rfc3339(t)[24] == digit(
            abs_minutes(t.offset_minutes as int) % 60 % 10,
        ),
{
}

/// The fixed form determines the timestamp: no two well-formed timestamps
/// share a rendering. Together with the parser's contract this makes the
/// format lossless across both backends.
pub proof fn lemma_rfc3339_injective(t1: Timestamp, t2: Timestamp)
    requires
        t1.wf(),
        t2.wf(),
        rfc3339(t1) == rfc3339(t2),
    ensures
        t1 == t2,
{
    lemma_shape(t1);
    lemma_shape(t2);
    lemma_four_digit_bounds(t1.year as int);
    lemma_four_digit_bounds(t2.year as int);
    lemma_digit_injective(t1.year as int / 1000, t2.year as int / 1000);
    lemma_digit_injective((t1.year as int / 100) % 10, (t2.year as int / 100) % 10);
    lemma_digit_injective((t1.year as int / 10) % 10, (t2.year as int / 10) % 10);
    lemma_digit_injective(t1.year as int % 10, t2.year as int % 10);
    assert(t1.year == t2.year);
    lemma_two_digit_bounds(t1.month as int);
    lemma_two_digit_bounds(t2.month as int);
    lemma_digit_injective(t1.month as int / 10, t2.month as int / 10);
    lemma_digit_injective(t1.month as int % 10, t2.month as int % 10);
    assert(t1.month == t2.month);
    lemma_two_digit_bounds(t1.day as int);
    lemma_two_digit_bounds(t2.day as int);
    lemma_digit_injective(t1.day as int / 10, t2.day as int / 10);
    lemma_digit_injective(t1.day as int % 10, t2.day as int % 10);
    assert(t1.day == t2.day);
    lemma_two_digit_bounds(t1.hour as int);
    lemma_two_digit_bounds(t2.hour as int);
    lemma_digit_injective(t1.hour as int / 10, t2.hour as int / 10);
    lemma_digit_injective(t1.hour as int % 10, t2.hour as int % 10);
    assert(t1.hour == t2.hour);
    lemma_two_digit_bounds(t1.minute as int);
    lemma_two_digit_bounds(t2.minute as int);
    lemma_digit_injective(t1.minute as int / 10, t2.minute as int / 10);
    lemma_digit_injective(t1.minute as int % 10, t2.minute as int % 10);
    assert(t1.minute == t2.minute);
    lemma_two_digit_bounds(t1.second as int);
    lemma_two_digit_bounds(t2.second as int);
    lemma_digit_injective(t1.second as int / 10, t2.second as int / 10);
    lemma_digit_injective(t1.second as int % 10, t2.second as int % 10);
    assert(t1.second == t2.second);
    if t1.offset_minutes == 0 {
        assert(t2.offset_minutes == 0);
    } else {
        assert(t2.offset_minutes != 0);
        let a1 = abs_minutes(t1.offset_minutes as int);
        let a2 = abs_minutes(t2.offset_minutes as int);
        lemma_two_digit_bounds(a1 / 60);
        lemma_two_digit_bounds(a2 / 60);
        lemma_two_digit_bounds(a1 % 60);
        lemma_two_digit_bounds(a2 % 60);
        lemma_digit_injective(a1 / 60 / 10, a2 / 60 / 10);
        lemma_digit_injective(a1 / 60 % 10, a2 / 60 % 10);
        lemma_digit_injective(a1 % 60 / 10, a2 % 60 / 10);
        lemma_digit_injective(a1 % 60 % 10, a2 % 60 % 10);
        assert(a1 / 60 == a2 / 60 && a1 % 60 == a2 % 60);
        assert(a1 == a2);
        assert((t1.offset_minutes > 0) == (t2.offset_minutes > 0));
    }
}

/// The fixed form never contains a quote or a newline, so it can stand
/// between delimiters of the document format without an escape.
#[verifier::rlimit(100)]
pub proof fn lemma_rfc3339_no_specials(t: Timestamp)
    requires
        t.wf(),
    ensures
        forall|k: int|
            0 <= k < rfc3339(t).len() ==> #[trigger] rfc3339(t)[k] != '"' && rfc3339(t)[k] != '\n',
{
    lemma_shape(t);
    assert forall|k: int|
        0 <= k < rfc3339(t).len() implies #[trigger] rfc3339(t)[k] != '"' && rfc3339(t)[k]
        != '\n' by {
        if k == 4 || k == 7 {
        } else if k == 10 {
        } else if k == 13 || k == 16 {
        } else if k == 19 {
        } else if k == 22 {
        }
    }
}

fn digit_char(d: u8) -> (c: char)
    requires
        d < 10,
    ensures
        c == digit(d as int),
{
    match d {
        0 => '0',
        1 => '1',
        2 => '2',
        3 => '3',
        4 => '4',
        5 => '5',
        6 => '6',
        7 => '7',
        8 => '8',
        _ => '9',
    }
}

fn push_two_digits(s: &mut String, n: u8)
    requires
        n < 100,
    ensures
        final(s)@ == old(s)@ + two_digits(n as int),
{
    push_char(s, digit_char(n / 10));
    push_char(s, digit_char(n % 10));
    assert(s@ =~= old(s)@ + two_digits(n as int));
}

fn push_four_digits(s: &mut String, n: u16)
    requires
        n <= 9999,
    ensures
        final(s)@ == old(s)@ + four_digits(n as int),
{
    proof {
        lemma_four_digit_bounds(n as int);
    }
    push_char(s, digit_char((n / 1000) as u8));
    push_char(s, digit_char(((n / 100) % 10) as u8));
    push_char(s, digit_char(((n / 10) % 10) as u8));
    push_char(s, digit_char((n % 10) as u8));
    assert(s@ =~= old(s)@ + four_digits(n as int));
}

impl Timestamp {
    /// Whether the components form a real calendar date and clock time;
    /// mirrors `wf` for callers outside the proofs.
    pub fn valid(&self) -> (r: bool)
        ensures
            r == self.wf(),
    {
        self.year <= 9999 && 1 <= self.month && self.month <= 12 && 1 <= self.day && self.day
            <= days_in_month_exec(self.year, self.month) && self.hour < 24 && self.minute < 60
            && self.second < 60 && -1439 <= self.offset_minutes && self.offset_minutes <= 1439
    }

    /// Render this timestamp in the fixed format shared by both backends.
    pub fn format(&self) -> (s: String)
        requires
            self.wf(),
        ensures
            s@ == rfc3339(*self),
    {
        let mut s = String::new();
        push_four_digits(&mut s, self.year);
        push_char(&mut s, '-');
        push_two_digits(&mut s, self.month);
        push_char(&mut s, '-');
        push_two_digits(&mut s, self.day);
        push_char(&mut s, 'T');
        push_two_digits(&mut s, self.hour);
        push_char(&mut s, ':');
        push_two_digits(&mut s, self.minute);
        push_char(&mut s, ':');
        push_two_digits(&mut s, self.second);
        if self.offset_minutes == 0 {
            push_char(&mut s, 'Z');
        } else {
            let a: u32 = if self.offset_minutes > 0 {
                push_char(&mut s, '+');
                self.offset_minutes as u32
            } else {
                push_char(&mut s, '-');
                (-self.offset_minutes) as u32
            };
            push_two_digits(&mut s, (a / 60) as u8);
            push_char(&mut s, ':');
            push_two_digits(&mut s, (a % 60) as u8);
        }
        assert(s@ =~= rfc3339(*self));
        s
    }
}

/// Relies on time::OffsetDateTime::now_utc and its component accessors:
/// the current moment in UTC, as calendar and clock components. The crate
/// documents that the components form a valid date and time of day, with
/// the year within its supported range.
#[verifier::external_body]
fn clock_now_utc() -> (r: (i32, u8, u8, u8, u8, u8))
    ensures
        -9999 <= r.0 <= 9999,
        1 <= r.1 <= 12,
        1 <= r.2 <= days_in_month(r.0 as int, r.1 as int),
        r.3 < 24,
        r.4 < 60,
        r.5 < 60,
{
    let t = time::OffsetDateTime::now_utc();
    (t.year(), u8::from(t.month()), t.day(), t.hour(), t.minute(), t.second())
}

/// The current moment in UTC as a timestamp, captured at creation time by
/// the producer of a snippet. `None` only if the clock reports a year
/// before the common era's year zero or after 9999.
pub fn now_utc() -> (r: Option<Timestamp>)
    ensures
        r matches Some(t) ==> t.wf() && t.offset_minutes == 0,
{
    let (year, month, day, hour, minute, second) = clock_now_utc();
    if year < 0 {
        return None;
    }
    Some(
        Timestamp {
            year: year as u16,
            month,
            day,
            hour,
            minute,
            second,
            offset_minutes: 0,
        },
    )
}

/// Reads the digit at position `i`, if the character there is one.
fn digit_at(s: &str, i: usize) -> (r: Option<u8>)
    requires
        i < s@.len(),
    ensures
        r matches Some(d) ==> d < 10 && s@[i as int] == digit(d as int),
        r is None ==> forall|d: int| 0 <= d < 10 ==> s@[i as int] != digit(d),
{
    let c = s.get_char(i);
    let r = match c {
        '0' => Some(0u8),
        '1' => Some(1u8),
        '2' => Some(2u8),
        '3' => Some(3u8),
        '4' => Some(4u8),
        '5' => Some(5u8),
        '6' => Some(6u8),
        '7' => Some(7u8),
        '8' => Some(8u8),
        '9' => Some(9u8),
        _ => None,
    };
    r
}

/// Reads the two-digit number at positions `i`, `i + 1`.
fn two_digits_at(s: &str, i: usize) -> (r: Option<u8>)
    requires
        i < 100,
        i + 1 < s@.len(),
    ensures
        r matches Some(n) ==> n < 100 && s@[i as int] == digit(n as int / 10) && s@[i + 1] == digit(
            n as int % 10,
        ) && (forall|e0: int, e1: int|
            0 <= e0 < 10 && 0 <= e1 < 10 && s@[i as int] == #[trigger] digit(e0) && s@[i + 1]
                == #[trigger] digit(e1) ==> e0 * 10 + e1 == n),
        r is None ==> forall|e0: int, e1: int|
            0 <= e0 < 10 && 0 <= e1 < 10 ==> !(s@[i as int] == #[trigger] digit(e0) && s@[i + 1]
                == #[trigger] digit(e1)),
{
    let d0 = digit_at(s, i);
    let d1 = digit_at(s, i + 1);
    match (d0, d1) {
        (Some(a), Some(b)) => {
            let n: u8 = a * 10 + b;
            proof {
                lemma_two_digit_bounds(n as int);
                assert(n as int / 10 == a as int && n as int % 10 == b as int);
                assert forall|e0: int, e1: int|
                    0 <= e0 < 10 && 0 <= e1 < 10 && s@[i as int] == #[trigger] digit(e0) && s@[i
                        + 1] == #[trigger] digit(e1) implies e0 * 10 + e1 == n by {
                    lemma_digit_injective(e0, a as int);
                    lemma_digit_injective(e1, b as int);
                }
            }
            Some(n)
        },
        _ => {
            None
        },
    }
}

/// Reads the four-digit number at positions `i` .. `i + 3`.
fn four_digits_at(s: &str, i: usize) -> (r: Option<u16>)
    requires
        i < 100,
        i + 3 < s@.len(),
    ensures
        r matches Some(n) ==> n < 10000 && s@[i as int] == digit(n as int / 1000) && s@[i + 1]
            == digit((n as int / 100) % 10) && s@[i + 2] == digit((n as int / 10) % 10) && s@[i + 3]
            == digit(n as int % 10) && (forall|e0: int, e1: int, e2: int, e3: int|
            0 <= e0 < 10 && 0 <= e1 < 10 && 0 <= e2 < 10 && 0 <= e3 < 10 && s@[i as int]
                == #[trigger] digit(e0) && s@[i + 1] == #[trigger] digit(e1) && s@[i + 2]
                == #[trigger] digit(e2) && s@[i + 3] == #[trigger] digit(e3) ==> e0 * 1000 + e1
                * 100 + e2 * 10 + e3 == n),
        r is None ==> forall|e0: int, e1: int, e2: int, e3: int|
            0 <= e0 < 10 && 0 <= e1 < 10 && 0 <= e2 < 10 && 0 <= e3 < 10 ==> !(s@[i as int]
                == #[trigger] digit(e0) && s@[i + 1] == #[trigger] digit(e1) && s@[i + 2]
                == #[trigger] digit(e2) && s@[i + 3] == #[trigger] digit(e3)),
{
    let d0 = digit_at(s, i);
    let d1 = digit_at(s, i + 1);
    let d2 = digit_at(s, i + 2);
    let d3 = digit_at(s, i + 3);
    match (d0, d1, d2, d3) {
        (Some(a), Some(b), Some(c), Some(d)) => {
            let n: u16 = (a as u16) * 1000 + (b as u16) * 100 + (c as u16) * 10 + (d as u16);
            proof {
                lemma_four_digit_bounds(n as int);
                assert(n as int == (a as int) * 1000 + (b as int) * 100 + (c as int) * 10 + (
                d as int));
                assert(n as int / 1000 == a as int && (n as int / 100) % 10 == b as int && (
                n as int / 10) % 10 == c as int && n as int % 10 == d as int) by (nonlinear_arith)
                    requires
                        n as int == (a as int) * 1000 + (b as int) * 100 + (c as int) * 10 + (
                        d as int),
                        0 <= (a as int) && (a as int) < 10,
                        0 <= (b as int) && (b as int) < 10,
                        0 <= (c as int) && (c as int) < 10,
                        0 <= (d as int) && (d as int) < 10,
                ;
                assert forall|e0: int, e1: int, e2: int, e3: int|
                    0 <= e0 < 10 && 0 <= e1 < 10 && 0 <= e2 < 10 && 0 <= e3 < 10 && s@[i as int]
                        == #[trigger] digit(e0) && s@[i + 1] == #[trigger] digit(e1) && s@[i + 2]
                        == #[trigger] digit(e2) && s@[i + 3] == #[trigger] digit(
                        e3,
                    ) implies e0 * 1000 + e1 * 100 + e2 * 10 + e3 == n by {
                    lemma_digit_injective(e0, a as int);
                    lemma_digit_injective(e1, b as int);
                    lemma_digit_injective(e2, c as int);
                    lemma_digit_injective(e3, d as int);
                }
            }
            Some(n)
        },
        _ => {
            None
        },
    }
}

/// How many days the given month has; mirrors `days_in_month`.
pub fn days_in_month_exec(y: u16, m: u8) -> (d: u8)
    requires
        1 <= m <= 12,
    ensures
        d as int == days_in_month(y as int, m as int),
{
    if m == 2 {
        if (y % 4 == 0 && y % 100 != 0) || y % 400 == 0 {
            29
        } else {
            28
        }
    } else if m == 4 || m == 6 || m == 9 || m == 11 {
        30
    } else {
        31
    }
}

/// No well-formed timestamp renders to a text of another length.
proof fn refute_len(v: Seq<char>)
    requires
        v.len() != 20,
        v.len() != 25,
    ensures
        forall|t: Timestamp| t.wf() ==> rfc3339(t) != v,
{
    assert forall|t: Timestamp| t.wf() implies rfc3339(t) != v by {
        lemma_shape(t);
    }
}

/// The pointwise facts of a parsed text, over a candidate timestamp.
pub open spec fn matches_fields(v: Seq<char>, t: Timestamp) -> bool {
    &&& v.len() == if t.offset_minutes == 0 { 20int } else { 25int }
    &&& v[0] == digit(t.year as int / 1000)
    &&& v[1] == digit((t.year as int / 100) % 10)
    &&& v[2] == digit((t.year as int / 10) % 10)
    &&& v[3] == digit(t.year as int % 10)
    &&& v[4] == '-'
    &&& v[5] == digit(t.month as int / 10)
    &&& v[6] == digit(t.month as int % 10)
    &&& v[7] == '-'
    &&& v[8] == digit(t.day as int / 10)
    &&& v[9] == digit(t.day as int % 10)
    &&& v[10] == 'T'
    &&& v[11] == digit(t.hour as int / 10)
    &&& v[12] == digit(t.hour as int % 10)
    &&& v[13] == ':'
    &&& v[14] == digit(t.minute as int / 10)
    &&& v[15] == digit(t.minute as int % 10)
    &&& v[16] == ':'
    &&& v[17] == digit(t.second as int / 10)
    &&& v[18] == digit(t.second as int % 10)
    &&& t.offset_minutes == 0 ==> v[19] == 'Z'
    &&& t.offset_minutes > 0 ==> v[19] == '+'
    &&& t.offset_minutes < 0 ==> v[19] == '-'
    &&& t.offset_minutes != 0 ==> v[20] == digit(abs_minutes(t.offset_minutes as int) / 60 / 10)
    &&& t.offset_minutes != 0 ==> v[21] == digit(abs_minutes(t.offset_minutes as int) / 60 % 10)
    &&& t.offset_minutes != 0 ==> v[22] == ':'
    &&& t.offset_minutes != 0 ==> v[23] == digit(abs_minutes(t.offset_minutes as int) % 60 / 10)
    &&& t.offset_minutes != 0 ==> v[24] == digit(abs_minutes(t.offset_minutes as int) % 60 % 10)
}

/// A text whose characters all match a well-formed timestamp's fields is
/// that timestamp's rendering.
#[verifier::rlimit(100)]
proof fn lemma_fields_determine(t: Timestamp, v: Seq<char>)
    requires
        t.wf(),
        matches_fields(v, t),
    ensures
        rfc3339(t) == v,
{
    lemma_shape(t);
    assert(rfc3339(t) =~= v);
}

/// Read and validate the date part, positions 0 to 10. A `None` rules out
/// every well-formed timestamp as the text's source.
#[verifier::rlimit(100)]
fn read_date(s: &str) -> (r: Option<(u16, u8, u8)>)
    requires
        s@.len() == 20 || s@.len() == 25,
    ensures
        r matches Some(p) ==> p.0 <= 9999 && 1 <= p.1 <= 12 && 1 <= p.2 <= days_in_month(
            p.0 as int,
            p.1 as int,
        ) && s@[0] == digit(p.0 as int / 1000) && s@[1] == digit((p.0 as int / 100) % 10) && s@[2]
            == digit((p.0 as int / 10) % 10) && s@[3] == digit(p.0 as int % 10) && s@[4] == '-'
            && s@[5] == digit(p.1 as int / 10) && s@[6] == digit(p.1 as int % 10) && s@[7] == '-'
            && s@[8] == digit(p.2 as int / 10) && s@[9] == digit(p.2 as int % 10) && s@[10] == 'T',
        r is None ==> forall|t: Timestamp| t.wf() ==> rfc3339(t) != s@,
{
    let year = match four_digits_at(s, 0) {
        Some(y) => y,
        None => {
            proof {
                refute_all(s@);
            }
            return None;
        },
    };
    if !(s.get_char(4) == '-' && s.get_char(7) == '-' && s.get_char(10) == 'T') {
        proof {
            refute_all(s@);
        }
        return None;
    }
    let month = match two_digits_at(s, 5) {
        Some(m) => m,
        None => {
            proof {
                refute_all(s@);
            }
            return None;
        },
    };
    let day = match two_digits_at(s, 8) {
        Some(d) => d,
        None => {
            proof {
                refute_all(s@);
            }
            return None;
        },
    };
    if !(1 <= month && month <= 12) {
        proof {
            refute_all(s@);
        }
        return None;
    }
    if !(1 <= day && day <= days_in_month_exec(year, month)) {
        proof {
            refute_all(s@);
        }
        return None;
    }
    Some((year, month, day))
}

/// Read and validate the time-of-day part, positions 11 to 18.
#[verifier::rlimit(100)]
fn read_time(s: &str) -> (r: Option<(u8, u8, u8)>)
    requires
        s@.len() == 20 || s@.len() == 25,
    ensures
        r matches Some(p) ==> p.0 < 24 && p.1 < 60 && p.2 < 60 && s@[11] == digit(p.0 as int / 10)
            && s@[12] == digit(p.0 as int % 10) && s@[13] == ':' && s@[14] == digit(p.1 as int / 10)
            && s@[15] == digit(p.1 as int % 10) && s@[16] == ':' && s@[17] == digit(p.2 as int / 10)
            && s@[18] == digit(p.2 as int % 10),
        r is None ==> forall|t: Timestamp| t.wf() ==> rfc3339(t) != s@,
{
    if !(s.get_char(13) == ':' && s.get_char(16) == ':') {
        proof {
            refute_all(s@);
        }
        return None;
    }
    let hour = match two_digits_at(s, 11) {
        Some(h) => h,
        None => {
            proof {
                refute_all(s@);
            }
            return None;
        },
    };
    let minute = match two_digits_at(s, 14) {
        Some(m) => m,
        None => {
            proof {
                refute_all(s@);
            }
            return None;
        },
    };
    let second = match two_digits_at(s, 17) {
        Some(x) => x,
        None => {
            proof {
                refute_all(s@);
            }
            return None;
        },
    };
    if !(hour < 24 && minute < 60 && second < 60) {
        proof {
            refute_all(s@);
        }
        return None;
    }
    Some((hour, minute, second))
}

/// Read and validate the offset suffix, from position 19.
#[verifier::rlimit(100)]
fn read_offset(s: &str, n: usize) -> (r: Option<i32>)
    requires
        n == s@.len(),
        n == 20 || n == 25,
    ensures
        r matches Some(off) ==> -1439 <= off <= 1439 && (off == 0 ==> n == 20 && s@[19] == 'Z') && (
        off != 0 ==> n == 25 && s@[19] == (if off > 0 {
            '+'
        } else {
            '-'
        }) && s@[20] == digit(abs_minutes(off as int) / 60 / 10) && s@[21] == digit(
            abs_minutes(off as int) / 60 % 10,
        ) && s@[22] == ':' && s@[23] == digit(abs_minutes(off as int) % 60 / 10) && s@[24] == digit(
            abs_minutes(off as int) % 60 % 10,
        )),
        r is None ==> forall|t: Timestamp| t.wf() ==> rfc3339(t) != s@,
{
    if n == 20 {
        if s.get_char(19) != 'Z' {
            proof {
                refute_all(s@);
            }
            return None;
        }
        return Some(0);
    }
    let sign_char = s.get_char(19);
    if sign_char != '+' && sign_char != '-' {
        proof {
            refute_all(s@);
        }
        return None;
    }
    if s.get_char(22) != ':' {
        proof {
            refute_all(s@);
        }
        return None;
    }
    let oh = match two_digits_at(s, 20) {
        Some(h) => h,
        None => {
            proof {
                refute_all(s@);
            }
            return None;
        },
    };
    let om = match two_digits_at(s, 23) {
        Some(m) => m,
        None => {
            proof {
                refute_all(s@);
            }
            return None;
        },
    };
    if !(oh < 24 && om < 60) {
        proof {
            refute_all(s@);
        }
        return None;
    }
    let a: i32 = (oh as i32) * 60 + (om as i32);
    if a == 0 {
        // A zero offset is always rendered as `Z`, never with a sign.
        proof {
            refute_all(s@);
        }
        return None;
    }
    let off: i32 = if sign_char == '+' {
        a
    } else {
        -a
    };
    proof {
        assert(abs_minutes(off as int) == a as int);
        assert((a as int) / 60 == oh as int && (a as int) % 60 == om as int) by (nonlinear_arith)
            requires
                a as int == (oh as int) * 60 + (om as int),
                0 <= (om as int) && (om as int) < 60,
                0 <= (oh as int),
        ;
    }
    Some(off)
}

/// Parse a timestamp from its fixed textual form. The parser is strict: it
/// accepts exactly the strings that `Timestamp::format` produces, and returns
/// the unique well-formed timestamp that renders to the input.
#[verifier::rlimit(100)]
pub fn parse_rfc3339(s: &str) -> (r: Result<Timestamp, StorageError>)
    ensures
        r matches Ok(t) ==> t.wf() && rfc3339(t) == s@,
        forall|t: Timestamp| t.wf() && rfc3339(t) == s@ ==> r == Ok::<Timestamp, StorageError>(t),
        r matches Err(e) ==> e == StorageError::Parse,
{
    let n: usize = s.unicode_len();
    if n != 20 && n != 25 {
        proof {
            refute_len(s@);
        }
        return Err(StorageError::Parse);
    }
    let (year, month, day) = match read_date(s) {
        Some(p) => p,
        None => {
            return Err(StorageError::Parse);
        },
    };
    let (hour, minute, second) = match read_time(s) {
        Some(p) => p,
        None => {
            return Err(StorageError::Parse);
        },
    };
    let offset_minutes = match read_offset(s, n) {
        Some(o) => o,
        None => {
            return Err(StorageError::Parse);
        },
    };
    let t = Timestamp { year, month, day, hour, minute, second, offset_minutes };
    proof {
        assert(matches_fields(s@, t));
        lemma_fields_determine(t, s@);
        assert forall|t2: Timestamp| t2.wf() && rfc3339(t2) == s@ implies t2 == t by {
            lemma_rfc3339_injective(t2, t);
        }
    }
    Ok(t)
}

/// From the shape of the fixed form, rules out every well-formed timestamp
/// whose rendering would be `v`, given that some fixed character or digit of
/// `v` does not fit. Callers establish the mismatch; this lemma packages the
/// shape facts the contradiction needs.
proof fn refute_all(v: Seq<char>)
    ensures
        forall|t: Timestamp| t.wf() && #[trigger] rfc3339(t) == v ==> shape_facts(t),
{
    assert forall|t: Timestamp| t.wf() && #[trigger] rfc3339(t) == v implies shape_facts(t) by {
        lemma_shape_facts(t);
    }
}

/// Packages the shape of a well-formed timestamp's rendering: lengths,
/// fixed separators, and the digit groups as subranges.
proof fn lemma_shape_facts(t: Timestamp)
    requires
        t.wf(),
    ensures
        shape_facts(t),
{
    lemma_shape(t);
    lemma_four_digit_bounds(t.year as int);
    lemma_two_digit_bounds(t.month as int);
    lemma_two_digit_bounds(t.day as int);
    lemma_two_digit_bounds(t.hour as int);
    lemma_two_digit_bounds(t.minute as int);
    lemma_two_digit_bounds(t.second as int);
    lemma_two_digit_bounds(abs_minutes(t.offset_minutes as int) / 60);
    lemma_two_digit_bounds(abs_minutes(t.offset_minutes as int) % 60);
}

/// The facts `refute_all` provides about a well-formed timestamp `t` and its
/// rendering, stated over the rendering itself.
pub open spec fn shape_facts(t: Timestamp) -> bool {
    let v = rfc3339(t);
    &&& v.len() == if t.offset_minutes == 0 { 20int } else { 25int }
    &&& v[0] == digit(t.year as int / 1000)
    &&& v[1] == digit((t.year as int / 100) % 10)
    &&& v[2] == digit((t.year as int / 10) % 10)
    &&& v[3] == digit(t.year as int % 10)
    &&& v[4] == '-'
    &&& v[5] == digit(t.month as int / 10)
    &&& v[6] == digit(t.month as int % 10)
    &&& v[7] == '-'
    &&& v[8] == digit(t.day as int / 10)
    &&& v[9] == digit(t.day as int % 10)
    &&& v[10] == 'T'
    &&& v[11] == digit(t.hour as int / 10)
    &&& v[12] == digit(t.hour as int % 10)
    &&& v[13] == ':'
    &&& v[14] == digit(t.minute as int / 10)
    &&& v[15] == digit(t.minute as int % 10)
    &&& v[16] == ':'
    &&& v[17] == digit(t.second as int / 10)
    &&& v[18] == digit(t.second as int % 10)
    &&& t.offset_minutes == 0 ==> v[19] == 'Z'
    &&& t.offset_minutes > 0 ==> v[19] == '+'
    &&& t.offset_minutes < 0 ==> v[19] == '-'
    &&& t.offset_minutes != 0 ==> v[20] == digit(abs_minutes(t.offset_minutes as int) / 60 / 10)
    &&& t.offset_minutes != 0 ==> v[21] == digit(abs_minutes(t.offset_minutes as int) / 60 % 10)
    &&& t.offset_minutes != 0 ==> v[22] == ':'
    &&& t.offset_minutes != 0 ==> v[23] == digit(abs_minutes(t.offset_minutes as int) % 60 / 10)
    &&& t.offset_minutes != 0 ==> v[24] == digit(abs_minutes(t.offset_minutes as int) % 60 % 10)
    &&& abs_minutes(t.offset_minutes as int) == (abs_minutes(t.offset_minutes as int) / 60) * 60
        + abs_minutes(t.offset_minutes as int) % 60
    &&& 0 <= t.year as int / 1000 < 10
    &&& 0 <= (t.year as int / 100) % 10 < 10
    &&& 0 <= (t.year as int / 10) % 10 < 10
    &&& 0 <= t.year as int % 10 < 10
    &&& t.year as int == (t.year as int / 1000) * 1000 + ((t.year as int / 100) % 10) * 100 + ((
    t.year as int / 10) % 10) * 10 + t.year as int % 10
    &&& 0 <= t.month as int / 10 < 10 && 0 <= t.month as int % 10 < 10
    &&& t.month as int == (t.month as int / 10) * 10 + t.month as int % 10
    &&& 0 <= t.day as int / 10 < 10 && 0 <= t.day as int % 10 < 10
    &&& t.day as int == (t.day as int / 10) * 10 + t.day as int % 10
    &&& 0 <= t.hour as int / 10 < 10 && 0 <= t.hour as int % 10 < 10
    &&& t.hour as int == (t.hour as int / 10) * 10 + t.hour as int % 10
    &&& 0 <= t.minute as int / 10 < 10 && 0 <= t.minute as int % 10 < 10
    &&& t.minute as int == (t.minute as int / 10) * 10 + t.minute as int % 10
    &&& 0 <= t.second as int / 10 < 10 && 0 <= t.second as int % 10 < 10
    &&& t.second as int == (t.second as int / 10) * 10 + t.second as int % 10
    &&& 0 <= abs_minutes(t.offset_minutes as int) / 60 / 10 < 10
    &&& 0 <= abs_minutes(t.offset_minutes as int) / 60 % 10 < 10
    &&& 0 <= abs_minutes(t.offset_minutes as int) % 60 / 10 < 10
    &&& 0 <= abs_minutes(t.offset_minutes as int) % 60 % 10 < 10
    &&& abs_minutes(t.offset_minutes as int) / 60 == (abs_minutes(t.offset_minutes as int) / 60
        / 10) * 10 + abs_minutes(t.offset_minutes as int) / 60 % 10
    &&& abs_minutes(t.offset_minutes as int) % 60 == (abs_minutes(t.offset_minutes as int) % 60
        / 10) * 10 + abs_minutes(t.offset_minutes as int) % 60 % 10
}

} // verus!
