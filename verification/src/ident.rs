//! DocumentIdentifier minting: a scan names its document after the moment
//! it ran, a timestamp formatted at second precision plus the archive
//! extension. Identifiers minted in different seconds are distinct; two
//! scans within one second collide, which the store then refuses.
use vstd::prelude::*;
use vstd::string::StringExecFns;

verus! {

/// A civil date-time at second precision, the input to minting.
#[derive(Clone, Copy, Debug, PartialEq, Eq, Structural)]
pub struct TimeParts {
    pub year: u16,
    pub month: u8,
    pub day: u8,
    pub hour: u8,
    pub minute: u8,
    pub second: u8,
}

impl TimeParts {
    /// The civil ranges a clock reading satisfies.
    pub open spec fn wf(self) -> bool {
        &&& self.year <= 9999
        &&& 1 <= self.month <= 12
        &&& 1 <= self.day <= 31
        &&& self.hour <= 23
        &&& self.minute <= 59
        &&& self.second <= 59
    }
}

/// The character of one decimal digit.
pub open spec fn digit_char(d: int) -> char {
    if d == 0 {
        '0'
    } else if d == 1 {
        '1'
    } else if d == 2 {
        '2'
    } else if d == 3 {
        '3'
    } else if d == 4 {
        '4'
    } else if d == 5 {
        '5'
    } else if d == 6 {
        '6'
    } else if d == 7 {
        '7'
    } else if d == 8 {
        '8'
    } else {
        '9'
    }
}

/// A number rendered as exactly two digits, zero-padded.
pub open spec fn two_digits(n: int) -> Seq<char> {
    seq![digit_char(n / 10), digit_char(n % 10)]
}

/// A number rendered as exactly four digits, zero-padded.
pub open spec fn four_digits(n: int) -> Seq<char> {
    seq![
        digit_char(n / 1000),
        digit_char((n / 100) % 10),
        digit_char((n / 10) % 10),
        digit_char(n % 10),
    ]
}

/// The identifier minted for one moment: year, month, day, hour, minute
/// and second, zero-padded, joined by underscores, plus the archive
/// extension.
pub open spec fn minted_identifier(p: TimeParts) -> Seq<char> {
    four_digits(p.year as int) + seq!['_'] + two_digits(p.month as int) + seq!['_'] + two_digits(
        p.day as int,
    ) + seq!['_'] + two_digits(p.hour as int) + seq!['_'] + two_digits(p.minute as int)
        + seq!['_'] + two_digits(p.second as int) + seq!['.', 'p', 'd', 'f']
}

/// One decimal digit as text.
fn digit_str(d: u8) -> (r: &'static str)
    requires
        d <= 9,
    ensures
        r@ == seq![digit_char(d as int)],
{
    proof {
        reveal_strlit("0");
        reveal_strlit("1");
        reveal_strlit("2");
        reveal_strlit("3");
        reveal_strlit("4");
        reveal_strlit("5");
        reveal_strlit("6");
        reveal_strlit("7");
        reveal_strlit("8");
        reveal_strlit("9");
        assert("0"@ =~= seq![digit_char(0)]);
        assert("1"@ =~= seq![digit_char(1)]);
        assert("2"@ =~= seq![digit_char(2)]);
        assert("3"@ =~= seq![digit_char(3)]);
        assert("4"@ =~= seq![digit_char(4)]);
        assert("5"@ =~= seq![digit_char(5)]);
        assert("6"@ =~= seq![digit_char(6)]);
        assert("7"@ =~= seq![digit_char(7)]);
        assert("8"@ =~= seq![digit_char(8)]);
        assert("9"@ =~= seq![digit_char(9)]);
    }
    if d == 0 {
        "0"
    } else if d == 1 {
        "1"
    } else if d == 2 {
        "2"
    } else if d == 3 {
        "3"
    } else if d == 4 {
        "4"
    } else if d == 5 {
        "5"
    } else if d == 6 {
        "6"
    } else if d == 7 {
        "7"
    } else if d == 8 {
        "8"
    } else {
        "9"
    }
}

/// Appends a number as exactly two digits.
fn push_two_digits(out: &mut String, n: u8)
    requires
        n <= 99,
    ensures
        final(out)@ == old(out)@ + two_digits(n as int),
{
    let d1 = n / 10;
    let d2 = n % 10;
    out.append(digit_str(d1));
    out.append(digit_str(d2));
    proof {
        assert(final(out)@ =~= old(out)@ + two_digits(n as int));
    }
}

/// Appends a number as exactly four digits.
fn push_four_digits(out: &mut String, n: u16)
    requires
        n <= 9999,
    ensures
        final(out)@ == old(out)@ + four_digits(n as int),
{
    let d1 = (n / 1000) as u8;
    let d2 = ((n / 100) % 10) as u8;
    let d3 = ((n / 10) % 10) as u8;
    let d4 = (n % 10) as u8;
    out.append(digit_str(d1));
    out.append(digit_str(d2));
    out.append(digit_str(d3));
    out.append(digit_str(d4));
    proof {
        assert(final(out)@ =~= old(out)@ + four_digits(n as int));
    }
}

/// Formats the identifier for one moment.
pub fn mint_identifier(p: &TimeParts) -> (r: String)
    requires
        p.wf(),
    ensures
        r@ == minted_identifier(*p),
{
    let mut out = String::new();
    push_four_digits(&mut out, p.year);
    out.append("_");
    push_two_digits(&mut out, p.month);
    out.append("_");
    push_two_digits(&mut out, p.day);
    out.append("_");
    push_two_digits(&mut out, p.hour);
    out.append("_");
    push_two_digits(&mut out, p.minute);
    out.append("_");
    push_two_digits(&mut out, p.second);
    out.append(".pdf");
    proof {
        reveal_strlit("_");
        reveal_strlit(".pdf");
        assert("_"@ =~= seq!['_']);
        assert(".pdf"@ =~= seq!['.', 'p', 'd', 'f']);
        assert(out@ =~= minted_identifier(*p));
    }
    out
}

/// Relies on jiff::Timestamp::now, jiff::Timestamp::to_zoned with the UTC
/// time zone, and jiff::Zoned's accessors year, month, day, hour, minute
/// and second: the clock is read once and rendered as a civil moment in
/// UTC, within jiff's documented ranges (year -9999..=9999, month 1..=12,
/// day 1..=31, hour 0..=23, minute and second 0..=59). jiff documents that
/// `now` panics only when the system clock is set outside its range.
#[verifier::external_body]
fn clock_now_parts() -> (r: (i16, u8, u8, u8, u8, u8))
    ensures
        -9999 <= r.0 <= 9999,
        1 <= r.1 <= 12,
        1 <= r.2 <= 31,
        r.3 <= 23,
        r.4 <= 59,
        r.5 <= 59,
{
    let z = jiff::Timestamp::now().to_zoned(jiff::tz::TimeZone::UTC);
    (
        z.year(),
        z.month() as u8,
        z.day() as u8,
        z.hour() as u8,
        z.minute() as u8,
        z.second() as u8,
    )
}

/// Decides what a clock reading mints: a reading within the civil ranges
/// mints the identifier of exactly those parts, and only a reading before
/// year zero, which the format cannot carry, mints nothing.
pub fn mint_from_reading(y: i16, mo: u8, d: u8, h: u8, mi: u8, s: u8) -> (r: Option<
    (TimeParts, String),
>)
    requires
        -9999 <= y <= 9999,
        1 <= mo <= 12,
        1 <= d <= 31,
        h <= 23,
        mi <= 59,
        s <= 59,
    ensures
        r is Some <==> y >= 0,
        r is Some ==> (r->0).0 == (TimeParts {
            year: y as u16,
            month: mo,
            day: d,
            hour: h,
            minute: mi,
            second: s,
        }) && (r->0).1@ == minted_identifier((r->0).0),
{
    if y < 0 {
        return None;
    }
    let p = TimeParts { year: y as u16, month: mo, day: d, hour: h, minute: mi, second: s };
    let id = mint_identifier(&p);
    Some((p, id))
}

/// Mints the identifier for a scan running now: one clock reading, handed
/// to `mint_from_reading`, which states what is minted for every reading.
pub fn mint_now() -> (r: Option<(TimeParts, String)>)
    ensures
        r is Some ==> (r->0).0.wf() && (r->0).1@ == minted_identifier((r->0).0),
{
    let (y, mo, d, h, mi, s) = clock_now_parts();
    mint_from_reading(y, mo, d, h, mi, s)
}

} // verus!
