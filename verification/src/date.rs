//! Calendar dates: the date of a statement and of each of its change entries.
use vstd::prelude::*;

verus! {

/// A date in the proleptic Gregorian calendar.
#[derive(Debug, Clone, Copy, PartialEq, Eq, Hash, Structural)]
pub struct CivilDate {
    /// The year; negative years are before year zero.
    pub year: i16,
    /// The month, from 1 to 12.
    pub month: i8,
    /// The day of the month, from 1.
    pub day: i8,
}

impl CivilDate {
    /// The date with the given year, month and day.
    pub fn new(year: i16, month: i8, day: i8) -> (res: CivilDate)
        ensures
            res.year == year,
            res.month == month,
            res.day == day,
    {
        CivilDate { year, month, day }
    }

    /// Whether this date comes strictly before `other`.
    pub fn is_before(&self, other: &CivilDate) -> (res: bool)
        ensures
            res == date_before(*self, *other),
    {
        self.year < other.year || (self.year == other.year && (self.month < other.month || (
        self.month == other.month && self.day < other.day)))
    }
}

/// Whether `a` comes strictly before `b`: dates are ordered by year, then month, then day.
pub open spec fn date_before(a: CivilDate, b: CivilDate) -> bool {
    a.year < b.year || (a.year == b.year && (a.month < b.month || (a.month == b.month && a.day
        < b.day)))
}

/// What `jiff::civil::Date`'s `FromStr` makes of a string: the date it reads, or the
/// `Display` and `Debug` renderings of the error it reports.
pub uninterp spec fn jiff_date(s: Seq<char>) -> Result<CivilDate, (Seq<char>, Seq<char>)>;

/// The reason a date did not parse, as the date parser words it.
#[derive(Debug, Clone, PartialEq, Eq)]
pub struct DateError {
    /// The error's message.
    pub message: String,
    /// The error's debugging rendering, which says more.
    pub details: String,
}

/// Parses a date with `jiff::civil::Date`'s `FromStr`.
///
/// The contract states only that the outcome is the one `jiff` gives for these characters
/// (named `jiff_date`): the date's year, month and day, or the error's `Display` and `Debug`
/// texts. Which strings `jiff` accepts (ISO 8601 / Temporal dates such as `2024-06-18`) is not
/// restated here.
#[verifier::external_body]
pub(crate) fn parse_date(s: &str) -> (res: Result<CivilDate, DateError>)
    ensures
        match (res, jiff_date(s@)) {
            (Ok(d), Ok(e)) => d == e,
            (Err(d), Err((m, x))) => d.message@ == m && d.details@ == x,
            _ => false,
        },
{
    match s.parse::<jiff::civil::Date>() {
        Ok(d) => Ok(CivilDate { year: d.year(), month: d.month(), day: d.day() }),
        Err(e) => Err(DateError { message: e.to_string(), details: format!("{e:?}") }),
    }
}

/// The decimal digit for `d` (from 0 to 9).
pub open spec fn digit(d: nat) -> char {
    (('0' as u32) + d) as char
}

/// `n` in decimal, padded with zeros on the left to at least `width` digits.
pub open spec fn padded(n: nat, width: nat) -> Seq<char>
    decreases n + width,
{
    if n < 10 && width <= 1 {
        seq![digit(n)]
    } else {
        padded(n / 10, if width > 0 {
            (width - 1) as nat
        } else {
            0
        }).push(digit(n % 10))
    }
}

fn digit_char(d: u64) -> (res: char)
    requires
        d < 10,
    ensures
        res == digit(d as nat),
{
    let code: u8 = 48u8 + (d as u8);
    code as char
}

/// Appends `n` in decimal, padded with zeros on the left to at least `width` digits.
pub fn push_padded(out: &mut Vec<char>, n: u64, width: u32)
    ensures
        final(out)@ == old(out)@ + padded(n as nat, width as nat),
    decreases n + width,
{
    if n < 10 && width <= 1 {
        out.push(digit_char(n));
    } else {
        let w = if width > 0 {
            width - 1
        } else {
            0
        };
        push_padded(out, n / 10, w);
        out.push(digit_char(n % 10));
    }
}

/// The absolute value of `x`.
pub open spec fn abs(x: int) -> nat {
    if x < 0 {
        (-x) as nat
    } else {
        x as nat
    }
}

/// How `jiff` prints a date: `YYYY-MM-DD`, with `-00` in front of a negative year.
pub open spec fn date_text(d: CivilDate) -> Seq<char> {
    (if d.year < 0 {
        seq!['-', '0', '0']
    } else {
        seq![]
    }) + padded(abs(d.year as int), 4) + seq!['-'] + padded(abs(d.month as int), 2) + seq!['-']
        + padded(abs(d.day as int), 2)
}

fn abs_u32(x: i32) -> (res: u32)
    requires
        -70000 < x < 70000,
    ensures
        res as nat == abs(x as int),
{
    if x < 0 {
        (-x) as u32
    } else {
        x as u32
    }
}

/// Appends the date as `jiff` prints it.
pub fn push_date(out: &mut Vec<char>, d: CivilDate)
    ensures
        final(out)@ == old(out)@ + date_text(d),
{
    let ghost start = out@;
    if d.year < 0 {
        out.push('-');
        out.push('0');
        out.push('0');
    }
    push_padded(out, abs_u32(d.year as i32) as u64, 4);
    out.push('-');
    push_padded(out, abs_u32(d.month as i32) as u64, 2);
    out.push('-');
    push_padded(out, abs_u32(d.day as i32) as u64, 2);
    assert(out@ =~= start + date_text(d));
}

/// Every character of a number written by [`padded`] is a decimal digit.
pub proof fn lemma_padded_digits(n: nat, width: nat)
    ensures
        padded(n, width).len() >= 1,
        forall|k: int| 0 <= k < padded(n, width).len() ==> '0' <= #[trigger] padded(n, width)[k] <= '9',
    decreases n + width,
{
    if n < 10 && width <= 1 {
        assert(('0' as u32) + n <= 57);
    } else {
        let w: nat = if width > 0 {
            (width - 1) as nat
        } else {
            0
        };
        lemma_padded_digits(n / 10, w);
        assert(n % 10 < 10);
    }
}

/// A written date holds only decimal digits and hyphens, and starts with a digit or a hyphen
/// that no second hyphen follows.
pub proof fn lemma_date_text_chars(d: CivilDate)
    ensures
        date_text(d).len() >= 3,
        forall|k: int| 0 <= k < date_text(d).len() ==> ('0' <= #[trigger] date_text(d)[k] <= '9' || date_text(d)[k] == '-'),
        date_text(d)[0] == '-' ==> date_text(d)[1] == '0',
{
    lemma_padded_digits(abs(d.year as int), 4);
    lemma_padded_digits(abs(d.month as int), 2);
    lemma_padded_digits(abs(d.day as int), 2);
    let sign: Seq<char> = if d.year < 0 {
        seq!['-', '0', '0']
    } else {
        seq![]
    };
    let y = padded(abs(d.year as int), 4);
    let m = padded(abs(d.month as int), 2);
    let dd = padded(abs(d.day as int), 2);
    let t = date_text(d);
    assert(t == sign + y + seq!['-'] + m + seq!['-'] + dd);
    assert forall|k: int| 0 <= k < t.len() implies ('0' <= #[trigger] t[k] <= '9' || t[k] == '-') by {
        let a = sign.len() as int;
        let b = a + y.len();
        let c = b + 1 + m.len();
        if k < a {
        } else if k < b {
            assert(t[k] == y[k - a]);
        } else if k == b {
        } else if k < c {
            assert(t[k] == m[k - b - 1]);
        } else if k == c {
        } else {
            assert(t[k] == dd[k - c - 1]);
        }
    }
}

} // verus!
