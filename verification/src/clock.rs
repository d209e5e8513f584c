//! The header with the time of day.

use vstd::prelude::*;

verus! {

/// A date and time of day as a calendar and a clock show them.
#[derive(Clone, Copy, PartialEq, Eq, Structural, Debug)]
pub struct CivilTime {
    pub year: i32,
    pub month: u32,
    pub day: u32,
    pub hour: u32,
    pub minute: u32,
    pub second: u32,
}

/// Whether a year of the Gregorian calendar has a 29th of February.
pub open spec fn is_leap(year: int) -> bool {
    year % 4 == 0 && (year % 100 != 0 || year % 400 == 0)
}

/// The days of a month.
pub open spec fn days_in(year: int, month: nat) -> nat {
    if month == 2 {
        if is_leap(year) {
            29
        } else {
            28
        }
    } else if month == 4 || month == 6 || month == 9 || month == 11 {
        30
    } else {
        31
    }
}

impl CivilTime {
    /// The date exists, within 262143 years, and so does the time of day.
    pub open spec fn exists_in_calendar(self) -> bool {
        &&& -262143 <= self.year <= 262142
        &&& 1 <= self.month <= 12
        &&& 1 <= self.day <= days_in(self.year as int, self.month as nat)
        &&& self.hour < 24
        &&& self.minute < 60
        &&& self.second < 60
    }
}

/// A year with four digits at least, and with its sign if it is not one of the years 0 to 9999.
pub open spec fn year_text(year: int) -> Seq<char> {
    let size = (if year < 0 {
        -year
    } else {
        year
    }) as nat;
    let digits = if size < 10000 {
        crate::number::low_digits(size, 4)
    } else {
        crate::number::decimal(size)
    };
    if year < 0 {
        seq!['-'] + digits
    } else if year > 9999 {
        seq!['+'] + digits
    } else {
        digits
    }
}

/// A date and time of day as text, such as 2024-02-29 08:05:00.
pub open spec fn civil_text(t: CivilTime) -> Seq<char> {
    year_text(t.year as int) + seq!['-'] + crate::number::low_digits(t.month as nat, 2) + seq!['-']
        + crate::number::low_digits(t.day as nat, 2) + seq![' '] + crate::number::low_digits(
        t.hour as nat,
        2,
    ) + seq![':'] + crate::number::low_digits(t.minute as nat, 2) + seq![':']
        + crate::number::low_digits(t.second as nat, 2)
}

/// `NaiveDate::from_ymd_opt`, `NaiveDate::and_hms_opt` and `NaiveDateTime::format` of chrono:
/// there is a text if and only if the date and the time of day exist, and then it is the
/// year with four digits at least and the other fields with two digits each.
#[verifier::external_body]
fn format_civil(t: &CivilTime) -> (res: Option<String>)
    ensures
        match res {
            Some(text) => t.exists_in_calendar() && text@ == civil_text(*t),
            None => !t.exists_in_calendar(),
        },
{
    let date = chrono::NaiveDate::from_ymd_opt(t.year, t.month, t.day)?;
    let time = date.and_hms_opt(t.hour, t.minute, t.second)?;
    Some(time.format("%Y-%m-%d %H:%M:%S").to_string())
}

/// What the header says behind its title.
pub open spec fn header_chars(now: Seq<char>) -> Seq<char> {
    "Time: "@ + now + "  |  q/ESC to quit"@
}

/// Composes what the header says behind its title, if the time exists.
pub fn header_text(now: &CivilTime) -> (res: Option<String>)
    ensures
        match res {
            Some(text) => now.exists_in_calendar() && text@ == header_chars(civil_text(*now)),
            None => !now.exists_in_calendar(),
        },
{
    let text = format_civil(now)?;
    let mut res = String::new();
    res.append("Time: ");
    res.append(text.as_str());
    res.append("  |  q/ESC to quit");
    assert(res@ =~= header_chars(text@));
    Some(res)
}

/// The header says the time as it is given, between a label and how to leave.
pub proof fn lemma_header_reads_back(now: Seq<char>)
    ensures
        ({
            let line = header_chars(now);
            let start = "Time: "@.len() as int;
            &&& line.take(start) == "Time: "@
            &&& line.subrange(start, start + now.len()) == now
            &&& line.skip(start + now.len()) == "  |  q/ESC to quit"@
        }),
{
    let line = header_chars(now);
    let start = "Time: "@.len() as int;
    assert(line.take(start) =~= "Time: "@);
    assert(line.subrange(start, start + now.len()) =~= now);
    assert(line.skip(start + now.len()) =~= "  |  q/ESC to quit"@);
}

/// Of an ordinary year, the fields of a time stand at fixed places and read back.
pub proof fn lemma_civil_reads_back(t: CivilTime)
    requires
        t.exists_in_calendar(),
        0 <= t.year <= 9999,
    ensures
        ({
            let text = civil_text(t);
            &&& text.len() == 19
            &&& crate::number::value(text.subrange(0, 4)) == t.year
            &&& crate::number::value(text.subrange(5, 7)) == t.month
            &&& crate::number::value(text.subrange(8, 10)) == t.day
            &&& crate::number::value(text.subrange(11, 13)) == t.hour
            &&& crate::number::value(text.subrange(14, 16)) == t.minute
            &&& crate::number::value(text.subrange(17, 19)) == t.second
            &&& text[4] == '-' && text[7] == '-' && text[10] == ' ' && text[13] == ':' && text[16]
                == ':'
        }),
{
    reveal_with_fuel(crate::double::ten, 5);
    assert(crate::double::ten(2) == 100 && crate::double::ten(4) == 10000);
    crate::number::lemma_low_digits_read_back(t.year as nat, 4);
    crate::number::lemma_low_digits_read_back(t.month as nat, 2);
    crate::number::lemma_low_digits_read_back(t.day as nat, 2);
    crate::number::lemma_low_digits_read_back(t.hour as nat, 2);
    crate::number::lemma_low_digits_read_back(t.minute as nat, 2);
    crate::number::lemma_low_digits_read_back(t.second as nat, 2);
    let text = civil_text(t);
    assert(text.subrange(0, 4) =~= crate::number::low_digits(t.year as nat, 4));
    assert(text.subrange(5, 7) =~= crate::number::low_digits(t.month as nat, 2));
    assert(text.subrange(8, 10) =~= crate::number::low_digits(t.day as nat, 2));
    assert(text.subrange(11, 13) =~= crate::number::low_digits(t.hour as nat, 2));
    assert(text.subrange(14, 16) =~= crate::number::low_digits(t.minute as nat, 2));
    assert(text.subrange(17, 19) =~= crate::number::low_digits(t.second as nat, 2));
}

} // verus!
