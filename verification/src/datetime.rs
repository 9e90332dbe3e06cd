//! Dates with optional hierarchical time, as written in content paths
//! (`YYYY`, `MM`, `DD` directories) and in CSV data
//! (`YYYY-MM-DD[ HH[:MM[:SS[ +ZZZZ]]]]`).
use vstd::prelude::*;

use crate::text::{
    all_digits, all_digits_exec, byte_len, byte_len_upto, byte_slice, char_index_at, chars_of, decimal,
    digits_u16, digits_value, index_at_byte, lemma_byte_len_digits,
    pow10, push_decimal, push_str, push_zero_padded, split_char, split_chars, split_once_char,
    string_from_chars, sub_chars, zero_padded, find_char_index, lemma_find_char,
    lemma_split_char_nonempty, lemma_zero_padded_digits, lemma_zero_padded_len, lemma_byte_len_concat, lemma_char_width, lex_lt, nat_lex_lt, padded_concat, lemma_padded_concat_order, lemma_padded_concat_small,
    lemma_padded_concat_append, lemma_digits_value_bound, lemma_char_index_at, lemma_char_index_at_end, lemma_char_index_at_first,
};

verus! {

// --------------------------------------------------
// mathematical model
// --------------------------------------------------
/// The clock part of a date, at the precision it was written with.
pub enum TimeView {
    Hour(u8),
    Minute(u8, u8),
    Second(u8, u8, u8),
    Zoned(u8, u8, u8, Seq<char>),
}

/// A date as a plain value: calendar components and an optional clock time.
pub struct DateView {
    pub year: u16,
    pub month: u8,
    pub day: u8,
    pub time: Option<TimeView>,
}

/// The name of month `m` (1-based).
pub open spec fn month_name(m: u8) -> Seq<char> {
    if m == 1 {
        "January"@
    } else if m == 2 {
        "February"@
    } else if m == 3 {
        "March"@
    } else if m == 4 {
        "April"@
    } else if m == 5 {
        "May"@
    } else if m == 6 {
        "June"@
    } else if m == 7 {
        "July"@
    } else if m == 8 {
        "August"@
    } else if m == 9 {
        "September"@
    } else if m == 10 {
        "October"@
    } else if m == 11 {
        "November"@
    } else {
        "December"@
    }
}

/// Error text for a component of the wrong width.
pub open spec fn width_message(field: Seq<char>, input: Seq<char>, width: nat) -> Seq<char> {
    field + " `"@ + input + "` must be "@ + decimal(width) + " digits"@
}

/// Error text for a component that is not all digits.
pub open spec fn invalid_message(field: Seq<char>, input: Seq<char>) -> Seq<char> {
    "Invalid "@ + field + " `"@ + input + "`"@
}

/// Error text for a component outside its inclusive range.
pub open spec fn range_message(field: Seq<char>, value: nat, min: nat, max: nat) -> Seq<char> {
    field + " "@ + decimal(value) + " out of range "@ + decimal(min) + "-"@ + decimal(max)
}

/// Error text for a malformed time zone.
pub open spec fn zone_message(input: Seq<char>) -> Seq<char> {
    "Invalid time zone `"@ + input + "`"@
}

/// A fixed-width unsigned component: exactly `width` bytes, all ASCII digits.
pub open spec fn spec_fixed_width(input: Seq<char>, field: Seq<char>, width: nat) -> Result<
    nat,
    Seq<char>,
> {
    if byte_len(input) != width {
        Err(width_message(field, input, width))
    } else if !all_digits(input) {
        Err(invalid_message(field, input))
    } else {
        Ok(digits_value(input))
    }
}

/// A fixed-width component that must also fall in `min..=max`.
pub open spec fn spec_component(
    input: Seq<char>,
    field: Seq<char>,
    label: Seq<char>,
    width: nat,
    min: nat,
    max: nat,
) -> Result<nat, Seq<char>> {
    match spec_fixed_width(input, field, width) {
        Err(e) => Err(e),
        Ok(v) => if min <= v <= max {
            Ok(v)
        } else {
            Err(range_message(label, v, min, max))
        },
    }
}

/// A four-digit year.
pub open spec fn spec_year(s: Seq<char>) -> Result<nat, Seq<char>> {
    spec_fixed_width(s, "year"@, 4)
}

/// A two-digit month, `01` to `12`.
pub open spec fn spec_month(s: Seq<char>) -> Result<nat, Seq<char>> {
    spec_component(s, "month"@, "Month"@, 2, 1, 12)
}

/// A two-digit day, `01` to `31`.
pub open spec fn spec_day(s: Seq<char>) -> Result<nat, Seq<char>> {
    spec_component(s, "day"@, "Day"@, 2, 1, 31)
}

/// A two-digit hour, `00` to `23`.
pub open spec fn spec_hour(s: Seq<char>) -> Result<nat, Seq<char>> {
    spec_component(s, "hour"@, "Hour"@, 2, 0, 23)
}

/// A two-digit minute, `00` to `59`.
pub open spec fn spec_minute(s: Seq<char>) -> Result<nat, Seq<char>> {
    spec_component(s, "minute"@, "Minute"@, 2, 0, 59)
}

/// A two-digit second, `00` to `59`.
pub open spec fn spec_second(s: Seq<char>) -> Result<nat, Seq<char>> {
    spec_component(s, "second"@, "Second"@, 2, 0, 59)
}

/// Whether reading the zone `s` takes its byte slices `[1..3]` and `[3..5]`
/// without splitting a char (the reader panics otherwise).
pub open spec fn zone_sliceable(s: Seq<char>) -> bool {
    (byte_len(s) == 5 && s.len() > 0 && (s[0] == '+' || s[0] == '-')) ==> char_index_at(
        s,
        3,
    ) is Some
}

/// A `+HHMM` / `-HHMM` time zone offset; the zone is kept as written.
pub open spec fn spec_zone(s: Seq<char>) -> Result<Seq<char>, Seq<char>> {
    if byte_len(s) != 5 || s.len() == 0 || !(s[0] == '+' || s[0] == '-') {
        Err(zone_message(s))
    } else {
        let h = byte_slice(s, 1, 3)->Some_0;
        let m = byte_slice(s, 3, 5)->Some_0;
        if !all_digits(h) {
            Err(zone_message(s))
        } else if digits_value(h) > 23 {
            Err(range_message("Time zone hour"@, digits_value(h), 0, 23))
        } else if !all_digits(m) {
            Err(zone_message(s))
        } else if digits_value(m) > 59 {
            Err(range_message("Time zone minute"@, digits_value(m), 0, 59))
        } else {
            Ok(s)
        }
    }
}

/// Year, month and day, each read in turn.
pub open spec fn spec_calendar(y: Seq<char>, m: Seq<char>, d: Seq<char>) -> Result<
    (u16, u8, u8),
    Seq<char>,
> {
    match spec_year(y) {
        Err(e) => Err(e),
        Ok(year) => match spec_month(m) {
            Err(e) => Err(e),
            Ok(month) => match spec_day(d) {
                Err(e) => Err(e),
                Ok(day) => Ok((year as u16, month as u8, day as u8)),
            },
        },
    }
}

/// A calendar date written `YYYY-MM-DD`.
pub open spec fn spec_calendar_csv(date: Seq<char>) -> Result<(u16, u8, u8), Seq<char>> {
    let parts = split_char(date, '-');
    if parts.len() != 3 {
        Err("Date must be YYYY-MM-DD"@)
    } else {
        spec_calendar(parts[0], parts[1], parts[2])
    }
}

/// One to three pieces of two bytes each.
pub open spec fn clock_shape(parts: Seq<Seq<char>>) -> bool {
    &&& 0 < parts.len() <= 3
    &&& forall|i: int| 0 <= i < parts.len() ==> byte_len(#[trigger] parts[i]) == 2
}

/// A clock time written `HH`, `HH:MM` or `HH:MM:SS`.
pub open spec fn spec_clock(t: Seq<char>) -> Result<TimeView, Seq<char>> {
    let parts = split_char(t, ':');
    if !clock_shape(parts) {
        Err("Time must be HH[:MM[:SS]]"@)
    } else {
        match spec_hour(parts[0]) {
            Err(e) => Err(e),
            Ok(h) => if parts.len() == 1 {
                Ok(TimeView::Hour(h as u8))
            } else {
                match spec_minute(parts[1]) {
                    Err(e) => Err(e),
                    Ok(m) => if parts.len() == 2 {
                        Ok(TimeView::Minute(h as u8, m as u8))
                    } else {
                        match spec_second(parts[2]) {
                            Err(e) => Err(e),
                            Ok(s) => Ok(TimeView::Second(h as u8, m as u8, s as u8)),
                        }
                    },
                }
            },
        }
    }
}

/// Error text for a malformed time segment.
pub open spec fn time_message() -> Seq<char> {
    "Time must be HH[:MM[:SS]] with optional zone"@
}

/// A zone may only follow a clock time given to the second.
pub open spec fn spec_with_zone(t: TimeView, z: Seq<char>) -> Result<TimeView, Seq<char>> {
    match t {
        TimeView::Second(h, m, s) => Ok(TimeView::Zoned(h, m, s, z)),
        TimeView::Zoned(..) => Ok(t),
        _ => Err("Time zone cannot exist without second"@),
    }
}

/// A time segment: a clock time, then optionally one space and a zone.
pub open spec fn spec_time_and_zone(s: Seq<char>) -> Result<TimeView, Seq<char>> {
    let parts = split_char(s, ' ');
    if parts[0].len() == 0 || parts.len() > 2 || (parts.len() == 2 && parts[1].len() == 0) {
        Err(time_message())
    } else {
        match spec_clock(parts[0]) {
            Err(e) => Err(e),
            Ok(t) => if parts.len() == 2 {
                match spec_zone(parts[1]) {
                    Err(e) => Err(e),
                    Ok(z) => spec_with_zone(t, z),
                }
            } else {
                Ok(t)
            },
        }
    }
}

/// Whether reading the time segment `s` never slices a zone inside a char.
pub open spec fn time_sliceable(s: Seq<char>) -> bool {
    let parts = split_char(s, ' ');
    (parts.len() == 2 && parts[0].len() > 0 && parts[1].len() > 0 && spec_clock(parts[0]) is Ok)
        ==> zone_sliceable(parts[1])
}

/// The date part of a CSV date, and the time details after the first space.
pub open spec fn spec_split_csv_date(input: Seq<char>) -> (Seq<char>, Option<Seq<char>>) {
    match split_once_char(input, ' ') {
        Some((d, rest)) => (d, Some(rest)),
        None => (input, None),
    }
}

/// A CSV date `YYYY-MM-DD`, optionally followed by a space and a time segment.
pub open spec fn spec_parse_csv(input: Seq<char>) -> Result<DateView, Seq<char>> {
    let (d, t) = spec_split_csv_date(input);
    match spec_calendar_csv(d) {
        Err(e) => Err(e),
        Ok((y, m, dd)) => match t {
            None => Ok(DateView { year: y, month: m, day: dd, time: None }),
            Some(t) => match spec_time_and_zone(t) {
                Err(e) => Err(e),
                Ok(tv) => Ok(DateView { year: y, month: m, day: dd, time: Some(tv) }),
            },
        },
    }
}

/// Whether reading the CSV date `input` never slices a zone inside a char.
pub open spec fn csv_sliceable(input: Seq<char>) -> bool {
    let (d, t) = spec_split_csv_date(input);
    match t {
        Some(t) => spec_calendar_csv(d) is Ok ==> time_sliceable(t),
        None => true,
    }
}

/// The validity that every constructed date keeps.
pub open spec fn time_wf(t: TimeView) -> bool {
    match t {
        TimeView::Hour(h) => h <= 23,
        TimeView::Minute(h, m) => h <= 23 && m <= 59,
        TimeView::Second(h, m, s) => h <= 23 && m <= 59 && s <= 59,
        TimeView::Zoned(h, m, s, z) => h <= 23 && m <= 59 && s <= 59 && spec_zone(z) == Ok::<
            Seq<char>,
            Seq<char>,
        >(z),
    }
}

/// The validity that every constructed date keeps.
pub open spec fn date_wf(v: DateView) -> bool {
    &&& v.year <= 9999
    &&& 1 <= v.month <= 12
    &&& 1 <= v.day <= 31
    &&& match v.time {
        Some(t) => time_wf(t),
        None => true,
    }
}

/// The sortable key of a clock time: its components, two digits each, zone left out.
pub open spec fn time_key(t: TimeView) -> Seq<char> {
    match t {
        TimeView::Hour(h) => zero_padded(h as nat, 2),
        TimeView::Minute(h, m) => zero_padded(h as nat, 2) + zero_padded(m as nat, 2),
        TimeView::Second(h, m, s) => zero_padded(h as nat, 2) + zero_padded(m as nat, 2)
            + zero_padded(s as nat, 2),
        TimeView::Zoned(h, m, s, _) => zero_padded(h as nat, 2) + zero_padded(m as nat, 2)
            + zero_padded(s as nat, 2),
    }
}

/// The sortable key of a date: `YYYYMMDD`, then the clock components present.
pub open spec fn date_key(v: DateView) -> Seq<char> {
    zero_padded(v.year as nat, 4) + zero_padded(v.month as nat, 2) + zero_padded(v.day as nat, 2)
        + match v.time {
        Some(t) => time_key(t),
        None => Seq::<char>::empty(),
    }
}

/// `March 29, 2026`.
pub open spec fn date_label(v: DateView) -> Seq<char> {
    month_name(v.month) + " "@ + decimal(v.day as nat) + ", "@ + decimal(v.year as nat)
}

/// `13`, `13:45`, `13:45:30` or `13:45:30 -0400`.
pub open spec fn time_label(t: TimeView) -> Seq<char> {
    match t {
        TimeView::Hour(h) => zero_padded(h as nat, 2),
        TimeView::Minute(h, m) => zero_padded(h as nat, 2) + ":"@ + zero_padded(m as nat, 2),
        TimeView::Second(h, m, s) => zero_padded(h as nat, 2) + ":"@ + zero_padded(m as nat, 2)
            + ":"@ + zero_padded(s as nat, 2),
        TimeView::Zoned(h, m, s, z) => zero_padded(h as nat, 2) + ":"@ + zero_padded(m as nat, 2)
            + ":"@ + zero_padded(s as nat, 2) + " "@ + z,
    }
}

/// The date label, then the time label after a space when there is a time.
pub open spec fn date_display(v: DateView) -> Seq<char> {
    date_label(v) + match v.time {
        Some(t) => " "@ + time_label(t),
        None => Seq::<char>::empty(),
    }
}

/// A `Result` with its `String` error taken by view.
pub open spec fn str_result<T>(r: Result<T, String>) -> Result<T, Seq<char>> {
    match r {
        Ok(v) => Ok(v),
        Err(e) => Err(e@),
    }
}

// --------------------------------------------------
// messages
// --------------------------------------------------
/// `{field} `{input}` must be {width} digits`
fn width_error(field: &str, input: &Vec<char>, width: usize) -> (e: String)
    ensures
        e@ == width_message(field@, input@, width as nat),
{
    let mut out: Vec<char> = Vec::new();
    push_str(&mut out, field);
    push_str(&mut out, " `");
    out.extend_from_slice(input.as_slice());
    push_str(&mut out, "` must be ");
    push_decimal(&mut out, width as u64);
    push_str(&mut out, " digits");
    assert(out@ =~= width_message(field@, input@, width as nat));
    string_from_chars(&out)
}

/// `Invalid {field} `{input}``
fn invalid_error(field: &str, input: &Vec<char>) -> (e: String)
    ensures
        e@ == invalid_message(field@, input@),
{
    let mut out: Vec<char> = Vec::new();
    push_str(&mut out, "Invalid ");
    push_str(&mut out, field);
    push_str(&mut out, " `");
    out.extend_from_slice(input.as_slice());
    push_str(&mut out, "`");
    assert(out@ =~= invalid_message(field@, input@));
    string_from_chars(&out)
}

/// `{field} {value} out of range {min}-{max}`
fn range_error(field: &str, value: u8, min: u8, max: u8) -> (e: String)
    ensures
        e@ == range_message(field@, value as nat, min as nat, max as nat),
{
    let mut out: Vec<char> = Vec::new();
    push_str(&mut out, field);
    push_str(&mut out, " ");
    push_decimal(&mut out, value as u64);
    push_str(&mut out, " out of range ");
    push_decimal(&mut out, min as u64);
    push_str(&mut out, "-");
    push_decimal(&mut out, max as u64);
    assert(out@ =~= range_message(field@, value as nat, min as nat, max as nat));
    string_from_chars(&out)
}

/// `Invalid time zone `{input}``
fn zone_error(input: &Vec<char>) -> (e: String)
    ensures
        e@ == zone_message(input@),
{
    let mut out: Vec<char> = Vec::new();
    push_str(&mut out, "Invalid time zone `");
    out.extend_from_slice(input.as_slice());
    push_str(&mut out, "`");
    assert(out@ =~= zone_message(input@));
    string_from_chars(&out)
}

/// A fixed message.
fn message(text: &str) -> (e: String)
    ensures
        e@ == text@,
{
    let out = chars_of(text);
    string_from_chars(&out)
}

// --------------------------------------------------
// numeric components
// --------------------------------------------------
/// Numeric component parsing helpers.
struct NumericComponent;

impl NumericComponent {
    /// Parses a fixed-width `u16`.
    fn parse_u16(input: &Vec<char>, field: &str, width: usize) -> (r: Result<u16, String>)
        requires
            width <= 4,
        ensures
            str_result(r) == match spec_fixed_width(input@, field@, width as nat) {
                Ok(v) => Ok::<u16, Seq<char>>(v as u16),
                Err(e) => Err(e),
            },
            r matches Ok(v) ==> v == digits_value(input@),
    {
        Self::validate_component_width(input, field, width)?;
        Self::parse_unsigned(input, field)
    }

    /// Parses a fixed-width `u8`.
    fn parse_u8(input: &Vec<char>, field: &str, width: usize) -> (r: Result<u8, String>)
        requires
            width <= 2,
        ensures
            str_result(r) == match spec_fixed_width(input@, field@, width as nat) {
                Ok(v) => Ok::<u8, Seq<char>>(v as u8),
                Err(e) => Err(e),
            },
            r matches Ok(v) ==> v == digits_value(input@),
    {
        Self::validate_component_width(input, field, width)?;
        let v = Self::parse_unsigned(input, field)?;
        proof {
            lemma_digits_value_bound(input@);
            lemma_byte_len_digits(input@);
            reveal_with_fuel(pow10, 3);
            assert(input@.len() <= 2);
            assert(pow10(input@.len()) <= 100);
            assert(v < 100);
        }
        Ok(v as u8)
    }

    /// Parses an unsigned numeric string of at most four bytes.
    fn parse_unsigned(input: &Vec<char>, field: &str) -> (r: Result<u16, String>)
        requires
            byte_len(input@) <= 4,
        ensures
            str_result(r) == if all_digits(input@) {
                Ok::<u16, Seq<char>>(digits_value(input@) as u16)
            } else {
                Err(invalid_message(field@, input@))
            },
            r matches Ok(v) ==> v == digits_value(input@),
    {
        if !all_digits_exec(input) {
            return Err(invalid_error(field, input));
        }
        proof {
            lemma_byte_len_digits(input@);
        }
        Ok(digits_u16(input))
    }

    /// Validates a component's width in bytes.
    fn validate_component_width(input: &Vec<char>, field: &str, width: usize) -> (r: Result<
        (),
        String,
    >)
        requires
            width <= 4,
        ensures
            str_result(r) == if byte_len(input@) != width {
                Err(width_message(field@, input@, width as nat))
            } else {
                Ok::<(), Seq<char>>(())
            },
    {
        match byte_len_upto(input, width) {
            Some(n) => {
                if n != width {
                    return Err(width_error(field, input, width));
                }
            },
            None => {
                return Err(width_error(field, input, width));
            },
        }
        Ok(())
    }

    /// Validates an inclusive `u8` range.
    fn validate_u8_range(value: u8, field: &str, min: u8, max: u8) -> (r: Result<(), String>)
        ensures
            str_result(r) == if min <= value <= max {
                Ok::<(), Seq<char>>(())
            } else {
                Err(range_message(field@, value as nat, min as nat, max as nat))
            },
    {
        if min <= value && value <= max {
            Ok(())
        } else {
            Err(range_error(field, value, min, max))
        }
    }
}


// --------------------------------------------------
// components
// --------------------------------------------------
/// A validated year.
#[derive(Clone, Copy, Debug)]
struct Year(u16);

impl Year {
    /// Parses a year.
    fn parse(input: &Vec<char>) -> (r: Result<Year, String>)
        ensures
            str_result(r) == match spec_year(input@) {
                Ok(v) => Ok::<Year, Seq<char>>(Year(v as u16)),
                Err(e) => Err(e),
            },
            r matches Ok(y) ==> y.0 <= 9999,
    {
        let v = NumericComponent::parse_u16(input, "year", 4)?;
        proof {
            lemma_byte_len_digits(input@);
            lemma_digits_value_bound(input@);
            reveal_with_fuel(pow10, 5);
        }
        Ok(Year(v))
    }

    /// Returns the year.
    fn value(&self) -> (v: u16)
        ensures
            v == self.0,
    {
        self.0
    }
}

/// A validated month.
#[derive(Clone, Copy, Debug)]
struct Month(u8);

impl Month {
    /// Parses a month.
    fn parse(input: &Vec<char>) -> (r: Result<Month, String>)
        ensures
            str_result(r) == match spec_month(input@) {
                Ok(v) => Ok::<Month, Seq<char>>(Month(v as u8)),
                Err(e) => Err(e),
            },
    {
        let month = NumericComponent::parse_u8(input, "month", 2)?;
        NumericComponent::validate_u8_range(month, "Month", 1, 12)?;
        Ok(Month(month))
    }

    /// Returns the month.
    fn value(&self) -> (v: u8)
        ensures
            v == self.0,
    {
        self.0
    }
}

/// A validated day.
#[derive(Clone, Copy, Debug)]
struct Day(u8);

impl Day {
    /// Parses a day.
    fn parse(input: &Vec<char>) -> (r: Result<Day, String>)
        ensures
            str_result(r) == match spec_day(input@) {
                Ok(v) => Ok::<Day, Seq<char>>(Day(v as u8)),
                Err(e) => Err(e),
            },
    {
        let day = NumericComponent::parse_u8(input, "day", 2)?;
        NumericComponent::validate_u8_range(day, "Day", 1, 31)?;
        Ok(Day(day))
    }

    /// Returns the day.
    fn value(&self) -> (v: u8)
        ensures
            v == self.0,
    {
        self.0
    }
}

/// A validated hour.
#[derive(Clone, Copy, Debug)]
struct Hour(u8);

impl Hour {
    /// Parses an hour.
    fn parse(input: &Vec<char>) -> (r: Result<Hour, String>)
        ensures
            str_result(r) == match spec_hour(input@) {
                Ok(v) => Ok::<Hour, Seq<char>>(Hour(v as u8)),
                Err(e) => Err(e),
            },
    {
        let hour = NumericComponent::parse_u8(input, "hour", 2)?;
        NumericComponent::validate_u8_range(hour, "Hour", 0, 23)?;
        Ok(Hour(hour))
    }

    /// Returns the hour.
    fn value(&self) -> (v: u8)
        ensures
            v == self.0,
    {
        self.0
    }

    /// Appends the hour to a sortable key.
    fn push_key(&self, key: &mut Vec<char>)
        ensures
            final(key)@ == old(key)@ + zero_padded(self.0 as nat, 2),
    {
        push_zero_padded(key, self.value() as u64, 2);
    }
}

/// A validated minute.
#[derive(Clone, Copy, Debug)]
struct Minute(u8);

impl Minute {
    /// Parses a minute.
    fn parse(input: &Vec<char>) -> (r: Result<Minute, String>)
        ensures
            str_result(r) == match spec_minute(input@) {
                Ok(v) => Ok::<Minute, Seq<char>>(Minute(v as u8)),
                Err(e) => Err(e),
            },
    {
        let minute = NumericComponent::parse_u8(input, "minute", 2)?;
        NumericComponent::validate_u8_range(minute, "Minute", 0, 59)?;
        Ok(Minute(minute))
    }

    /// Returns the minute.
    fn value(&self) -> (v: u8)
        ensures
            v == self.0,
    {
        self.0
    }

    /// Appends the minute to a sortable key.
    fn push_key(&self, key: &mut Vec<char>)
        ensures
            final(key)@ == old(key)@ + zero_padded(self.0 as nat, 2),
    {
        push_zero_padded(key, self.value() as u64, 2);
    }
}

/// A validated second.
#[derive(Clone, Copy, Debug)]
struct Second(u8);

impl Second {
    /// Parses a second.
    fn parse(input: &Vec<char>) -> (r: Result<Second, String>)
        ensures
            str_result(r) == match spec_second(input@) {
                Ok(v) => Ok::<Second, Seq<char>>(Second(v as u8)),
                Err(e) => Err(e),
            },
    {
        let second = NumericComponent::parse_u8(input, "second", 2)?;
        NumericComponent::validate_u8_range(second, "Second", 0, 59)?;
        Ok(Second(second))
    }

    /// Returns the second.
    fn value(&self) -> (v: u8)
        ensures
            v == self.0,
    {
        self.0
    }

    /// Appends the second to a sortable key.
    fn push_key(&self, key: &mut Vec<char>)
        ensures
            final(key)@ == old(key)@ + zero_padded(self.0 as nat, 2),
    {
        push_zero_padded(key, self.value() as u64, 2);
    }
}

/// A validated time zone offset, kept as written.
#[derive(Debug)]
struct Zone(String);

impl Zone {
    /// The zone as written.
    pub closed spec fn text(&self) -> Seq<char> {
        self.0@
    }

    /// Parses a time zone offset.
    fn parse(input: &Vec<char>) -> (r: Result<Zone, String>)
        requires
            zone_sliceable(input@),
        ensures
            match spec_zone(input@) {
                Ok(z) => r is Ok && r->Ok_0.0@ == z,
                Err(e) => r is Err && r->Err_0@ == e,
            },
    {
        let n = byte_len_upto(input, 5);
        let five = match n {
            Some(k) => k == 5,
            None => false,
        };
        if !five || input.len() == 0 || !(input[0] == '+' || input[0] == '-') {
            return Err(zone_error(input));
        }
        proof {
            lemma_char_index_at_first(input@);
            lemma_char_width(input@[0]);
            lemma_char_index_at_end(input@);
            lemma_char_index_at(input@, 3);
        }
        let k = index_at_byte(input, 3).unwrap();
        proof {
            lemma_char_index_at(input@, 1);
            assert(input@.subrange(0, k as int) =~= input@.subrange(0, 1) + input@.subrange(
                1,
                k as int,
            ));
            lemma_byte_len_concat(input@.subrange(0, 1), input@.subrange(1, k as int));
            assert(input@.subrange(0, input@.len() as int) =~= input@);
            assert(input@ =~= input@.subrange(0, k as int) + input@.subrange(
                k as int,
                input@.len() as int,
            ));
            lemma_byte_len_concat(
                input@.subrange(0, k as int),
                input@.subrange(k as int, input@.len() as int),
            );
        }
        let hour_part = sub_chars(input, 1, k);
        let hour = match NumericComponent::parse_u8(&hour_part, "time zone hour", 2) {
            Ok(h) => h,
            Err(_) => {
                return Err(zone_error(input));
            },
        };
        NumericComponent::validate_u8_range(hour, "Time zone hour", 0, 23)?;
        let minute_part = sub_chars(input, k, input.len());
        let minute = match NumericComponent::parse_u8(&minute_part, "time zone minute", 2) {
            Ok(m) => m,
            Err(_) => {
                return Err(zone_error(input));
            },
        };
        NumericComponent::validate_u8_range(minute, "Time zone minute", 0, 59)?;
        Ok(Zone(string_from_chars(input)))
    }

    /// Converts the zone into its string representation.
    fn into_string(self) -> (s: String)
        ensures
            s@ == self.0@,
    {
        self.0
    }
}

// --------------------------------------------------
// calendar date
// --------------------------------------------------
/// A validated calendar date.
#[derive(Clone, Copy, Debug)]
struct CalendarDate {
    year: Year,
    month: Month,
    day: Day,
}

impl CalendarDate {
    /// The components as plain values.
    spec fn parts(&self) -> (u16, u8, u8) {
        (self.year.0, self.month.0, self.day.0)
    }

    /// Builds a calendar date from path components.
    fn from_path_parts(year: &Vec<char>, month: &Vec<char>, day: &Vec<char>) -> (r: Result<
        CalendarDate,
        String,
    >)
        ensures
            match spec_calendar(year@, month@, day@) {
                Ok(p) => r is Ok && r->Ok_0.parts() == p,
                Err(e) => r is Err && r->Err_0@ == e,
            },
            r matches Ok(c) ==> c.year.0 <= 9999,
    {
        let year = Year::parse(year)?;
        let month = Month::parse(month)?;
        let day = Day::parse(day)?;
        Ok(CalendarDate { year, month, day })
    }

    /// Builds a calendar date from a CSV date segment.
    fn parse_csv(date: &Vec<char>) -> (r: Result<CalendarDate, String>)
        ensures
            match spec_calendar_csv(date@) {
                Ok(p) => r is Ok && r->Ok_0.parts() == p,
                Err(e) => r is Err && r->Err_0@ == e,
            },
            r matches Ok(c) ==> c.year.0 <= 9999,
    {
        let date_parts = split_chars(date, '-');
        if date_parts.len() != 3 {
            return Err(message("Date must be YYYY-MM-DD"));
        }
        Self::from_path_parts(&date_parts[0], &date_parts[1], &date_parts[2])
    }

    /// Returns the year.
    fn year(&self) -> (v: u16)
        ensures
            v == self.year.0,
    {
        self.year.value()
    }

    /// Returns the month.
    fn month(&self) -> (v: u8)
        ensures
            v == self.month.0,
    {
        self.month.value()
    }

    /// Returns the day.
    fn day(&self) -> (v: u8)
        ensures
            v == self.day.0,
    {
        self.day.value()
    }

    /// Returns a sortable calendar key.
    fn as_key(&self) -> (key: Vec<char>)
        ensures
            key@ == zero_padded(self.year.0 as nat, 4) + zero_padded(self.month.0 as nat, 2)
                + zero_padded(self.day.0 as nat, 2),
    {
        let mut key: Vec<char> = Vec::new();
        push_zero_padded(&mut key, self.year() as u64, 4);
        push_zero_padded(&mut key, self.month() as u64, 2);
        push_zero_padded(&mut key, self.day() as u64, 2);
        assert(key@ =~= zero_padded(self.year.0 as nat, 4) + zero_padded(self.month.0 as nat, 2)
            + zero_padded(self.day.0 as nat, 2));
        key
    }

    /// Appends the calendar label, e.g. `March 29, 2026`.
    fn push_label(&self, out: &mut Vec<char>)
        requires
            1 <= self.month.0 <= 12,
        ensures
            final(out)@ == old(out)@ + month_name(self.month.0) + " "@ + decimal(self.day.0 as nat)
                + ", "@ + decimal(self.year.0 as nat),
    {
        push_str(out, month_str(self.month()));
        push_str(out, " ");
        push_decimal(out, self.day() as u64);
        push_str(out, ", ");
        push_decimal(out, self.year() as u64);
    }
}

/// The name of month `m`.
fn month_str(m: u8) -> (s: &'static str)
    requires
        1 <= m <= 12,
    ensures
        s@ == month_name(m),
{
    if m == 1 {
        "January"
    } else if m == 2 {
        "February"
    } else if m == 3 {
        "March"
    } else if m == 4 {
        "April"
    } else if m == 5 {
        "May"
    } else if m == 6 {
        "June"
    } else if m == 7 {
        "July"
    } else if m == 8 {
        "August"
    } else if m == 9 {
        "September"
    } else if m == 10 {
        "October"
    } else if m == 11 {
        "November"
    } else {
        "December"
    }
}

// --------------------------------------------------
// clock time
// --------------------------------------------------
/// A validated clock time with hierarchical precision.
#[derive(Debug)]
enum ClockTime {
    Hour(Hour),
    Minute(Hour, Minute),
    Second(Hour, Minute, Second),
    Zoned(Hour, Minute, Second, Zone),
}

impl ClockTime {
    /// The clock time as a plain value.
    pub closed spec fn view(&self) -> TimeView {
        match self {
            ClockTime::Hour(h) => TimeView::Hour(h.0),
            ClockTime::Minute(h, m) => TimeView::Minute(h.0, m.0),
            ClockTime::Second(h, m, s) => TimeView::Second(h.0, m.0, s.0),
            ClockTime::Zoned(h, m, s, z) => TimeView::Zoned(h.0, m.0, s.0, z.0@),
        }
    }

    /// Parses optional CSV time details.
    fn parse_optional(input: Option<&Vec<char>>) -> (r: Result<Option<ClockTime>, String>)
        requires
            input matches Some(t) ==> time_sliceable(t@),
        ensures
            match input {
                None => r matches Ok(None),
                Some(t) => match spec_time_and_zone(t@) {
                    Ok(v) => r matches Ok(Some(c)) && c.view() == v,
                    Err(e) => r is Err && r->Err_0@ == e,
                },
            },
    {
        let input = match input {
            Some(t) => t,
            None => {
                return Ok(None);
            },
        };
        let t = Self::parse_time_and_zone(input)?;
        Ok(Some(t))
    }

    /// Parses a time segment with an optional zone.
    fn parse_time_and_zone(input: &Vec<char>) -> (r: Result<ClockTime, String>)
        requires
            time_sliceable(input@),
        ensures
            match spec_time_and_zone(input@) {
                Ok(v) => r is Ok && r->Ok_0.view() == v,
                Err(e) => r is Err && r->Err_0@ == e,
            },
    {
        let parts = split_chars(input, ' ');
        proof {
            lemma_split_char_nonempty(input@, ' ');
        }
        if parts[0].len() == 0 || parts.len() > 2 || (parts.len() == 2 && parts[1].len() == 0) {
            return Err(message("Time must be HH[:MM[:SS]] with optional zone"));
        }
        let time = Self::parse_clock(&parts[0])?;
        if parts.len() == 2 {
            let zone = Zone::parse(&parts[1])?;
            time.with_zone(zone)
        } else {
            Ok(time)
        }
    }

    /// Parses an `HH[:MM[:SS]]` clock segment.
    fn parse_clock(time: &Vec<char>) -> (r: Result<ClockTime, String>)
        ensures
            match spec_clock(time@) {
                Ok(v) => r is Ok && r->Ok_0.view() == v,
                Err(e) => r is Err && r->Err_0@ == e,
            },
    {
        let time_parts = split_chars(time, ':');
        let ghost parts = split_char(time@, ':');
        if time_parts.len() == 0 || time_parts.len() > 3 {
            return Err(message("Time must be HH[:MM[:SS]]"));
        }
        let mut i: usize = 0;
        while i < time_parts.len()
            invariant
                i <= time_parts.len(),
                parts == split_char(time@, ':'),
                time_parts@.len() == parts.len(),
                forall|k: int| 0 <= k < time_parts@.len() ==> #[trigger] time_parts@[k]@ == parts[k],
                forall|j: int| 0 <= j < i ==> byte_len(#[trigger] parts[j]) == 2,
            decreases time_parts.len() - i,
        {
            let two = match byte_len_upto(&time_parts[i], 2) {
                Some(n) => n == 2,
                None => false,
            };
            if !two {
                assert(byte_len(parts[i as int]) != 2);
                assert(!clock_shape(parts));
                return Err(message("Time must be HH[:MM[:SS]]"));
            }
            i = i + 1;
        }
        let hour = Hour::parse(&time_parts[0])?;
        if time_parts.len() == 1 {
            Ok(ClockTime::Hour(hour))
        } else if time_parts.len() == 2 {
            let minute = Minute::parse(&time_parts[1])?;
            Ok(ClockTime::Minute(hour, minute))
        } else {
            let minute = Minute::parse(&time_parts[1])?;
            let second = Second::parse(&time_parts[2])?;
            Ok(ClockTime::Second(hour, minute, second))
        }
    }

    /// Adds a time zone to a second-precision clock time.
    fn with_zone(self, zone: Zone) -> (r: Result<ClockTime, String>)
        ensures
            match spec_with_zone(self.view(), zone.0@) {
                Ok(v) => r is Ok && r->Ok_0.view() == v,
                Err(e) => r is Err && r->Err_0@ == e,
            },
    {
        match self {
            ClockTime::Second(hour, minute, second) => Ok(
                ClockTime::Zoned(hour, minute, second, zone),
            ),
            ClockTime::Zoned(..) => Ok(self),
            ClockTime::Hour(_) | ClockTime::Minute(_, _) => Err(
                message("Time zone cannot exist without second"),
            ),
        }
    }

    /// Appends the clock portion to a sortable key.
    fn push_key(&self, key: &mut Vec<char>)
        ensures
            final(key)@ == old(key)@ + time_key(self.view()),
    {
        match self {
            ClockTime::Hour(hour) => {
                hour.push_key(key);
            },
            ClockTime::Minute(hour, minute) => {
                hour.push_key(key);
                minute.push_key(key);
            },
            ClockTime::Second(hour, minute, second) | ClockTime::Zoned(hour, minute, second, _) => {
                hour.push_key(key);
                minute.push_key(key);
                second.push_key(key);
            },
        }
        assert(key@ =~= old(key)@ + time_key(self.view()));
    }

    /// Appends the clock label, e.g. `13:45:30 -0400`.
    fn push_label(&self, out: &mut Vec<char>)
        ensures
            final(out)@ == old(out)@ + time_label(self.view()),
    {
        match self {
            ClockTime::Hour(hour) => {
                push_zero_padded(out, hour.value() as u64, 2);
            },
            ClockTime::Minute(hour, minute) => {
                push_zero_padded(out, hour.value() as u64, 2);
                push_str(out, ":");
                push_zero_padded(out, minute.value() as u64, 2);
            },
            ClockTime::Second(hour, minute, second) => {
                push_zero_padded(out, hour.value() as u64, 2);
                push_str(out, ":");
                push_zero_padded(out, minute.value() as u64, 2);
                push_str(out, ":");
                push_zero_padded(out, second.value() as u64, 2);
            },
            ClockTime::Zoned(hour, minute, second, zone) => {
                push_zero_padded(out, hour.value() as u64, 2);
                push_str(out, ":");
                push_zero_padded(out, minute.value() as u64, 2);
                push_str(out, ":");
                push_zero_padded(out, second.value() as u64, 2);
                push_str(out, " ");
                push_str(out, zone.0.as_str());
            },
        }
        assert(out@ =~= old(out)@ + time_label(self.view()));
    }
}

// --------------------------------------------------
// date format
// --------------------------------------------------
/// A date with optional hierarchical time components.
#[derive(Debug)]
pub struct DateFormat {
    /// Calendar date.
    date: CalendarDate,
    /// Optional clock time.
    time: Option<ClockTime>,
}

impl View for DateFormat {
    type V = DateView;

    closed spec fn view(&self) -> DateView {
        DateView {
            year: self.date.year.0,
            month: self.date.month.0,
            day: self.date.day.0,
            time: match self.time {
                Some(t) => Some(t.view()),
                None => None,
            },
        }
    }
}

impl DateFormat {
    /// Every date holds validated components.
    #[verifier::type_invariant]
    closed spec fn inv(self) -> bool {
        date_wf(self@)
    }

    /// Build from the `YYYY`, `MM`, `DD` parent-directory strings.
    pub fn from_path_parts(year: &str, month: &str, day: &str) -> (r: Result<DateFormat, String>)
        ensures
            match spec_calendar(year@, month@, day@) {
                Ok((y, m, d)) => r is Ok && r->Ok_0@ == DateView {
                    year: y,
                    month: m,
                    day: d,
                    time: None,
                },
                Err(e) => r is Err && r->Err_0@ == e,
            },
    {
        let date = CalendarDate::from_path_parts(
            &chars_of(year),
            &chars_of(month),
            &chars_of(day),
        )?;
        Ok(DateFormat { date, time: None })
    }

    /// Build from `YYYY-MM-DD`, optionally followed by hierarchical time;
    /// the input must be a valid CSV date.
    pub fn from_csv(input: &str) -> (r: DateFormat)
        requires
            csv_sliceable(input@),
            spec_parse_csv(input@) is Ok,
        ensures
            r@ == spec_parse_csv(input@)->Ok_0,
    {
        match Self::parse_csv(input) {
            Ok(d) => d,
            Err(_) => {
                assert(false);
                Self::parse_csv(input).unwrap()
            },
        }
    }

    /// Parse a CSV date string into a [`DateFormat`].
    pub fn parse_csv(input: &str) -> (r: Result<DateFormat, String>)
        requires
            csv_sliceable(input@),
        ensures
            match spec_parse_csv(input@) {
                Ok(v) => r is Ok && r->Ok_0@ == v,
                Err(e) => r is Err && r->Err_0@ == e,
            },
    {
        let input = chars_of(input);
        let (date, time) = Self::split_csv_date(&input);
        let date = CalendarDate::parse_csv(&date)?;
        let time = match &time {
            Some(t) => ClockTime::parse_optional(Some(t))?,
            None => ClockTime::parse_optional(None)?,
        };
        Ok(DateFormat { date, time })
    }

    /// Parse a four-digit year.
    pub fn parse_year(input: &str) -> (r: Result<u16, String>)
        ensures
            str_result(r) == match spec_year(input@) {
                Ok(v) => Ok::<u16, Seq<char>>(v as u16),
                Err(e) => Err(e),
            },
    {
        let y = Year::parse(&chars_of(input))?;
        Ok(y.value())
    }

    /// Parse a two-digit month.
    pub fn parse_month(input: &str) -> (r: Result<u8, String>)
        ensures
            str_result(r) == match spec_month(input@) {
                Ok(v) => Ok::<u8, Seq<char>>(v as u8),
                Err(e) => Err(e),
            },
    {
        let m = Month::parse(&chars_of(input))?;
        Ok(m.value())
    }

    /// Parse a two-digit day.
    pub fn parse_day(input: &str) -> (r: Result<u8, String>)
        ensures
            str_result(r) == match spec_day(input@) {
                Ok(v) => Ok::<u8, Seq<char>>(v as u8),
                Err(e) => Err(e),
            },
    {
        let d = Day::parse(&chars_of(input))?;
        Ok(d.value())
    }

    /// Parse a two-digit hour.
    pub fn parse_hour(input: &str) -> (r: Result<u8, String>)
        ensures
            str_result(r) == match spec_hour(input@) {
                Ok(v) => Ok::<u8, Seq<char>>(v as u8),
                Err(e) => Err(e),
            },
    {
        let h = Hour::parse(&chars_of(input))?;
        Ok(h.value())
    }

    /// Parse a two-digit minute.
    pub fn parse_minute(input: &str) -> (r: Result<u8, String>)
        ensures
            str_result(r) == match spec_minute(input@) {
                Ok(v) => Ok::<u8, Seq<char>>(v as u8),
                Err(e) => Err(e),
            },
    {
        let m = Minute::parse(&chars_of(input))?;
        Ok(m.value())
    }

    /// Parse a two-digit second.
    pub fn parse_second(input: &str) -> (r: Result<u8, String>)
        ensures
            str_result(r) == match spec_second(input@) {
                Ok(v) => Ok::<u8, Seq<char>>(v as u8),
                Err(e) => Err(e),
            },
    {
        let s = Second::parse(&chars_of(input))?;
        Ok(s.value())
    }

    /// Parse a `+/-ZZZZ` time zone offset.
    pub fn parse_zone(input: &str) -> (r: Result<String, String>)
        requires
            zone_sliceable(input@),
        ensures
            str_result(r) == match spec_zone(input@) {
                Ok(z) => Ok::<String, Seq<char>>(r->Ok_0),
                Err(e) => Err(e),
            },
            r matches Ok(z) ==> z@ == input@,
    {
        let z = Zone::parse(&chars_of(input))?;
        Ok(z.into_string())
    }

    /// Returns the year.
    pub fn year(&self) -> (v: u16)
        ensures
            v == self@.year,
    {
        self.date.year()
    }

    /// Returns the month.
    pub fn month(&self) -> (v: u8)
        ensures
            v == self@.month,
    {
        self.date.month()
    }

    /// Returns the day.
    pub fn day(&self) -> (v: u8)
        ensures
            v == self@.day,
    {
        self.date.day()
    }

    /// Returns a sortable date/time key.
    pub fn as_key(&self) -> (key: String)
        ensures
            key@ == date_key(self@),
    {
        let mut key = self.date.as_key();
        if let Some(time) = &self.time {
            time.push_key(&mut key);
        }
        assert(key@ =~= date_key(self@));
        string_from_chars(&key)
    }

    /// Returns the calendar date label.
    pub fn date_label(&self) -> (s: String)
        ensures
            s@ == date_label(self@),
    {
        proof {
            use_type_invariant(self);
        }
        let mut out: Vec<char> = Vec::new();
        self.date.push_label(&mut out);
        assert(out@ =~= date_label(self@));
        string_from_chars(&out)
    }

    /// Returns the clock time label, empty when there is no time.
    pub fn time_label(&self) -> (s: String)
        ensures
            s@ == match self@.time {
                Some(t) => time_label(t),
                None => Seq::<char>::empty(),
            },
    {
        let mut out: Vec<char> = Vec::new();
        if let Some(time) = &self.time {
            time.push_label(&mut out);
        }
        assert(out@ =~= match self@.time {
            Some(t) => time_label(t),
            None => Seq::<char>::empty(),
        });
        string_from_chars(&out)
    }

    /// Renders the date with whatever time precision exists,
    /// e.g. `June 11, 2026 13:45:30 -0400`.
    pub fn to_string(&self) -> (s: String)
        ensures
            s@ == date_display(self@),
    {
        proof {
            use_type_invariant(self);
        }
        let mut out: Vec<char> = Vec::new();
        self.date.push_label(&mut out);
        if let Some(time) = &self.time {
            push_str(&mut out, " ");
            time.push_label(&mut out);
        }
        assert(out@ =~= date_display(self@));
        string_from_chars(&out)
    }

    /// Splits a CSV date from optional time details at the first space.
    fn split_csv_date(input: &Vec<char>) -> (r: (Vec<char>, Option<Vec<char>>))
        ensures
            r.0@ == spec_split_csv_date(input@).0,
            match (r.1, spec_split_csv_date(input@).1) {
                (Some(a), Some(b)) => a@ == b,
                (None, None) => true,
                _ => false,
            },
    {
        proof {
            lemma_find_char(input@, ' ');
        }
        match find_char_index(input, ' ') {
            Some(i) => (sub_chars(input, 0, i), Some(sub_chars(input, i + 1, input.len()))),
            None => (input.clone(), None),
        }
    }
}

impl Clone for Zone {
    fn clone(&self) -> (r: Zone)
        ensures
            r.text() == self.text(),
    {
        Zone(self.0.clone())
    }
}

impl Clone for ClockTime {
    fn clone(&self) -> (r: ClockTime)
        ensures
            r.view() == self.view(),
    {
        match self {
            ClockTime::Hour(h) => ClockTime::Hour(*h),
            ClockTime::Minute(h, m) => ClockTime::Minute(*h, *m),
            ClockTime::Second(h, m, s) => ClockTime::Second(*h, *m, *s),
            ClockTime::Zoned(h, m, s, z) => ClockTime::Zoned(*h, *m, *s, z.clone()),
        }
    }
}

impl Clone for DateFormat {
    fn clone(&self) -> (r: DateFormat)
        ensures
            r@ == self@,
    {
        proof {
            use_type_invariant(self);
        }
        let time = match &self.time {
            Some(t) => Some(t.clone()),
            None => None,
        };
        DateFormat { date: self.date, time }
    }
}

// --------------------------------------------------
// laws
// --------------------------------------------------
/// The numbers a date is ordered by: year, month, day, then each clock
/// component present (the zone is not one of them).
pub open spec fn date_components(v: DateView) -> Seq<nat> {
    seq![v.year as nat, v.month as nat, v.day as nat] + match v.time {
        None => Seq::<nat>::empty(),
        Some(t) => time_components(t),
    }
}

/// The width each component takes in the key.
pub open spec fn key_widths(n: nat) -> Seq<nat> {
    seq![4nat, 2nat, 2nat] + Seq::new((n - 3) as nat, |i: int| 2nat)
}

/// The clock components of a time, zone left out.
pub open spec fn time_components(t: TimeView) -> Seq<nat> {
    match t {
        TimeView::Hour(h) => seq![h as nat],
        TimeView::Minute(h, m) => seq![h as nat, m as nat],
        TimeView::Second(h, m, s) => seq![h as nat, m as nat, s as nat],
        TimeView::Zoned(h, m, s, _) => seq![h as nat, m as nat, s as nat],
    }
}

/// The key is the components, each zero-padded to its width, in order.
proof fn lemma_key_is_padded_components(v: DateView)
    ensures
        date_key(v) == padded_concat(date_components(v), key_widths(date_components(v).len())),
        3 <= date_components(v).len() <= 6,
{
    let c = date_components(v);
    let w = key_widths(c.len());
    let c3 = seq![v.year as nat, v.month as nat, v.day as nat];
    let w3 = seq![4nat, 2nat, 2nat];
    let ct = c.subrange(3, c.len() as int);
    let wt = w.subrange(3, w.len() as int);
    assert(c =~= c3 + ct);
    assert(w =~= w3 + wt);
    lemma_padded_concat_append(c3, ct, w3, wt);
    lemma_padded_concat_small(c3, w3);
    match v.time {
        None => {
            assert(ct =~= Seq::<nat>::empty());
            assert(padded_concat(ct, wt) =~= Seq::<char>::empty());
        },
        Some(t) => {
            assert(ct =~= time_components(t));
            lemma_padded_concat_small(ct, wt);
            assert(padded_concat(ct, wt) =~= time_key(t));
        },
    }
    assert(date_key(v) =~= padded_concat(c, w));
}

/// Law: the sortable key orders dates chronologically. For two valid dates
/// given to the same precision, one key sorts before the other exactly when
/// its date (then hour, minute, second) comes first, and the keys are equal
/// exactly when those components are.
#[verifier::rlimit(40)]
pub proof fn law_key_orders_chronologically(a: DateView, b: DateView)
    requires
        date_wf(a),
        date_wf(b),
        date_components(a).len() == date_components(b).len(),
    ensures
        lex_lt(date_key(a), date_key(b)) <==> nat_lex_lt(date_components(a), date_components(b)),
        date_key(a) == date_key(b) <==> date_components(a) == date_components(b),
{
    lemma_key_is_padded_components(a);
    lemma_key_is_padded_components(b);
    let ca = date_components(a);
    let cb = date_components(b);
    let w = key_widths(ca.len());
    reveal_with_fuel(pow10, 5);
    assert(pow10(4) == 10000 && pow10(2) == 100);
    assert forall|i: int| 0 <= i < w.len() implies #[trigger] ca[i] < pow10(w[i]) && w[i] >= 1 by {
        if i >= 3 {
            assert(w[i] == 2);
        }
    }
    assert forall|i: int| 0 <= i < w.len() implies #[trigger] cb[i] < pow10(w[i]) by {
        if i >= 3 {
            assert(w[i] == 2);
        }
    }
    lemma_padded_concat_order(ca, cb, w);
}

/// A fixed-width component written back zero-padded is the text it was read from.
proof fn lemma_fixed_width_roundtrip(s: Seq<char>, field: Seq<char>, width: nat)
    requires
        1 <= width <= 4,
        spec_fixed_width(s, field, width) is Ok,
    ensures
        zero_padded(digits_value(s), width) == s,
        digits_value(s) < pow10(width),
        s.len() == width,
{
    lemma_byte_len_digits(s);
    lemma_zero_padded_digits(s);
    lemma_digits_value_bound(s);
}

/// Law: a date built from its `YYYY`, `MM`, `DD` path parts has the key
/// that is those parts written one after the other
/// (`2026`, `03`, `29` give `20260329`).
pub proof fn law_path_parts_key(y: Seq<char>, m: Seq<char>, d: Seq<char>)
    requires
        spec_calendar(y, m, d) is Ok,
    ensures
        ({
            let (yy, mm, dd) = spec_calendar(y, m, d)->Ok_0;
            date_key(DateView { year: yy, month: mm, day: dd, time: None }) == y + m + d
        }),
{
    lemma_fixed_width_roundtrip(y, "year"@, 4);
    lemma_fixed_width_roundtrip(m, "month"@, 2);
    lemma_fixed_width_roundtrip(d, "day"@, 2);
    reveal_with_fuel(pow10, 5);
    let (yy, mm, dd) = spec_calendar(y, m, d)->Ok_0;
    assert(yy as nat == digits_value(y));
    assert(mm as nat == digits_value(m));
    assert(dd as nat == digits_value(d));
    assert(date_key(DateView { year: yy, month: mm, day: dd, time: None }) =~= y + m + d);
}

/// The digits a CSV date is written with: the date pieces, then the clock
/// pieces, without separators or zone.
pub open spec fn csv_written_digits(input: Seq<char>) -> Seq<char> {
    let (d, t) = spec_split_csv_date(input);
    split_char(d, '-').flatten() + match t {
        Some(t) => split_char(split_char(t, ' ')[0], ':').flatten(),
        None => Seq::<char>::empty(),
    }
}

/// The key of a clock time is the clock text without its colons.
proof fn lemma_clock_key(t: Seq<char>)
    requires
        spec_clock(t) is Ok,
    ensures
        time_key(spec_clock(t)->Ok_0) == split_char(t, ':').flatten(),
{
    let parts = split_char(t, ':');
    reveal_with_fuel(Seq::<_>::flatten, 4);
    reveal_with_fuel(pow10, 3);
    lemma_fixed_width_roundtrip(parts[0], "hour"@, 2);
    if parts.len() >= 2 {
        lemma_fixed_width_roundtrip(parts[1], "minute"@, 2);
    }
    if parts.len() >= 3 {
        lemma_fixed_width_roundtrip(parts[2], "second"@, 2);
    }
    if parts.len() == 1 {
        assert(parts.drop_first() =~= Seq::<Seq<char>>::empty());
        assert(time_key(spec_clock(t)->Ok_0) =~= parts.flatten());
    } else if parts.len() == 2 {
        assert(parts.drop_first().drop_first() =~= Seq::<Seq<char>>::empty());
        assert(time_key(spec_clock(t)->Ok_0) =~= parts.flatten());
    } else {
        assert(parts.drop_first().drop_first().drop_first() =~= Seq::<Seq<char>>::empty());
        assert(time_key(spec_clock(t)->Ok_0) =~= parts.flatten());
    }
}

/// Law: the key of a CSV date is the digits it was written with, in order,
/// separators and zone left out (`2026-06-11 13:45:30 -0400` gives
/// `20260611134530`).
pub proof fn law_csv_key_is_written_digits(input: Seq<char>)
    requires
        spec_parse_csv(input) is Ok,
    ensures
        date_key(spec_parse_csv(input)->Ok_0) == csv_written_digits(input),
{
    let (d, t) = spec_split_csv_date(input);
    let parts = split_char(d, '-');
    lemma_fixed_width_roundtrip(parts[0], "year"@, 4);
    lemma_fixed_width_roundtrip(parts[1], "month"@, 2);
    lemma_fixed_width_roundtrip(parts[2], "day"@, 2);
    reveal_with_fuel(pow10, 5);
    reveal_with_fuel(Seq::<_>::flatten, 4);
    assert(parts.drop_first().drop_first().drop_first() =~= Seq::<Seq<char>>::empty());
    let v = spec_parse_csv(input)->Ok_0;
    let date_part = zero_padded(v.year as nat, 4) + zero_padded(v.month as nat, 2) + zero_padded(
        v.day as nat,
        2,
    );
    assert(date_part =~= parts.flatten());
    match t {
        None => {
            assert(date_key(v) =~= csv_written_digits(input));
        },
        Some(tt) => {
            let clock = split_char(tt, ' ')[0];
            lemma_clock_key(clock);
            assert(time_key(v.time->Some_0) == time_key(spec_clock(clock)->Ok_0));
            assert(date_key(v) =~= csv_written_digits(input));
        },
    }
}


/// How many clock components a date carries: none, the hour, the hour and
/// minute, or all three (a zone adds none).
pub open spec fn clock_precision(v: DateView) -> nat {
    match v.time {
        None => 0,
        Some(TimeView::Hour(_)) => 1,
        Some(TimeView::Minute(..)) => 2,
        Some(_) => 3,
    }
}

/// Law: the key of a CSV date is eight digits for the day, then two for
/// each clock component given; so it is 8, 10, 12 or 14 characters long.
pub proof fn law_csv_key_length(input: Seq<char>)
    requires
        spec_parse_csv(input) is Ok,
    ensures
        date_key(spec_parse_csv(input)->Ok_0).len() == 8 + 2 * clock_precision(
            spec_parse_csv(input)->Ok_0,
        ),
        ({
            let n = date_key(spec_parse_csv(input)->Ok_0).len();
            n == 8 || n == 10 || n == 12 || n == 14
        }),
{
    let parts = split_char(spec_split_csv_date(input).0, '-');
    lemma_fixed_width_roundtrip(parts[0], "year"@, 4);
    reveal_with_fuel(pow10, 5);
    let v = spec_parse_csv(input)->Ok_0;
    assert(v.year as nat == digits_value(parts[0]));
    lemma_zero_padded_len(v.year as nat, 4);
    lemma_zero_padded_len(v.month as nat, 2);
    lemma_zero_padded_len(v.day as nat, 2);
    match v.time {
        None => {},
        Some(tv) => {
            match tv {
                TimeView::Hour(h) => {
                    lemma_zero_padded_len(h as nat, 2);
                },
                TimeView::Minute(h, m) => {
                    lemma_zero_padded_len(h as nat, 2);
                    lemma_zero_padded_len(m as nat, 2);
                },
                TimeView::Second(h, m, sec) => {
                    lemma_zero_padded_len(h as nat, 2);
                    lemma_zero_padded_len(m as nat, 2);
                    lemma_zero_padded_len(sec as nat, 2);
                },
                TimeView::Zoned(h, m, sec, _) => {
                    lemma_zero_padded_len(h as nat, 2);
                    lemma_zero_padded_len(m as nat, 2);
                    lemma_zero_padded_len(sec as nat, 2);
                },
            }
        },
    }
}

/// Whether a CSV date's pieces are each accepted by the component readers:
/// `YYYY-MM-DD` read by [`DateFormat::parse_year`], [`DateFormat::parse_month`]
/// and [`DateFormat::parse_day`]; then, optionally after one space, `HH`,
/// `HH:MM` or `HH:MM:SS` read by [`DateFormat::parse_hour`],
/// [`DateFormat::parse_minute`] and [`DateFormat::parse_second`]; then,
/// only after seconds and one more space, a zone read by
/// [`DateFormat::parse_zone`].
pub open spec fn csv_pieces_accepted(input: Seq<char>) -> bool {
    let (d, t) = spec_split_csv_date(input);
    let dp = split_char(d, '-');
    &&& dp.len() == 3
    &&& spec_year(dp[0]) is Ok
    &&& spec_month(dp[1]) is Ok
    &&& spec_day(dp[2]) is Ok
    &&& match t {
        None => true,
        Some(t) => {
            let tz = split_char(t, ' ');
            let cp = split_char(tz[0], ':');
            &&& tz.len() <= 2
            &&& cp.len() <= 3
            &&& spec_hour(cp[0]) is Ok
            &&& (cp.len() >= 2 ==> spec_minute(cp[1]) is Ok)
            &&& (cp.len() == 3 ==> spec_second(cp[2]) is Ok)
            &&& (tz.len() == 2 ==> cp.len() == 3 && spec_zone(tz[1]) is Ok)
        },
    }
}

/// Law: a CSV date is accepted exactly when each of its pieces is accepted
/// by the reader of that component, in the shape
/// `YYYY-MM-DD[ HH[:MM[:SS[ ZONE]]]]`.
pub proof fn law_csv_accepts_exactly_valid_pieces(input: Seq<char>)
    ensures
        spec_parse_csv(input) is Ok <==> csv_pieces_accepted(input),
{
    let (d, t) = spec_split_csv_date(input);
    match t {
        None => {},
        Some(tt) => {
            let tz = split_char(tt, ' ');
            lemma_split_char_nonempty(tt, ' ');
            lemma_split_char_nonempty(tz[0], ':');
            let cp = split_char(tz[0], ':');
            assert(byte_len(Seq::<char>::empty()) == 0);
            if tz[0].len() == 0 {
                assert(cp =~= seq![Seq::<char>::empty()]);
            }
            if csv_pieces_accepted(input) {
                assert(clock_shape(cp));
            }
        },
    }
}


/// Law: month `m` is named by the `m`-th entry of the calendar's list,
/// January first and December last (so 10 is October and 11 November);
/// dates and blog dates are labelled with these names.
pub proof fn law_month_names(m: u8)
    requires
        1 <= m <= 12,
    ensures
        month_name(m) == seq![
            "January"@,
            "February"@,
            "March"@,
            "April"@,
            "May"@,
            "June"@,
            "July"@,
            "August"@,
            "September"@,
            "October"@,
            "November"@,
            "December"@,
        ][m - 1],
{
}

} // verus!
