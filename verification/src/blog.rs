//! Blog posts: dates read from `YYYYMMDD-HHMM` filename prefixes, and the
//! metadata and page types built from them.
use vstd::prelude::*;

use crate::prelude::SourcePath;
use crate::text::joined_text;

use crate::datetime::month_name;
use crate::markdown::{
    anchored_from, anchors_ready, ends_with, ends_with_exec, join, join_exec, spec_extract_h1,
    spec_strip_first_h1, toc_of, toc_ready, toc_view, trim_end_matches, trim_end_matches_exec,
    MarkdownDocument, HEADING_PATTERN,
};
use crate::regex::regex_capture_spans;
use crate::primitives::{SidebarType, TocEntry};
use crate::sorting::{
    lemma_lex_asym, lemma_lex_total, lemma_lex_trans, lex_less, listed_in_order, stable_arrangement,
    stable_sort, ListOrder,
};
use crate::titles::{slug_title, title_from_slug};
use crate::text::{
    all_digits, digits_value, byte_len, byte_len_upto, byte_slice, char_index_at, chars_of, decimal, index_at_byte,
    lemma_char_index_at, lemma_padded_concat_append, lemma_padded_concat_order,
    lemma_padded_concat_small, lex_lt, nat_lex_lt, padded_concat, parse_digits, pow10,
    push_decimal, push_str, push_zero_padded, digit_field,
    string_from_chars, sub_chars, zero_padded,
};

verus! {

// --------------------------------------------------
// filename date
// --------------------------------------------------
/// The char at byte offset 8 is the `-` between date and time.
pub open spec fn blog_hyphen(s: Seq<char>) -> bool {
    char_index_at(s, 8) matches Some(k) && k < s.len() && s[k as int] == '-'
}

/// The text of byte range `i..j` of `s` (meaningful where both are boundaries).
pub open spec fn slice_text(s: Seq<char>, i: int, j: int) -> Seq<char> {
    byte_slice(s, i, j)->Some_0
}

/// `Blog filename `{s}{tail}`
pub open spec fn blog_message(s: Seq<char>, tail: Seq<char>) -> Seq<char> {
    "Blog filename `"@ + s + tail
}

/// `{lead}{s}``
pub open spec fn blog_field_message(lead: Seq<char>, s: Seq<char>) -> Seq<char> {
    lead + s + "`"@
}

/// The date prefix of a blog filename: year, month, day, hour, minute.
pub open spec fn spec_blog_date(s: Seq<char>) -> Result<(u16, u8, u8, u8, u8), Seq<char>> {
    if byte_len(s) < 13 {
        Err(blog_message(s, "` too short \u{2014} expected YYYYMMDD-HHMM prefix"@))
    } else if !blog_hyphen(s) {
        Err(blog_message(s, "` missing hyphen after YYYYMMDD"@))
    } else if !digit_field(slice_text(s, 0, 4)) {
        Err(blog_field_message("Invalid year in blog filename `"@, s))
    } else if !digit_field(slice_text(s, 4, 6)) {
        Err(blog_field_message("Invalid month in blog filename `"@, s))
    } else if !digit_field(slice_text(s, 6, 8)) {
        Err(blog_field_message("Invalid day in blog filename `"@, s))
    } else if !digit_field(slice_text(s, 9, 11)) {
        Err(blog_field_message("Invalid hour in blog filename `"@, s))
    } else if !digit_field(slice_text(s, 11, 13)) {
        Err(blog_field_message("Invalid minute in blog filename `"@, s))
    } else {
        let month = digits_value(slice_text(s, 4, 6));
        let day = digits_value(slice_text(s, 6, 8));
        if !(1 <= month <= 12) {
            Err(blog_field_message("Month out of range in blog filename `"@, s))
        } else if !(1 <= day <= 31) {
            Err(blog_field_message("Day out of range in blog filename `"@, s))
        } else if !(digits_value(slice_text(s, 9, 11)) <= 23) {
            Err(blog_field_message("Hour out of range in blog filename `"@, s))
        } else if !(digits_value(slice_text(s, 11, 13)) <= 59) {
            Err(blog_field_message("Minute out of range in blog filename `"@, s))
        } else {
            Ok(
                (
                    digits_value(slice_text(s, 0, 4)) as u16,
                    month as u8,
                    day as u8,
                    digits_value(slice_text(s, 9, 11)) as u8,
                    digits_value(slice_text(s, 11, 13)) as u8,
                ),
            )
        }
    }
}

/// Whether reading the prefix of `s` never slices inside a char: every
/// byte range it takes starts and ends on char boundaries, up to the first
/// field that fails to parse.
pub open spec fn blog_sliceable(s: Seq<char>) -> bool {
    (byte_len(s) >= 13 && blog_hyphen(s)) ==> {
        &&& char_index_at(s, 4) is Some
        &&& digit_field(slice_text(s, 0, 4)) ==> char_index_at(s, 6) is Some
        &&& (digit_field(slice_text(s, 0, 4)) && digit_field(slice_text(s, 4, 6))
            && digit_field(slice_text(s, 6, 8))) ==> char_index_at(s, 11) is Some
        &&& (digit_field(slice_text(s, 0, 4)) && digit_field(slice_text(s, 4, 6))
            && digit_field(slice_text(s, 6, 8)) && digit_field(
            slice_text(s, 9, 11),
        )) ==> char_index_at(s, 13) is Some
    }
}

/// A parsed blog date from a `YYYYMMDD-HHMM` filename prefix.
#[derive(Clone, Debug)]
pub struct BlogDateFormat {
    /// Year, e.g. `2026`
    pub year: u16,
    /// Month, 1-12
    pub month: u8,
    /// Day, 1-31
    pub day: u8,
    /// Hour, 0-23
    pub hour: u8,
    /// Minute, 0-59
    pub minute: u8,
}

/// `"YYYYMMDDHHMM"`, each component zero-padded.
pub open spec fn blog_sort_key(d: BlogDateFormat) -> Seq<char> {
    zero_padded(d.year as nat, 4) + zero_padded(d.month as nat, 2) + zero_padded(d.day as nat, 2)
        + zero_padded(d.hour as nat, 2) + zero_padded(d.minute as nat, 2)
}

/// `March 29, 2026`.
pub open spec fn calendar_label(year: nat, month: u8, day: nat) -> Seq<char> {
    month_name(month) + " "@ + decimal(day) + ", "@ + decimal(year)
}

/// Reads the byte range `i..j` of `s`, which must lie on char boundaries.
fn byte_range(s: &Vec<char>, i: usize, j: usize) -> (r: Vec<char>)
    requires
        char_index_at(s@, i as int) is Some,
        char_index_at(s@, j as int) is Some,
        i <= j,
    ensures
        byte_slice(s@, i as int, j as int) == Some(r@),
        r.len() <= j - i,
{
    proof {
        lemma_char_index_at(s@, i as int);
        lemma_char_index_at(s@, j as int);
        crate::text::lemma_boundary_order(s@, i as int, j as int);
    }
    let a = index_at_byte(s, i).unwrap();
    let b = index_at_byte(s, j).unwrap();
    let r = sub_chars(s, a, b);
    proof {
        assert(s@.subrange(0, b as int) =~= s@.subrange(0, a as int) + r@);
        crate::text::lemma_byte_len_concat(s@.subrange(0, a as int), r@);
        crate::text::lemma_len_le_byte_len(r@);
    }
    r
}

/// `{lead}{s}{tail}` as a `String`.
fn wrap_message(lead: &str, s: &Vec<char>, tail: &str) -> (e: String)
    ensures
        e@ == lead@ + s@ + tail@,
{
    let mut out: Vec<char> = Vec::new();
    push_str(&mut out, lead);
    out.extend_from_slice(s.as_slice());
    push_str(&mut out, tail);
    assert(out@ =~= lead@ + s@ + tail@);
    string_from_chars(&out)
}

impl BlogDateFormat {
    /// Minimum filename length required: `YYYYMMDD-HHMM` = 13 characters.
    pub const PREFIX_LEN: usize = 13;

    /// Parse from a filename starting with `YYYYMMDD-HHMM`; extra characters
    /// after the prefix are ignored (e.g. `-my-post-title`).
    pub fn from_str(s: &str) -> (r: Result<BlogDateFormat, String>)
        requires
            blog_sliceable(s@),
        ensures
            match spec_blog_date(s@) {
                Ok((y, mo, d, h, mi)) => r matches Ok(v) && v.year == y && v.month == mo && v.day
                    == d && v.hour == h && v.minute == mi,
                Err(e) => r matches Err(m) && m@ == e,
            },
    {
        let cs = chars_of(s);
        if byte_len_upto(&cs, 12).is_some() {
            return Err(
                wrap_message(
                    "Blog filename `",
                    &cs,
                    "` too short \u{2014} expected YYYYMMDD-HHMM prefix",
                ),
            );
        }
        let hyphen = match index_at_byte(&cs, 8) {
            Some(k) => k < cs.len() && cs[k] == '-',
            None => false,
        };
        if !hyphen {
            return Err(wrap_message("Blog filename `", &cs, "` missing hyphen after YYYYMMDD"));
        }
        proof {
            lemma_char_index_at(cs@, 8);
            let k = char_index_at(cs@, 8)->Some_0;
            crate::text::lemma_char_width(cs@[k as int]);
            lemma_boundary_after(cs@, 8, k);
        }
        let year = match parse_digits(&byte_range(&cs, 0, 4)) {
            Some(v) => v,
            None => {
                return Err(wrap_message("Invalid year in blog filename `", &cs, "`"));
            },
        };
        let month = match parse_digits(&byte_range(&cs, 4, 6)) {
            Some(v) => v,
            None => {
                return Err(wrap_message("Invalid month in blog filename `", &cs, "`"));
            },
        };
        let day = match parse_digits(&byte_range(&cs, 6, 8)) {
            Some(v) => v,
            None => {
                return Err(wrap_message("Invalid day in blog filename `", &cs, "`"));
            },
        };
        let hour = match parse_digits(&byte_range(&cs, 9, 11)) {
            Some(v) => v,
            None => {
                return Err(wrap_message("Invalid hour in blog filename `", &cs, "`"));
            },
        };
        let minute = match parse_digits(&byte_range(&cs, 11, 13)) {
            Some(v) => v,
            None => {
                return Err(wrap_message("Invalid minute in blog filename `", &cs, "`"));
            },
        };
        if !(1 <= month && month <= 12) {
            return Err(wrap_message("Month out of range in blog filename `", &cs, "`"));
        }
        if !(1 <= day && day <= 31) {
            return Err(wrap_message("Day out of range in blog filename `", &cs, "`"));
        }
        if !(hour <= 23) {
            return Err(wrap_message("Hour out of range in blog filename `", &cs, "`"));
        }
        if !(minute <= 59) {
            return Err(wrap_message("Minute out of range in blog filename `", &cs, "`"));
        }
        proof {
            lemma_slice_width(cs@, 0, 4);
            lemma_slice_width(cs@, 9, 11);
            lemma_slice_width(cs@, 11, 13);
            reveal_with_fuel(pow10, 5);
        }
        Ok(
            BlogDateFormat {
                year: year as u16,
                month: month as u8,
                day: day as u8,
                hour: hour as u8,
                minute: minute as u8,
            },
        )
    }

    /// Returns a sortable string `"YYYYMMDDHHMM"` for ordering posts.
    pub fn sort_key(&self) -> (key: String)
        ensures
            key@ == blog_sort_key(*self),
    {
        let mut out: Vec<char> = Vec::new();
        push_zero_padded(&mut out, self.year as u64, 4);
        push_zero_padded(&mut out, self.month as u64, 2);
        push_zero_padded(&mut out, self.day as u64, 2);
        push_zero_padded(&mut out, self.hour as u64, 2);
        push_zero_padded(&mut out, self.minute as u64, 2);
        assert(out@ =~= blog_sort_key(*self));
        string_from_chars(&out)
    }

    /// Renders as `"March 29, 2026"`; the month must be 1-12.
    pub fn to_string(&self) -> (s: String)
        requires
            1 <= self.month <= 12,
        ensures
            s@ == calendar_label(self.year as nat, self.month, self.day as nat),
    {
        let mut out: Vec<char> = Vec::new();
        push_calendar_label(&mut out, self.year as u64, self.month, self.day as u64);
        string_from_chars(&out)
    }
}

/// Appends `March 29, 2026`.
pub fn push_calendar_label(out: &mut Vec<char>, year: u64, month: u8, day: u64)
    requires
        1 <= month <= 12,
    ensures
        final(out)@ == old(out)@ + calendar_label(year as nat, month, day as nat),
{
    push_str(out, month_text(month));
    push_str(out, " ");
    push_decimal(out, day);
    push_str(out, ", ");
    push_decimal(out, year);
    assert(out@ =~= old(out)@ + calendar_label(year as nat, month, day as nat));
}

/// The name of month `m`.
pub fn month_text(m: u8) -> (s: &'static str)
    requires
        1 <= m <= 12,
    ensures
        s@ == month_name(m),
{
    if m == 1 {
        "January"
    } else if m == 2 {
        "February"
    } else if m == 3 {
        "March"
    } else if m == 4 {
        "April"
    } else if m == 5 {
        "May"
    } else if m == 6 {
        "June"
    } else if m == 7 {
        "July"
    } else if m == 8 {
        "August"
    } else if m == 9 {
        "September"
    } else if m == 10 {
        "October"
    } else if m == 11 {
        "November"
    } else {
        "December"
    }
}

/// After a one-byte char at a boundary, the next byte is a boundary too.
proof fn lemma_boundary_after(s: Seq<char>, b: int, k: nat)
    requires
        char_index_at(s, b) == Some(k),
        k < s.len(),
        crate::text::char_width(s[k as int]) == 1,
    ensures
        char_index_at(s, b + 1) == Some(k + 1),
    decreases s.len(),
{
    if b == 0 {
        assert(char_index_at(s.drop_first(), 0) == Some(0nat));
        crate::text::lemma_char_width(s[0]);
    } else if s.len() > 0 {
        crate::text::lemma_char_width(s[0]);
        let w = crate::text::char_width(s[0]);
        assert(s.drop_first()[k - 1] == s[k as int]);
        lemma_boundary_after(s.drop_first(), b - w, (k - 1) as nat);
    }
}

/// A byte range whose text is a field of digits has as many chars
/// as bytes, so its value is below `10^(j - i)`.
proof fn lemma_slice_width(s: Seq<char>, i: int, j: int)
    requires
        0 <= i <= j,
        byte_slice(s, i, j) is Some,
        digit_field(slice_text(s, i, j)),
    ensures
        digits_value(slice_text(s, i, j)) < pow10((j - i) as nat),
{
    let t = slice_text(s, i, j);
    let a = char_index_at(s, i)->Some_0;
    let b = char_index_at(s, j)->Some_0;
    lemma_char_index_at(s, i);
    lemma_char_index_at(s, j);
    assert(s.subrange(0, b as int) =~= s.subrange(0, a as int) + t);
    crate::text::lemma_byte_len_concat(s.subrange(0, a as int), t);
    assert forall|x: int| 0 <= x < t.len() implies (#[trigger] t[x] as u32) < 0x80 by {
        assert(crate::text::is_digit(t[x]));
    }
    crate::text::lemma_byte_len_ascii(t);
    crate::text::lemma_digits_value_bound(t);
}

/// Whether a filename carries the prefix `parse_blog_date` reads: at least
/// 13 bytes, a `-` at byte 8, the five fields in digits, month 1-12 and day
/// 1-31 (hour and minute are read but not bounded).
pub open spec fn blog_prefix_valid(s: Seq<char>) -> bool {
    &&& byte_len(s) >= 13
    &&& blog_hyphen(s)
    &&& digit_field(slice_text(s, 0, 4))
    &&& digit_field(slice_text(s, 4, 6))
    &&& digit_field(slice_text(s, 6, 8))
    &&& digit_field(slice_text(s, 9, 11))
    &&& digit_field(slice_text(s, 11, 13))
    &&& 1 <= digits_value(slice_text(s, 4, 6)) <= 12
    &&& 1 <= digits_value(slice_text(s, 6, 8)) <= 31
}

/// Parse a `YYYYMMDD-HHMM` prefix into `(raw, display)`: raw is the
/// `YYYYMMDDHHMM` text as written, display is e.g. `March 29, 2026`.
/// The filename must carry such a prefix.
pub fn parse_blog_date(filename: &str) -> (r: (String, String))
    requires
        blog_sliceable(filename@),
        blog_prefix_valid(filename@),
    ensures
        r.0@ == slice_text(filename@, 0, 8) + slice_text(filename@, 9, 13),
        r.1@ == calendar_label(
            digits_value(slice_text(filename@, 0, 4)),
            digits_value(slice_text(filename@, 4, 6)) as u8,
            digits_value(slice_text(filename@, 6, 8)),
        ),
{
    let cs = chars_of(filename);
    proof {
        lemma_char_index_at(cs@, 8);
        let k = char_index_at(cs@, 8)->Some_0;
        crate::text::lemma_char_width(cs@[k as int]);
        lemma_boundary_after(cs@, 8, k);
        crate::text::lemma_boundary_order(cs@, 4, 6);
        crate::text::lemma_boundary_order(cs@, 6, 8);
        lemma_slice_width(cs@, 0, 4);
        lemma_slice_width(cs@, 4, 6);
        lemma_slice_width(cs@, 6, 8);
        reveal_with_fuel(pow10, 5);
    }
    let year = parse_digits(&byte_range(&cs, 0, 4)).unwrap();
    let month = parse_digits(&byte_range(&cs, 4, 6)).unwrap();
    let day = parse_digits(&byte_range(&cs, 6, 8)).unwrap();
    let mut raw = byte_range(&cs, 0, 8);
    let mut time_part = byte_range(&cs, 9, 13);
    raw.append(&mut time_part);
    let mut display: Vec<char> = Vec::new();
    push_calendar_label(&mut display, year, month as u8, day);
    (string_from_chars(&raw), string_from_chars(&display))
}

/// The numbers a blog date orders by, most significant first.
pub open spec fn blog_components(d: BlogDateFormat) -> Seq<nat> {
    seq![d.year as nat, d.month as nat, d.day as nat, d.hour as nat, d.minute as nat]
}

/// Law: the sort key of blog dates orders them chronologically. For dates
/// whose components fit their key widths (as every parsed one does), one
/// key sorts before another exactly when its date and time come first.
pub proof fn law_sort_key_orders_chronologically(a: BlogDateFormat, b: BlogDateFormat)
    requires
        a.year <= 9999 && a.month <= 99 && a.day <= 99 && a.hour <= 99 && a.minute <= 99,
        b.year <= 9999 && b.month <= 99 && b.day <= 99 && b.hour <= 99 && b.minute <= 99,
    ensures
        lex_lt(blog_sort_key(a), blog_sort_key(b)) <==> nat_lex_lt(
            blog_components(a),
            blog_components(b),
        ),
        blog_sort_key(a) == blog_sort_key(b) <==> blog_components(a) == blog_components(b),
{
    let w = seq![4nat, 2nat, 2nat, 2nat, 2nat];
    lemma_blog_key_padded(a);
    lemma_blog_key_padded(b);
    reveal_with_fuel(pow10, 5);
    assert forall|i: int| 0 <= i < w.len() implies #[trigger] blog_components(a)[i] < pow10(w[i])
        && w[i] >= 1 by {}
    assert forall|i: int| 0 <= i < w.len() implies #[trigger] blog_components(b)[i] < pow10(
        w[i],
    ) by {}
    lemma_padded_concat_order(blog_components(a), blog_components(b), w);
}

/// A field of digits between two boundaries has one char per byte, and
/// reads back as itself when written zero-padded to its width.
proof fn lemma_digit_field(s: Seq<char>, i: int, j: int)
    requires
        0 <= i <= j,
        byte_slice(s, i, j) is Some,
        all_digits(slice_text(s, i, j)),
        slice_text(s, i, j).len() >= 1,
    ensures
        slice_text(s, i, j).len() == j - i,
        digits_value(slice_text(s, i, j)) == digits_value(slice_text(s, i, j)),
        zero_padded(digits_value(slice_text(s, i, j)), (j - i) as nat) == slice_text(s, i, j),
        digits_value(slice_text(s, i, j)) < pow10((j - i) as nat),
{
    let t = slice_text(s, i, j);
    let a = char_index_at(s, i)->Some_0;
    let b = char_index_at(s, j)->Some_0;
    lemma_char_index_at(s, i);
    lemma_char_index_at(s, j);
    assert(s.subrange(0, b as int) =~= s.subrange(0, a as int) + t);
    crate::text::lemma_byte_len_concat(s.subrange(0, a as int), t);
    crate::text::lemma_byte_len_digits(t);
    assert(crate::text::is_digit(t[0]));
    crate::text::lemma_zero_padded_digits(t);
    crate::text::lemma_digits_value_bound(t);
}

/// Adjacent byte slices join into the slice that spans both.
proof fn lemma_slices_join(s: Seq<char>, i: int, j: int, k: int)
    requires
        i <= j <= k,
        char_index_at(s, i) is Some,
        char_index_at(s, j) is Some,
        char_index_at(s, k) is Some,
    ensures
        byte_slice(s, i, j) is Some,
        byte_slice(s, j, k) is Some,
        byte_slice(s, i, k) is Some,
        slice_text(s, i, j) + slice_text(s, j, k) == slice_text(s, i, k),
{
    crate::text::lemma_boundary_order(s, i, j);
    crate::text::lemma_boundary_order(s, j, k);
    let a = char_index_at(s, i)->Some_0;
    let b = char_index_at(s, j)->Some_0;
    let c = char_index_at(s, k)->Some_0;
    lemma_char_index_at(s, k);
    assert(s.subrange(a as int, b as int) + s.subrange(b as int, c as int) =~= s.subrange(
        a as int,
        c as int,
    ));
}

/// The date a valid blog filename gives, as a `BlogDateFormat` value.
pub open spec fn blog_date_value(s: Seq<char>) -> BlogDateFormat {
    let (y, mo, d, h, mi) = spec_blog_date(s)->Ok_0;
    BlogDateFormat { year: y, month: mo, day: d, hour: h, minute: mi }
}

/// Law: the sort key of a valid filename's date is exactly the digits of
/// its `YYYYMMDD` and `HHMM`, as `parse_blog_date` gives them raw
/// (`20260329-1415-...` gives `202603291415`).
pub proof fn law_sort_key_is_written_digits(s: Seq<char>)
    requires
        blog_sliceable(s),
        spec_blog_date(s) is Ok,
    ensures
        blog_sort_key(blog_date_value(s)) == slice_text(s, 0, 8) + slice_text(s, 9, 13),
{
    let k = char_index_at(s, 8)->Some_0;
    crate::text::lemma_char_width(s[k as int]);
    lemma_boundary_after(s, 8, k);
    // the prefix is long enough and every field slices on boundaries
    assert(digit_field(slice_text(s, 0, 4)));
    assert(digit_field(slice_text(s, 4, 6)));
    assert(digit_field(slice_text(s, 6, 8)));
    assert(digit_field(slice_text(s, 9, 11)));
    assert(digit_field(slice_text(s, 11, 13)));
    lemma_slices_join(s, 0, 4, 6);
    lemma_slices_join(s, 0, 6, 8);
    lemma_slices_join(s, 9, 11, 13);
    let d8 = slice_text(s, 0, 8);
    let t4 = slice_text(s, 9, 13);
    assert(d8 == slice_text(s, 0, 4) + slice_text(s, 4, 6) + slice_text(s, 6, 8));
    assert(t4 == slice_text(s, 9, 11) + slice_text(s, 11, 13));
    lemma_digit_field(s, 0, 4);
    lemma_digit_field(s, 4, 6);
    lemma_digit_field(s, 6, 8);
    lemma_digit_field(s, 9, 11);
    lemma_digit_field(s, 11, 13);
    reveal_with_fuel(pow10, 5);
    let v = blog_date_value(s);
    assert(v.year as nat == digits_value(slice_text(s, 0, 4)));
    assert(v.month as nat == digits_value(slice_text(s, 4, 6)));
    assert(v.day as nat == digits_value(slice_text(s, 6, 8)));
    assert(v.hour as nat == digits_value(slice_text(s, 9, 11)));
    assert(v.minute as nat == digits_value(slice_text(s, 11, 13)));
    assert(blog_sort_key(v) =~= d8 + t4);
}

/// A blog sort key is its components zero-padded and concatenated.
proof fn lemma_blog_key_padded(d: BlogDateFormat)
    ensures
        blog_sort_key(d) == padded_concat(blog_components(d), seq![4nat, 2nat, 2nat, 2nat, 2nat]),
{
    let c = blog_components(d);
    let c1 = seq![d.year as nat, d.month as nat, d.day as nat];
    let c2 = seq![d.hour as nat, d.minute as nat];
    let w1 = seq![4nat, 2nat, 2nat];
    let w2 = seq![2nat, 2nat];
    assert(c =~= c1 + c2);
    assert(seq![4nat, 2nat, 2nat, 2nat, 2nat] =~= w1 + w2);
    lemma_padded_concat_append(c1, c2, w1, w2);
    lemma_padded_concat_small(c1, w1);
    lemma_padded_concat_small(c2, w2);
    assert(blog_sort_key(d) =~= padded_concat(c, seq![4nat, 2nat, 2nat, 2nat, 2nat]));
}

// --------------------------------------------------
// page types
// --------------------------------------------------
/// Metadata for a single blog post, used for indexing.
#[derive(Clone, Debug)]
pub struct BlogPost {
    /// Display title (from first H1 in markdown)
    pub title: String,
    /// Formatted display date, e.g. "March 29, 2026"
    pub date: String,
    /// Raw YYYYMMDDHHMM string for sorting
    pub date_raw: String,
    /// Deployment URL, e.g. "/blog/20260329-hello-world"
    pub url: String,
}

/// The blog homepage / listing page.
pub struct BlogHomepage {
    /// Page title
    pub title: String,
    /// Sidebar type
    pub sidebar: SidebarType,
    /// The posts listed, newest first
    pub posts: Vec<BlogPost>,
}

/// An individual blog post page, its markdown rendered as HTML.
pub struct BlogPostTemplate {
    /// Page title
    pub title: String,
    /// Post title, see [`BlogPost::title`]
    pub post_title: String,
    /// Sidebar type
    pub sidebar: SidebarType,
    /// Formatted display date, see [`BlogPost::date`]
    pub date: String,
    /// The rendered HTML content of the post
    pub content: String,
    /// Table of contents entries
    pub toc: Vec<TocEntry>,
}


// --------------------------------------------------
// posts read from the blog directory
// --------------------------------------------------
/// Where a blog entry's markdown lies, and the stem its date and title are
/// read from: a folder is read from its `index.md` (stem: the folder's
/// name), a `.md` file from itself (stem: the name without its `.md`
/// suffixes); anything else is skipped.
pub open spec fn spec_blog_source(filename: Seq<char>, path: Seq<char>, is_dir: bool, index_md_exists: bool) -> Option<
    (Seq<char>, Seq<char>),
> {
    if is_dir {
        if index_md_exists {
            Some((join(path, "index.md"@), filename))
        } else {
            None
        }
    } else if ends_with(filename, ".md"@) {
        Some((path, trim_end_matches(filename, ".md"@)))
    } else {
        None
    }
}

/// The source file and stem of a blog directory entry (see
/// [`spec_blog_source`]); whether the entry is a folder, and whether it
/// holds an `index.md`, are given.
pub fn blog_source(filename: &str, path: &str, is_dir: bool, index_md_exists: bool) -> (r: Option<(String, String)>)
    ensures
        match spec_blog_source(filename@, path@, is_dir, index_md_exists) {
            Some((src, stem)) => r matches Some(p) && p.0@ == src && p.1@ == stem,
            None => r is None,
        },
{
    let name = chars_of(filename);
    let p = chars_of(path);
    if is_dir {
        if index_md_exists {
            let src = join_exec(&p, &chars_of("index.md"));
            Some((string_from_chars(&src), string_from_chars(&name)))
        } else {
            None
        }
    } else {
        let md = chars_of(".md");
        if ends_with_exec(&name, &md) {
            let stem = trim_end_matches_exec(&name, &md);
            Some((string_from_chars(&p), string_from_chars(&stem)))
        } else {
            None
        }
    }
}

/// What follows the `YYYYMMDD-HHMM-` prefix of a stem.
pub open spec fn stem_slug(stem: Seq<char>) -> Seq<char> {
    stem.subrange(char_index_at(stem, 14)->Some_0 as int, stem.len() as int)
}

/// A blog post's title: its markdown's first `# ` heading, else the title
/// its stem's slug gives.
pub open spec fn blog_title(stem: Seq<char>, md: Seq<char>) -> Seq<char> {
    match spec_extract_h1(md) {
        Some(t) => t,
        None => slug_title(stem_slug(stem)),
    }
}

/// Whether a stem can be read without slicing inside a char: its date
/// prefix, and, where the title has to come from it, its slug.
pub open spec fn blog_stem_readable(stem: Seq<char>, md: Option<Seq<char>>) -> bool {
    &&& blog_sliceable(stem)
    &&& (spec_blog_date(stem) is Ok && md is Some && spec_extract_h1(md->Some_0) is None)
        ==> char_index_at(stem, 14) is Some
}

/// Optional text as plain values.
pub open spec fn text_view(o: Option<String>) -> Option<Seq<char>> {
    match o {
        Some(t) => Some(t@),
        None => None,
    }
}

/// A blog post read from the blog directory.
pub struct ParsedBlogPost {
    /// Page title
    pub title: String,
    /// File name, including extension
    pub filename: String,
    /// File stem, without extension
    pub filestem: String,
    /// Source file, always markdown
    pub src: String,
    /// Date parsed from the stem
    pub date: BlogDateFormat,
}

impl ParsedBlogPost {
    /// The post a blog directory entry gives: its source and stem as
    /// [`blog_source`] finds them, its date from the stem, its title from
    /// the markdown `md_content` read from the source (`None` when it could
    /// not be read). `None` where the entry is skipped, the stem carries no
    /// valid date, or the source was not read.
    pub fn new(
        filename: String,
        path: String,
        is_dir: bool,
        index_md_exists: bool,
        md_content: Option<String>,
    ) -> (r: Option<ParsedBlogPost>)
        requires
            spec_blog_source(filename@, path@, is_dir, index_md_exists) matches Some((_, stem))
                ==> blog_stem_readable(stem, text_view(md_content)),
        ensures
            match spec_blog_source(filename@, path@, is_dir, index_md_exists) {
                None => r is None,
                Some((src, stem)) => match (spec_blog_date(stem), md_content) {
                    (Ok((y, mo, d, h, mi)), Some(md)) => r matches Some(p) && p.filename == filename
                        && p.filestem@ == stem && p.src@ == src && p.date.year == y && p.date.month
                        == mo && p.date.day == d && p.date.hour == h && p.date.minute == mi
                        && p.title@ == blog_title(stem, md@),
                    _ => r is None,
                },
            },
    {
        let (src, filestem) = match blog_source(filename.as_str(), path.as_str(), is_dir, index_md_exists) {
            Some(found) => found,
            None => {
                return None;
            },
        };
        let date = match BlogDateFormat::from_str(filestem.as_str()) {
            Ok(d) => d,
            Err(_) => {
                return None;
            },
        };
        let md = match md_content {
            Some(m) => m,
            None => {
                return None;
            },
        };
        let title = match MarkdownDocument::extract_h1(md.as_str()) {
            Some(t) => t,
            None => {
                let stem = chars_of(filestem.as_str());
                proof {
                    lemma_char_index_at(stem@, 14);
                }
                let k = index_at_byte(&stem, 14).unwrap();
                let slug = string_from_chars(&sub_chars(&stem, k, stem.len()));
                title_from_slug(slug.as_str())
            },
        };
        Some(ParsedBlogPost { title, filename, filestem, src, date })
    }

    /// The listing entry of this post: its title, its date as text and as
    /// a sort key, and its URL `/blog/{stem}`.
    pub fn to_meta(&self) -> (r: BlogPost)
        requires
            1 <= self.date.month <= 12,
        ensures
            r.title@ == self.title@,
            r.date@ == calendar_label(self.date.year as nat, self.date.month, self.date.day as nat),
            r.date_raw@ == blog_sort_key(self.date),
            r.url@ == "/blog/"@ + self.filestem@,
    {
        let mut url: Vec<char> = Vec::new();
        push_str(&mut url, "/blog/");
        push_str(&mut url, self.filestem.as_str());
        BlogPost {
            title: string_from_chars(&chars_of(self.title.as_str())),
            date: self.date.to_string(),
            date_raw: self.date.sort_key(),
            url: string_from_chars(&url),
        }
    }
}

/// Listing entries go newest first: by their raw date, larger first.
impl ListOrder for BlogPost {
    open spec fn goes_before(&self, other: &Self) -> bool {
        lex_lt(other.date_raw@, self.date_raw@)
    }

    proof fn lemma_list_order(a: &Self, b: &Self, c: &Self) {
        lemma_lex_asym(a.date_raw@, b.date_raw@);
        lemma_lex_asym(b.date_raw@, a.date_raw@);
        lemma_lex_total(a.date_raw@, b.date_raw@);
        if lex_lt(a.date_raw@, b.date_raw@) && lex_lt(c.date_raw@, a.date_raw@) {
            lemma_lex_trans(c.date_raw@, a.date_raw@, b.date_raw@);
        }
    }

    fn precedes(&self, other: &Self) -> (r: bool) {
        lex_less(other.date_raw.as_str(), self.date_raw.as_str())
    }
}

/// The blog listing, newest first; posts of the same raw date keep their
/// order.
pub fn newest_first(posts: Vec<BlogPost>) -> (r: Vec<BlogPost>)
    ensures
        listed_in_order(r@),
        exists|idx: Seq<int>| #[trigger] stable_arrangement(r@, posts@, idx),
{
    stable_sort(posts)
}

impl SourcePath<BlogHomepage> for BlogHomepage {
    /// `{templates_dir}/blog/blog.html`
    fn src_path(templates_dir: &str) -> (r: String)
        ensures
            r@ == templates_dir@ + "/blog/blog.html"@,
    {
        joined_text(templates_dir, "/blog/blog.html")
    }
}

impl BlogPostTemplate {
    /// The page of `post`, titled `title`, from the HTML its markdown
    /// renders to (see [`MarkdownDocument::post_page_content`]); `None`
    /// where a heading search fails.
    pub fn new(title: String, post: &ParsedBlogPost, html: &str) -> (r: Option<BlogPostTemplate>)
        requires
            1 <= post.date.month <= 12,
        ensures
            match r {
                Some(page) => {
                    let body = spec_strip_first_h1(html@);
                    &&& toc_ready(body) && anchors_ready(body)
                    &&& page.title == title
                    &&& page.post_title@ == post.title@
                    &&& page.sidebar == SidebarType::Blog
                    &&& page.date@ == calendar_label(post.date.year as nat, post.date.month, post.date.day as nat)
                    &&& page.content@ == anchored_from(body, regex_capture_spans(HEADING_PATTERN@, body)->Some_0, 0, 0)
                    &&& page.toc@.map_values(|e: TocEntry| toc_view(e)) == toc_of(
                        body,
                        regex_capture_spans(HEADING_PATTERN@, body)->Some_0,
                    )
                },
                None => !(toc_ready(spec_strip_first_h1(html@)) && anchors_ready(spec_strip_first_h1(html@))),
            },
    {
        let (content, toc) = MarkdownDocument::post_page_content(html)?;
        Some(BlogPostTemplate {
            title,
            post_title: string_from_chars(&chars_of(post.title.as_str())),
            sidebar: SidebarType::Blog,
            date: post.date.to_string(),
            content,
            toc,
        })
    }
}

} // verus!
