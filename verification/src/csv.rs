//! A small CSV reader for site-generation data: a header row, then rows of
//! fields, with tolerant quoting.
use vstd::prelude::*;

use crate::text::{
    chars_of, decimal, is_whitespace, push_decimal, push_str, split_char, split_chars,
    string_from_chars,
};

verus! {

// --------------------------------------------------
// model
// --------------------------------------------------
/// Reads the rest of a line `s`, given whether the reader is inside quotes,
/// the field read so far and the fields completed so far.
///
/// Inside quotes `""` is a literal quote and a lone `"` closes the quotes;
/// outside quotes `"` opens quotes and `,` ends a field.
pub open spec fn csv_fields(
    s: Seq<char>,
    in_quotes: bool,
    field: Seq<char>,
    fields: Seq<Seq<char>>,
) -> Seq<Seq<char>>
    decreases s.len(),
{
    if s.len() == 0 {
        fields.push(field)
    } else {
        let c = s[0];
        let rest = s.drop_first();
        if in_quotes {
            if c == '"' {
                if rest.len() > 0 && rest[0] == '"' {
                    csv_fields(rest.drop_first(), true, field.push('"'), fields)
                } else {
                    csv_fields(rest, false, field, fields)
                }
            } else {
                csv_fields(rest, true, field.push(c), fields)
            }
        } else if c == '"' {
            csv_fields(rest, true, field, fields)
        } else if c == ',' {
            csv_fields(rest, false, Seq::<char>::empty(), fields.push(field))
        } else {
            csv_fields(rest, false, field.push(c), fields)
        }
    }
}

/// The fields of one CSV line.
pub open spec fn csv_line(s: Seq<char>) -> Seq<Seq<char>> {
    csv_fields(s, false, Seq::<char>::empty(), Seq::<Seq<char>>::empty())
}

/// `s` without one trailing `'\r'`.
pub open spec fn strip_cr(s: Seq<char>) -> Seq<char> {
    if s.len() > 0 && s.last() == '\r' {
        s.drop_last()
    } else {
        s
    }
}

/// What `str::lines` yields: the pieces between `'\n'`s, each that ended in
/// `'\n'` stripped of one `'\r'`, with no empty piece after a final `'\n'`.
pub open spec fn text_lines(s: Seq<char>) -> Seq<Seq<char>> {
    let p = split_char(s, '\n');
    if s.len() == 0 {
        Seq::<Seq<char>>::empty()
    } else {
        let n: int = if s.last() == '\n' {
            p.len() - 1
        } else {
            p.len() as int
        };
        Seq::new(
            n as nat,
            |i: int|
                if i < p.len() - 1 {
                    strip_cr(p[i])
                } else {
                    p[i]
                },
        )
    }
}

/// Whether `s` holds only whitespace (what `s.trim().is_empty()` tests).
pub open spec fn blank(s: Seq<char>) -> bool {
    forall|i: int| 0 <= i < s.len() ==> is_whitespace(#[trigger] s[i])
}

/// The non-blank lines among `lines`, each read as CSV fields, in order.
pub open spec fn records_of(lines: Seq<Seq<char>>) -> Seq<Seq<Seq<char>>>
    decreases lines.len(),
{
    if lines.len() == 0 {
        Seq::<Seq<Seq<char>>>::empty()
    } else {
        let r = records_of(lines.drop_last());
        if blank(lines.last()) {
            r
        } else {
            r.push(csv_line(lines.last()))
        }
    }
}

/// The non-blank lines of `s`, each read as CSV fields.
pub open spec fn csv_records(s: Seq<char>) -> Seq<Seq<Seq<char>>> {
    records_of(text_lines(s))
}

/// What reading the rows gives: no rows for an empty file, an error when the
/// first record is not the expected header row or a later record has another
/// width, and otherwise the records after the header.
pub open spec fn spec_read_rows(path: Seq<char>, contents: Seq<char>, headers: Seq<Seq<char>>) -> Result<
    Seq<Seq<Seq<char>>>,
    Seq<char>,
> {
    let recs = csv_records(contents);
    if recs.len() == 0 {
        Ok(Seq::<Seq<Seq<char>>>::empty())
    } else if recs[0] != headers {
        Err(header_message(path, recs[0], headers))
    } else {
        match first_bad_row(recs, headers.len()) {
            Some(i) => Err(width_message(path, i + 1, recs[i as int].len(), headers.len())),
            None => Ok(recs.drop_first()),
        }
    }
}

/// The Debug rendering of a list of strings, `["a", "b"]`.
pub uninterp spec fn debug_list_text(items: Seq<Seq<char>>) -> Seq<char>;

/// Strings by view.
pub open spec fn views(v: Seq<String>) -> Seq<Seq<char>> {
    v.map_values(|s: String| s@)
}

/// Error text for a header row that is not the expected one.
pub open spec fn header_message(path: Seq<char>, found: Seq<Seq<char>>, expected: Seq<Seq<char>>) -> Seq<char> {
    "`"@ + path + "` has headers "@ + debug_list_text(found) + ", expected "@ + debug_list_text(
        expected,
    )
}

/// Error text for a row of the wrong width (`line` is 1-based, header included).
pub open spec fn width_message(path: Seq<char>, line: nat, len: nat, expected: nat) -> Seq<char> {
    "`"@ + path + "` row "@ + decimal(line) + " has "@ + decimal(len) + " fields, expected "@
        + decimal(expected)
}

/// The first data row (index into the rows after the header) whose width
/// differs from the header's.
pub open spec fn first_bad_row(rows: Seq<Seq<Seq<char>>>, width: nat) -> Option<nat> {
    if exists|i: int| 1 <= i < rows.len() && #[trigger] rows[i].len() != width {
        let i = choose|i: int|
            1 <= i < rows.len() && #[trigger] rows[i].len() != width && forall|j: int|
                1 <= j < i ==> #[trigger] rows[j].len() == width;
        Some(i as nat)
    } else {
        None
    }
}

// --------------------------------------------------
// reader
// --------------------------------------------------
/// A small CSV file wrapper for site-generation data.
#[derive(Clone, Debug)]
pub struct Csv<'a> {
    /// Path to the CSV file on disk, as displayed
    pub path: String,
    /// Contents
    pub contents: String,
    /// Expected header row
    pub headers: Vec<&'a str>,
}

/// One parsed CSV row.
#[derive(Clone, Debug)]
pub struct CsvRow {
    /// Parsed fields
    pub fields: Vec<String>,
}

/// Views of string slices.
pub open spec fn str_views<'a>(v: Seq<&'a str>) -> Seq<Seq<char>> {
    v.map_values(|s: &'a str| s@)
}

/// Views of char vectors.
pub open spec fn vec_views(v: Seq<Vec<char>>) -> Seq<Seq<char>> {
    v.map_values(|s: Vec<char>| s@)
}

/// The Debug rendering of a list of strings (`format!("{:?}", items)`); a
/// list of `&str` renders the same.
#[verifier::external_body]
fn debug_list(items: &Vec<String>) -> (s: String)
    ensures
        s@ == debug_list_text(views(items@)),
{
    format!("{:?}", items)
}

/// The lines of `s`, as `str::lines` yields them.
pub fn lines_of(s: &Vec<char>) -> (r: Vec<Vec<char>>)
    ensures
        vec_views(r@) == text_lines(s@),
{
    let p = split_chars(s, '\n');
    let ghost sp = split_char(s@, '\n');
    let mut r: Vec<Vec<char>> = Vec::new();
    if s.len() == 0 {
        assert(vec_views(r@) =~= text_lines(s@));
        return r;
    }
    proof {
        crate::text::lemma_split_char_nonempty(s@, '\n');
        lemma_split_ends_newline(s@);
    }
    let n: usize = if s[s.len() - 1] == '\n' {
        p.len() - 1
    } else {
        p.len()
    };
    let mut i: usize = 0;
    while i < n
        invariant
            n <= p.len(),
            p@.len() == sp.len(),
            sp == split_char(s@, '\n'),
            forall|k: int| 0 <= k < p@.len() ==> #[trigger] p@[k]@ == sp[k],
            i <= n,
            r@.len() == i,
            forall|k: int|
                0 <= k < i ==> #[trigger] r@[k]@ == if k < sp.len() - 1 {
                    strip_cr(sp[k])
                } else {
                    sp[k]
                },
        decreases n - i,
    {
        let piece = &p[i];
        let mut line: Vec<char> = piece.clone();
        if i + 1 < p.len() && line.len() > 0 && line[line.len() - 1] == '\r' {
            line.pop();
        }
        assert(line@ == if i < sp.len() - 1 {
            strip_cr(sp[i as int])
        } else {
            sp[i as int]
        }) by {
            if i + 1 < p.len() && piece.len() > 0 && piece@.last() == '\r' {
                assert(line@ =~= piece@.drop_last());
            }
        }
        r.push(line);
        i = i + 1;
    }
    assert(vec_views(r@) =~= text_lines(s@));
    r
}

/// After a final `'\n'`, the last piece of the split is empty.
proof fn lemma_split_ends_newline(s: Seq<char>)
    requires
        s.len() > 0,
    ensures
        split_char(s, '\n').len() >= 1,
        s.last() == '\n' ==> split_char(s, '\n').len() >= 2,
{
    crate::text::lemma_split_char_nonempty(s, '\n');
    crate::text::lemma_split_char_nonempty(s.drop_last(), '\n');
}

/// Whether `s` holds only whitespace.
fn is_blank(s: &Vec<char>) -> (b: bool)
    ensures
        b == blank(s@),
{
    let mut i: usize = 0;
    while i < s.len()
        invariant
            i <= s.len(),
            forall|j: int| 0 <= j < i ==> is_whitespace(#[trigger] s@[j]),
        decreases s.len() - i,
    {
        if !is_whitespace_exec(s[i]) {
            return false;
        }
        i = i + 1;
    }
    true
}

/// What `char::is_whitespace` accepts.
pub fn is_whitespace_exec(c: char) -> (b: bool)
    ensures
        b == is_whitespace(c),
{
    ('\u{9}' <= c && c <= '\u{d}') || c == ' ' || c == '\u{85}' || c == '\u{a0}' || c
        == '\u{1680}' || ('\u{2000}' <= c && c <= '\u{200a}') || c == '\u{2028}' || c == '\u{2029}'
        || c == '\u{202f}' || c == '\u{205f}' || c == '\u{3000}'
}

/// Whether two char sequences are equal.
pub fn same_chars(a: &Vec<char>, b: &Vec<char>) -> (r: bool)
    ensures
        r == (a@ == b@),
{
    if a.len() != b.len() {
        return false;
    }
    let mut i: usize = 0;
    while i < a.len()
        invariant
            i <= a.len() == b.len(),
            forall|j: int| 0 <= j < i ==> a@[j] == b@[j],
        decreases a.len() - i,
    {
        if a[i] != b[i] {
            return false;
        }
        i = i + 1;
    }
    assert(a@ =~= b@);
    true
}

impl<'a> Csv<'a> {
    /// A CSV wrapper over already-read contents, with an expected header row.
    pub fn from_contents(path: String, contents: String, headers: Vec<&'a str>) -> (r: Csv<'a>)
        ensures
            r.path@ == path@,
            r.contents@ == contents@,
            r.headers@ == headers@,
    {
        Csv { path, contents, headers }
    }

    /// Reads all non-header rows, validating the header and row widths.
    pub fn read_rows(&self) -> (r: Result<Vec<CsvRow>, String>)
        ensures
            match spec_read_rows(self.path@, self.contents@, str_views(self.headers@)) {
                Ok(rows) => r matches Ok(v) && v@.len() == rows.len() && forall|i: int|
                    0 <= i < rows.len() ==> views(#[trigger] v@[i].fields@) == rows[i],
                Err(e) => r matches Err(m) && m@ == e,
            },
    {
        let contents = chars_of(self.contents.as_str());
        let lines = lines_of(&contents);
        let ghost tl = text_lines(contents@);
        let mut recs: Vec<Vec<Vec<char>>> = Vec::new();
        let mut i: usize = 0;
        while i < lines.len()
            invariant
                i <= lines.len(),
                tl == text_lines(contents@),
                vec_views(lines@) == tl,
                recs@.len() == records_of(tl.take(i as int)).len(),
                forall|k: int|
                    0 <= k < recs@.len() ==> vec_views(#[trigger] recs@[k]@) == records_of(
                        tl.take(i as int),
                    )[k],
            decreases lines.len() - i,
        {
            assert(tl.take(i + 1).drop_last() =~= tl.take(i as int));
            assert(tl.take(i + 1).last() == lines@[i as int]@);
            if !is_blank(&lines[i]) {
                let fields = Self::parse_line(&lines[i]);
                recs.push(fields);
            }
            i = i + 1;
        }
        assert(tl.take(lines.len() as int) =~= tl);
        let ghost recs_spec = csv_records(contents@);
        let ghost hv = str_views(self.headers@);
        if recs.len() == 0 {
            return Ok(Vec::new());
        }
        // header row
        let header_text = Self::header_chars(&self.headers);
        let mut same = recs[0].len() == header_text.len();
        let mut k: usize = 0;
        while same && k < header_text.len()
            invariant
                same ==> recs@[0]@.len() == header_text@.len(),
                k <= header_text@.len(),
                same ==> forall|j: int| 0 <= j < k ==> recs@[0]@[j]@ == header_text@[j]@,
                !same ==> vec_views(recs@[0]@) != vec_views(header_text@),
                recs@.len() > 0,
            decreases header_text.len() - k,
        {
            if !same_chars(&recs[0][k], &header_text[k]) {
                same = false;
                assert(vec_views(recs@[0]@)[k as int] != vec_views(header_text@)[k as int]);
            }
            k = k + 1;
        }
        if same {
            assert(vec_views(recs@[0]@) =~= vec_views(header_text@));
        }
        if !same {
            let found = Self::to_strings(&recs[0]);
            let expected = Self::to_strings(&header_text);
            let mut out: Vec<char> = Vec::new();
            push_str(&mut out, "`");
            push_str(&mut out, self.path.as_str());
            push_str(&mut out, "` has headers ");
            push_str(&mut out, debug_list(&found).as_str());
            push_str(&mut out, ", expected ");
            push_str(&mut out, debug_list(&expected).as_str());
            assert(out@ =~= header_message(self.path@, recs_spec[0], hv));
            return Err(string_from_chars(&out));
        }
        let width = self.headers.len();
        let mut rows: Vec<CsvRow> = Vec::new();
        let mut j: usize = 1;
        while j < recs.len()
            invariant
                1 <= j <= recs@.len(),
                recs_spec == csv_records(self.contents@),
                hv == str_views(self.headers@),
                recs_spec[0] == hv,
                recs@.len() == recs_spec.len(),
                forall|k: int| 0 <= k < recs@.len() ==> vec_views(#[trigger] recs@[k]@) == recs_spec[k],
                width == hv.len(),
                forall|k: int| 1 <= k < j ==> #[trigger] recs_spec[k].len() == width,
                rows@.len() == j - 1,
                forall|k: int| 0 <= k < rows@.len() ==> views(#[trigger] rows@[k].fields@) == recs_spec[k + 1],
            decreases recs.len() - j,
        {
            if recs[j].len() != width {
                proof {
                    lemma_first_bad_row(recs_spec, width as nat, j as int);
                }
                let mut out: Vec<char> = Vec::new();
                push_str(&mut out, "`");
                push_str(&mut out, self.path.as_str());
                push_str(&mut out, "` row ");
                push_decimal(&mut out, (j as u64) + 1);
                push_str(&mut out, " has ");
                push_decimal(&mut out, recs[j].len() as u64);
                push_str(&mut out, " fields, expected ");
                push_decimal(&mut out, width as u64);
                assert(out@ =~= width_message(self.path@, (j + 1) as nat, recs_spec[j as int].len(), hv.len()));
                return Err(string_from_chars(&out));
            }
            let row = CsvRow::new(Self::to_strings(&recs[j]));
            rows.push(row);
            j = j + 1;
        }
        proof {
            lemma_no_bad_row(recs_spec, width as nat);
        }
        Ok(rows)
    }

    /// The header names as char vectors.
    fn header_chars(headers: &Vec<&'a str>) -> (r: Vec<Vec<char>>)
        ensures
            vec_views(r@) == str_views(headers@),
    {
        let mut r: Vec<Vec<char>> = Vec::new();
        let mut i: usize = 0;
        while i < headers.len()
            invariant
                i <= headers.len(),
                r@.len() == i,
                forall|k: int| 0 <= k < i ==> #[trigger] r@[k]@ == headers@[k]@,
            decreases headers.len() - i,
        {
            r.push(chars_of(headers[i]));
            i = i + 1;
        }
        assert(vec_views(r@) =~= str_views(headers@));
        r
    }

    /// The char vectors as strings.
    fn to_strings(v: &Vec<Vec<char>>) -> (r: Vec<String>)
        ensures
            views(r@) == vec_views(v@),
    {
        let mut r: Vec<String> = Vec::new();
        let mut i: usize = 0;
        while i < v.len()
            invariant
                i <= v.len(),
                r@.len() == i,
                forall|k: int| 0 <= k < i ==> #[trigger] r@[k]@ == v@[k]@,
            decreases v.len() - i,
        {
            r.push(string_from_chars(&v[i]));
            i = i + 1;
        }
        assert(views(r@) =~= vec_views(v@));
        r
    }

    /// Parses one CSV line, tolerating malformed quoting.
    fn parse_line(line: &Vec<char>) -> (fields: Vec<Vec<char>>)
        ensures
            vec_views(fields@) == csv_line(line@),
    {
        let mut fields: Vec<Vec<char>> = Vec::new();
        let mut field: Vec<char> = Vec::new();
        let mut in_quotes = false;
        let mut i: usize = 0;
        assert(line@.subrange(0, line.len() as int) =~= line@);
        assert(vec_views(fields@) =~= Seq::<Seq<char>>::empty());
        while i < line.len()
            invariant
                i <= line.len(),
                csv_line(line@) == csv_fields(
                    line@.subrange(i as int, line.len() as int),
                    in_quotes,
                    field@,
                    vec_views(fields@),
                ),
            decreases line.len() - i,
        {
            let ghost rest = line@.subrange(i as int, line.len() as int);
            assert(rest.drop_first() =~= line@.subrange(i + 1, line.len() as int));
            let c = line[i];
            if in_quotes {
                if c == '"' {
                    if i + 1 < line.len() && line[i + 1] == '"' {
                        assert(rest.drop_first().drop_first() =~= line@.subrange(
                            i + 2,
                            line.len() as int,
                        ));
                        field.push('"');
                        i = i + 2;
                    } else {
                        in_quotes = false;
                        i = i + 1;
                    }
                } else {
                    field.push(c);
                    i = i + 1;
                }
            } else if c == '"' {
                in_quotes = true;
                i = i + 1;
            } else if c == ',' {
                let done = field;
                let ghost before = vec_views(fields@);
                fields.push(done);
                assert(vec_views(fields@) =~= before.push(done@));
                field = Vec::new();
                i = i + 1;
            } else {
                field.push(c);
                i = i + 1;
            }
        }
        assert(line@.subrange(line.len() as int, line.len() as int) =~= Seq::<char>::empty());
        let ghost before = vec_views(fields@);
        fields.push(field);
        assert(vec_views(fields@) =~= before.push(field@));
        fields
    }
}

/// A bad row found where every earlier one was good is the first bad row.
proof fn lemma_first_bad_row(rows: Seq<Seq<Seq<char>>>, width: nat, j: int)
    requires
        1 <= j < rows.len(),
        rows[j].len() != width,
        forall|k: int| 1 <= k < j ==> #[trigger] rows[k].len() == width,
    ensures
        first_bad_row(rows, width) == Some(j as nat),
{
    assert(exists|i: int| 1 <= i < rows.len() && #[trigger] rows[i].len() != width);
    let i = choose|i: int|
        1 <= i < rows.len() && #[trigger] rows[i].len() != width && forall|k: int|
            1 <= k < i ==> #[trigger] rows[k].len() == width;
    assert(1 <= j < rows.len() && rows[j].len() != width && forall|k: int|
        1 <= k < j ==> #[trigger] rows[k].len() == width);
    if i < j {
        assert(rows[i].len() == width);
    }
    if j < i {
        assert(rows[j].len() == width);
    }
}

/// With every row good, there is no first bad row.
proof fn lemma_no_bad_row(rows: Seq<Seq<Seq<char>>>, width: nat)
    requires
        forall|k: int| 1 <= k < rows.len() ==> #[trigger] rows[k].len() == width,
    ensures
        first_bad_row(rows, width) == None::<nat>,
{
}

/// The vector as an array of exactly `N` items (`TryFrom<Vec<T>> for [T; N]`),
/// or the vector back when its length is not `N`.
#[verifier::external_body]
fn vec_into_array<const N: usize>(v: Vec<String>) -> (r: Result<[String; N], Vec<String>>)
    ensures
        match r {
            Ok(a) => v@.len() == N && a@ == v@,
            Err(w) => v@.len() != N && w@ == v@,
        },
{
    v.try_into()
}

/// `{name} has {len} fields, expected {n}`
pub open spec fn array_message(name: Seq<char>, len: nat, n: nat) -> Seq<char> {
    name + " has "@ + decimal(len) + " fields, expected "@ + decimal(n)
}

impl CsvRow {
    /// Consumes the row and returns exactly `N` fields.
    pub fn into_array<const N: usize>(self, name: &str) -> (r: Result<[String; N], String>)
        ensures
            match r {
                Ok(a) => self.fields@.len() == N && a@ == self.fields@,
                Err(e) => self.fields@.len() != N && e@ == array_message(
                    name@,
                    self.fields@.len(),
                    N as nat,
                ),
            },
    {
        match vec_into_array::<N>(self.fields) {
            Ok(a) => Ok(a),
            Err(fields) => {
                let mut out: Vec<char> = Vec::new();
                push_str(&mut out, name);
                push_str(&mut out, " has ");
                push_decimal(&mut out, fields.len() as u64);
                push_str(&mut out, " fields, expected ");
                push_decimal(&mut out, N as u64);
                assert(out@ =~= array_message(name@, fields@.len(), N as nat));
                Err(string_from_chars(&out))
            },
        }
    }

    /// Creates a CSV row from already-validated fields.
    fn new(fields: Vec<String>) -> (r: CsvRow)
        ensures
            r.fields@ == fields@,
    {
        CsvRow { fields }
    }
}

/// Whether field `i`, when the row has it, reads as a CSV date without
/// slicing inside a char.
pub open spec fn csv_sliceable_fields(fields: Seq<String>, i: int) -> bool {
    0 <= i < fields.len() ==> crate::datetime::csv_sliceable(fields[i]@)
}


// --------------------------------------------------
// laws
// --------------------------------------------------
/// No `"` in `s`.
pub open spec fn quote_free(s: Seq<char>) -> bool {
    forall|i: int| 0 <= i < s.len() ==> s[i] != '"'
}

/// No `"` and no `,` in `s`.
pub open spec fn field_plain(s: Seq<char>) -> bool {
    forall|i: int| 0 <= i < s.len() ==> s[i] != '"' && s[i] != ','
}

/// Outside quotes, a run without `"` or `,` is added to the field.
proof fn lemma_plain_run(a: Seq<char>, rest: Seq<char>, field: Seq<char>, fields: Seq<Seq<char>>)
    requires
        field_plain(a),
    ensures
        csv_fields(a + rest, false, field, fields) == csv_fields(rest, false, field + a, fields),
    decreases a.len(),
{
    if a.len() == 0 {
        assert(a + rest =~= rest);
        assert(field + a =~= field);
    } else {
        let s = a + rest;
        assert(s[0] == a[0]);
        assert(s.drop_first() =~= a.drop_first() + rest);
        lemma_plain_run(a.drop_first(), rest, field.push(a[0]), fields);
        assert(field.push(a[0]) + a.drop_first() =~= field + a);
    }
}

/// Inside quotes, a run without `"` is added to the field, commas included.
proof fn lemma_quoted_run(a: Seq<char>, rest: Seq<char>, field: Seq<char>, fields: Seq<Seq<char>>)
    requires
        quote_free(a),
    ensures
        csv_fields(a + rest, true, field, fields) == csv_fields(rest, true, field + a, fields),
    decreases a.len(),
{
    if a.len() == 0 {
        assert(a + rest =~= rest);
        assert(field + a =~= field);
    } else {
        let s = a + rest;
        assert(s[0] == a[0]);
        assert(s.drop_first() =~= a.drop_first() + rest);
        lemma_quoted_run(a.drop_first(), rest, field.push(a[0]), fields);
        assert(field.push(a[0]) + a.drop_first() =~= field + a);
    }
}

/// Law: a line of two plain fields, `f1,f2`, reads as exactly those two
/// fields.
pub proof fn law_csv_plain_fields(f1: Seq<char>, f2: Seq<char>)
    requires
        field_plain(f1),
        field_plain(f2),
    ensures
        csv_line(f1 + ","@ + f2) == seq![f1, f2],
{
    let e = Seq::<char>::empty();
    let es = Seq::<Seq<char>>::empty();
    reveal_strlit(",");
    lemma_plain_run(f1, ","@ + f2, e, es);
    assert(f1 + ","@ + f2 =~= f1 + (","@ + f2));
    assert(e + f1 =~= f1);
    let t = ","@ + f2;
    assert(t[0] == ',');
    assert(t.drop_first() =~= f2 + e);
    lemma_plain_run(f2, e, e, es.push(f1));
    assert(e + f2 =~= f2);
    assert(es.push(f1).push(f2) =~= seq![f1, f2]);
}

/// Law: a closing quote ends the quoted part of a field, so a comma right
/// after it separates fields: `"f1",f2` reads as the two fields `f1` and
/// `f2`, for a quoted `f1` without `"` (commas allowed) and a plain `f2`.
pub proof fn law_csv_quoted_field_closes(f1: Seq<char>, f2: Seq<char>)
    requires
        quote_free(f1),
        field_plain(f2),
    ensures
        csv_line("\""@ + f1 + "\","@ + f2) == seq![f1, f2],
{
    let e = Seq::<char>::empty();
    let es = Seq::<Seq<char>>::empty();
    reveal_strlit("\"");
    reveal_strlit("\",");
    let line = "\""@ + f1 + "\","@ + f2;
    assert(line[0] == '"');
    let after_open = f1 + ("\","@ + f2);
    assert(line.drop_first() =~= after_open);
    lemma_quoted_run(f1, "\","@ + f2, e, es);
    assert(e + f1 =~= f1);
    let t = "\","@ + f2;
    assert(t[0] == '"');
    assert(t.drop_first()[0] == ',');
    assert(t.drop_first().drop_first() =~= f2 + e);
    lemma_plain_run(f2, e, e, es.push(f1));
    assert(e + f2 =~= f2);
    assert(csv_fields(f2 + e, false, e, es.push(f1)) == es.push(f1).push(f2));
    assert(csv_fields(t.drop_first(), false, f1, es) == csv_fields(f2 + e, false, e, es.push(f1)));
    assert(csv_fields(t, true, f1, es) == csv_fields(t.drop_first(), false, f1, es));
    assert(csv_fields(after_open, true, e, es) == csv_fields(t, true, f1, es));
    assert(csv_fields(line, false, e, es) == csv_fields(after_open, true, e, es));
    assert(es.push(f1).push(f2) =~= seq![f1, f2]);
}

/// Splitting a text without `c` gives the text as its one piece.
proof fn lemma_split_char_single(a: Seq<char>, c: char)
    requires
        forall|i: int| 0 <= i < a.len() ==> a[i] != c,
    ensures
        split_char(a, c) == seq![a],
    decreases a.len(),
{
    if a.len() > 0 {
        lemma_split_char_single(a.drop_last(), c);
        assert(a.drop_last().push(a.last()) =~= a);
        assert(seq![a.drop_last()].update(0, a.drop_last().push(a.last())) =~= seq![a]);
    } else {
        assert(a =~= Seq::<char>::empty());
    }
}

/// Extending a text keeps the first piece of its split once a separator
/// has been seen.
proof fn lemma_split_char_first_kept(a: Seq<char>, b: Seq<char>, c: char)
    requires
        split_char(a, c).len() >= 2,
    ensures
        split_char(a + b, c).len() >= 2,
        split_char(a + b, c)[0] == split_char(a, c)[0],
    decreases b.len(),
{
    if b.len() == 0 {
        assert(a + b =~= a);
    } else {
        lemma_split_char_first_kept(a, b.drop_last(), c);
        assert((a + b).drop_last() =~= a + b.drop_last());
    }
}

/// The first line of `a + "\n" + b`, for `a` without line breaks, is `a`
/// less a trailing `\r`.
pub proof fn lemma_first_line(a: Seq<char>, b: Seq<char>)
    requires
        forall|i: int| 0 <= i < a.len() ==> a[i] != '\n',
    ensures
        text_lines(a + "\n"@ + b).len() >= 1,
        text_lines(a + "\n"@ + b)[0] == strip_cr(a),
{
    reveal_strlit("\n");
    let s = a + "\n"@;
    lemma_split_char_single(a, '\n');
    assert(s.drop_last() =~= a);
    assert(split_char(s, '\n') =~= seq![a, Seq::<char>::empty()]);
    lemma_split_char_first_kept(s, b, '\n');
    assert(a + "\n"@ + b =~= s + b);
    assert((a + "\n"@ + b).len() > 0);
}

} // verus!
