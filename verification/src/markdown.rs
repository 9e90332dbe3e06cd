//! Markdown documents converted to HTML, with the standard post-processing:
//! wrapper stripping, smart-quote normalization, first-heading extraction,
//! heading anchors and tables of contents.
use vstd::prelude::*;

use crate::csv::{lemma_first_line, lines_of, strip_cr, text_lines, vec_views};
use crate::primitives::{SourceType, TocEntry};
use crate::regex::{
    capture_spans, regex_capture_spans, regex_replacen_text, replacen, report_view, span_chars,
    span_text, spans_well_placed, Groups,
};
use crate::text::{
    byte_len, byte_slice, char_index_at, chars_of, index_at_byte, is_whitespace, parse_std_u8, shift_index, std_unsigned_syntax,
    std_unsigned_value, string_from_chars, sub_chars,
};

verus! {

// --------------------------------------------------
// model
// --------------------------------------------------
/// Whether `s` begins with `p`.
pub open spec fn starts_with(s: Seq<char>, p: Seq<char>) -> bool {
    p.len() <= s.len() && s.subrange(0, p.len() as int) == p
}

/// Whether `s` ends with `p`.
pub open spec fn ends_with(s: Seq<char>, p: Seq<char>) -> bool {
    p.len() <= s.len() && s.subrange(s.len() - p.len(), s.len() as int) == p
}

/// Where `p` first occurs in `s` (what `str::find` gives, counted in chars).
pub open spec fn find_sub(s: Seq<char>, p: Seq<char>) -> Option<nat>
    decreases s.len(),
{
    if starts_with(s, p) {
        Some(0)
    } else if s.len() == 0 {
        None
    } else {
        shift_index(find_sub(s.drop_first(), p), 1)
    }
}

/// `s` with every leading copy of `p` removed (`str::trim_start_matches`).
pub open spec fn trim_start_matches(s: Seq<char>, p: Seq<char>) -> Seq<char>
    decreases s.len(),
{
    if p.len() > 0 && starts_with(s, p) {
        trim_start_matches(s.subrange(p.len() as int, s.len() as int), p)
    } else {
        s
    }
}

/// `s` with every trailing copy of `p` removed (`str::trim_end_matches`).
pub open spec fn trim_end_matches(s: Seq<char>, p: Seq<char>) -> Seq<char>
    decreases s.len(),
{
    if p.len() > 0 && ends_with(s, p) {
        trim_end_matches(s.subrange(0, s.len() - p.len()), p)
    } else {
        s
    }
}

/// `s` without leading whitespace.
pub open spec fn trim_start(s: Seq<char>) -> Seq<char>
    decreases s.len(),
{
    if s.len() > 0 && is_whitespace(s[0]) {
        trim_start(s.drop_first())
    } else {
        s
    }
}

/// `s` without trailing whitespace.
pub open spec fn trim_end(s: Seq<char>) -> Seq<char>
    decreases s.len(),
{
    if s.len() > 0 && is_whitespace(s.last()) {
        trim_end(s.drop_last())
    } else {
        s
    }
}

/// `s` without whitespace at either end (`str::trim`).
pub open spec fn trim(s: Seq<char>) -> Seq<char> {
    trim_end(trim_start(s))
}

/// The first of `lines` that starts with `# `.
pub open spec fn first_h1_line(lines: Seq<Seq<char>>) -> Option<Seq<char>>
    decreases lines.len(),
{
    if lines.len() == 0 {
        None
    } else if starts_with(lines[0], "# "@) {
        Some(lines[0])
    } else {
        first_h1_line(lines.drop_first())
    }
}

/// The first `# ...` heading of markdown `md`, its `# ` markers and
/// surrounding whitespace removed.
pub open spec fn spec_extract_h1(md: Seq<char>) -> Option<Seq<char>> {
    match first_h1_line(text_lines(md)) {
        Some(line) => Some(trim(trim_start_matches(line, "# "@))),
        None => None,
    }
}

/// `html` without its first `<h1 ...>...</h1>` block.
pub open spec fn spec_strip_first_h1(html: Seq<char>) -> Seq<char> {
    match find_sub(html, "<h1"@) {
        Some(start) => match find_sub(html.subrange(start as int, html.len() as int), "</h1>"@) {
            Some(end) => html.subrange(0, start as int) + html.subrange(
                (start + end + "</h1>"@.len()) as int,
                html.len() as int,
            ),
            None => html,
        },
        None => html,
    }
}

/// A character with curly quotes made straight.
pub open spec fn straight_quote(c: char) -> char {
    if c == '\u{2018}' || c == '\u{2019}' {
        '\''
    } else if c == '\u{201c}' || c == '\u{201d}' {
        '"'
    } else {
        c
    }
}

/// `html` with every smart quote replaced by its ASCII equivalent.
pub open spec fn spec_normalize_quotes(html: Seq<char>) -> Seq<char> {
    html.map_values(|c: char| straight_quote(c))
}

/// What is kept of a standalone pandoc page: from its first `<style>` on
/// (or all of it), trailing `</html>` removed, behind a `<head>` tag.
pub open spec fn spec_pandoc_body(output: Seq<char>) -> Seq<char> {
    let from = match find_sub(output, "<style>"@) {
        Some(i) => i as int,
        None => 0,
    };
    "<head>"@ + trim_end_matches(output.subrange(from, output.len() as int), "</html>"@)
}

// --------------------------------------------------
// searching
// --------------------------------------------------
/// Whether `p` occurs in `s` at `i`.
pub fn occurs_at(s: &Vec<char>, p: &Vec<char>, i: usize) -> (b: bool)
    requires
        i <= s.len(),
    ensures
        b == starts_with(s@.subrange(i as int, s.len() as int), p@),
{
    let ghost rest = s@.subrange(i as int, s.len() as int);
    if p.len() > s.len() - i {
        return false;
    }
    let mut k: usize = 0;
    while k < p.len()
        invariant
            p.len() <= s.len() - i,
            k <= p.len(),
            rest == s@.subrange(i as int, s.len() as int),
            forall|j: int| 0 <= j < k ==> s@[i + j] == p@[j],
        decreases p.len() - k,
    {
        if s[i + k] != p[k] {
            assert(rest.subrange(0, p.len() as int)[k as int] != p@[k as int]);
            return false;
        }
        k = k + 1;
    }
    assert(rest.subrange(0, p.len() as int) =~= p@);
    true
}

/// Where `p` first occurs in `s` at or after `from`, counted from `from`.
pub fn find_from(s: &Vec<char>, p: &Vec<char>, from: usize) -> (r: Option<usize>)
    requires
        from <= s.len(),
    ensures
        r == match find_sub(s@.subrange(from as int, s.len() as int), p@) {
            Some(i) => Some(i as usize),
            None => None::<usize>,
        },
        r matches Some(i) ==> from + i <= s.len(),
        find_sub(s@.subrange(from as int, s.len() as int), p@) matches Some(i) ==> i + p@.len()
            <= s.len() - from,
{
    proof {
        lemma_find_sub_fits(s@.subrange(from as int, s.len() as int), p@);
    }
    let mut i: usize = from;
    assert(s@.subrange(from as int, s.len() as int) =~= s@.subrange(i as int, s.len() as int));
    loop
        invariant
            from <= i <= s.len(),
            find_sub(s@.subrange(from as int, s.len() as int), p@) == shift_index(
                find_sub(s@.subrange(i as int, s.len() as int), p@),
                (i - from) as nat,
            ),
        decreases s.len() - i,
    {
        if occurs_at(s, p, i) {
            return Some(i - from);
        }
        if i == s.len() {
            assert(find_sub(s@.subrange(i as int, s.len() as int), p@) == None::<nat>);
            return None;
        }
        assert(s@.subrange(i as int, s.len() as int).drop_first() =~= s@.subrange(
            i + 1,
            s.len() as int,
        ));
        i = i + 1;
    }
}

/// Whether `p` ends `s`.
pub fn ends_with_exec(s: &Vec<char>, p: &Vec<char>) -> (b: bool)
    ensures
        b == ends_with(s@, p@),
{
    if p.len() > s.len() {
        return false;
    }
    let b = occurs_at(s, p, s.len() - p.len());
    assert(s@.subrange(s.len() - p.len(), s.len() as int).subrange(0, p.len() as int)
        =~= s@.subrange(s.len() - p.len(), s.len() as int));
    b
}

/// `s` with every trailing copy of `p` removed.
pub fn trim_end_matches_exec(s: &Vec<char>, p: &Vec<char>) -> (r: Vec<char>)
    ensures
        r@ == trim_end_matches(s@, p@),
{
    let mut cur = s.clone();
    assert(cur@ == s@);
    if p.len() == 0 {
        return cur;
    }
    while ends_with_exec(&cur, p)
        invariant
            p@.len() > 0,
            trim_end_matches(s@, p@) == trim_end_matches(cur@, p@),
        decreases cur@.len(),
    {
        let n = cur.len() - p.len();
        cur = sub_chars(&cur, 0, n);
    }
    cur
}

/// `s` with every leading copy of `p` removed.
pub fn trim_start_matches_exec(s: &Vec<char>, p: &Vec<char>) -> (r: Vec<char>)
    ensures
        r@ == trim_start_matches(s@, p@),
{
    let mut cur = s.clone();
    assert(cur@ == s@);
    if p.len() == 0 {
        return cur;
    }
    loop
        invariant
            p@.len() > 0,
            trim_start_matches(s@, p@) == trim_start_matches(cur@, p@),
        decreases cur@.len(),
    {
        let starts = occurs_at(&cur, p, 0);
        assert(cur@.subrange(0, cur@.len() as int) =~= cur@);
        if !starts {
            return cur;
        }
        let n = cur.len();
        cur = sub_chars(&cur, p.len(), n);
    }
}

/// `s` without whitespace at either end.
pub fn trim_exec(s: &Vec<char>) -> (r: Vec<char>)
    ensures
        r@ == trim(s@),
{
    let mut a: usize = 0;
    assert(s@.subrange(0, s.len() as int) =~= s@);
    while a < s.len() && crate::csv::is_whitespace_exec(s[a])
        invariant
            a <= s.len(),
            trim_start(s@) == trim_start(s@.subrange(a as int, s.len() as int)),
        decreases s.len() - a,
    {
        assert(s@.subrange(a as int, s.len() as int).drop_first() =~= s@.subrange(
            a + 1,
            s.len() as int,
        ));
        a = a + 1;
    }
    let ghost ts = s@.subrange(a as int, s.len() as int);
    assert(trim_start(ts) == ts);
    let mut b: usize = s.len();
    while b > a && crate::csv::is_whitespace_exec(s[b - 1])
        invariant
            a <= b <= s.len(),
            trim_end(ts) == trim_end(s@.subrange(a as int, b as int)),
            ts == s@.subrange(a as int, s.len() as int),
        decreases b,
    {
        assert(s@.subrange(a as int, b as int).drop_last() =~= s@.subrange(a as int, b - 1));
        b = b - 1;
    }
    let r = sub_chars(s, a, b);
    proof {
        assert(s@.subrange(0, s.len() as int) =~= s@);
        lemma_trim_start_from(s@);
    }
    r
}

/// Trimming the start of the whole string keeps a suffix.
proof fn lemma_trim_start_from(s: Seq<char>)
    ensures
        trim_start(s) == trim_start(s.subrange(0, s.len() as int)),
{
    assert(s.subrange(0, s.len() as int) =~= s);
}

// --------------------------------------------------
// document
// --------------------------------------------------
/// A markdown document converted to HTML with standard post-processing applied.
pub struct MarkdownDocument {
    /// The html content of the document, with smart quotes normalized
    pub html: String,
}

impl MarkdownDocument {
    /// The document for a standalone pandoc page `output`: the page wrapper
    /// is stripped (see [`spec_pandoc_body`]) and smart quotes normalized.
    pub fn from_pandoc_output(output: &str) -> (r: MarkdownDocument)
        ensures
            r.html@ == spec_normalize_quotes(spec_pandoc_body(output@)),
    {
        let body = Self::pandoc_body(output);
        MarkdownDocument { html: Self::normalize_quotes(body.as_str()) }
    }

    /// The document for an HTML file's contents, smart quotes normalized.
    pub fn from_html(contents: &str) -> (r: MarkdownDocument)
        ensures
            r.html@ == spec_normalize_quotes(contents@),
    {
        MarkdownDocument { html: Self::normalize_quotes(contents) }
    }

    /// Removes pandoc's document wrapper: everything before the first
    /// `<style>` goes, a `<head>` tag is put back in front, and trailing
    /// `</html>` tags are dropped.
    pub fn pandoc_body(output: &str) -> (r: String)
        ensures
            r@ == spec_pandoc_body(output@),
    {
        let out = chars_of(output);
        let style = chars_of("<style>");
        let from = match find_from(&out, &style, 0) {
            Some(i) => i,
            None => 0,
        };
        assert(out@.subrange(0, out.len() as int) =~= out@);
        let tail = sub_chars(&out, from, out.len());
        let end = chars_of("</html>");
        let mut body = trim_end_matches_exec(&tail, &end);
        let mut r = chars_of("<head>");
        r.append(&mut body);
        string_from_chars(&r)
    }

    /// Resolve the content source file from a path that is either a file or
    /// a directory holding `index.html` / `index.md`. Whether each index file
    /// exists is given; the path must lead to a supported source.
    pub fn resolve_source(
        path: &str,
        name: &str,
        index_html_exists: bool,
        index_md_exists: bool,
    ) -> (r: (String, SourceType))
        requires
            source_resolvable(path@, index_html_exists, index_md_exists),
        ensures
            (r.0@, r.1) == spec_resolve_source(path@, index_html_exists, index_md_exists),
    {
        let p = chars_of(path);
        match extension_of(&p) {
            None => {
                if index_html_exists {
                    (string_from_chars(&join_exec(&p, &chars_of("index.html"))), SourceType::Html)
                } else {
                    (
                        string_from_chars(&join_exec(&p, &chars_of("index.md"))),
                        SourceType::Markdown,
                    )
                }
            },
            Some(ext) => {
                let t = if same_text(&ext, "html") {
                    SourceType::Html
                } else {
                    SourceType::Markdown
                };
                (string_from_chars(&p), t)
            },
        }
    }

    /// Extract the first `# ...` heading from raw markdown content.
    pub fn extract_h1(md_content: &str) -> (r: Option<String>)
        ensures
            match spec_extract_h1(md_content@) {
                Some(t) => r matches Some(s) && s@ == t,
                None => r is None,
            },
    {
        let md = chars_of(md_content);
        let lines = lines_of(&md);
        let ghost ls = text_lines(md@);
        let marker = chars_of("# ");
        let mut i: usize = 0;
        assert(ls.subrange(0, ls.len() as int) =~= ls);
        while i < lines.len()
            invariant
                i <= lines.len(),
                ls == text_lines(md_content@),
                vec_views(lines@) == ls,
                marker@ == "# "@,
                first_h1_line(ls) == first_h1_line(ls.subrange(i as int, ls.len() as int)),
            decreases lines.len() - i,
        {
            let ghost rest = ls.subrange(i as int, ls.len() as int);
            assert(rest[0] == lines@[i as int]@);
            assert(rest.drop_first() =~= ls.subrange(i + 1, ls.len() as int));
            if occurs_at(&lines[i], &marker, 0) {
                assert(lines@[i as int]@.subrange(0, lines@[i as int]@.len() as int)
                    =~= lines@[i as int]@);
                let trimmed = trim_start_matches_exec(&lines[i], &marker);
                let t = trim_exec(&trimmed);
                return Some(string_from_chars(&t));
            }
            assert(lines@[i as int]@.subrange(0, lines@[i as int]@.len() as int)
                =~= lines@[i as int]@);
            i = i + 1;
        }
        assert(ls.subrange(lines.len() as int, ls.len() as int) =~= Seq::<Seq<char>>::empty());
        None
    }

    /// Strip the first `<h1>...</h1>` block from HTML so the template can
    /// render the title separately.
    pub fn strip_first_h1(html: &str) -> (r: String)
        ensures
            r@ == spec_strip_first_h1(html@),
    {
        let h = chars_of(html);
        assert(h@.subrange(0, h.len() as int) =~= h@);
        let open = chars_of("<h1");
        let close = chars_of("</h1>");
        if let Some(start) = find_from(&h, &open, 0) {
            if let Some(end) = find_from(&h, &close, start) {
                let ghost rest = h@.subrange(start as int, h.len() as int);
                proof {
                    lemma_find_sub_fits(rest, "</h1>"@);
                }
                let end_abs = start + end + close.len();
                let mut out = sub_chars(&h, 0, start);
                let mut tail = sub_chars(&h, end_abs, h.len());
                out.append(&mut tail);
                return string_from_chars(&out);
            }
        }
        string_from_chars(&h)
    }

    /// Replace Unicode smart quotes with their ASCII equivalents.
    fn normalize_quotes(html: &str) -> (r: String)
        ensures
            r@ == spec_normalize_quotes(html@),
    {
        let h = chars_of(html);
        let mut out: Vec<char> = Vec::new();
        let mut i: usize = 0;
        while i < h.len()
            invariant
                i <= h.len(),
                out@ == h@.subrange(0, i as int).map_values(|c: char| straight_quote(c)),
            decreases h.len() - i,
        {
            let c = h[i];
            let d = if c == '\u{2018}' || c == '\u{2019}' {
                '\''
            } else if c == '\u{201c}' || c == '\u{201d}' {
                '"'
            } else {
                c
            };
            out.push(d);
            i = i + 1;
            assert(out@ =~= h@.subrange(0, i as int).map_values(|c: char| straight_quote(c)));
        }
        assert(h@.subrange(0, h.len() as int) =~= h@);
        string_from_chars(&out)
    }
}

/// A match found by `find_sub` lies inside the searched text.
proof fn lemma_find_sub_fits(s: Seq<char>, p: Seq<char>)
    ensures
        find_sub(s, p) matches Some(i) ==> i + p.len() <= s.len(),
    decreases s.len(),
{
    if !starts_with(s, p) && s.len() > 0 {
        lemma_find_sub_fits(s.drop_first(), p);
    }
}

/// Whether `s` is the text `t`.
fn same_text(s: &Vec<char>, t: &str) -> (b: bool)
    ensures
        b == (s@ == t@),
{
    crate::csv::same_chars(s, &chars_of(t))
}

// --------------------------------------------------
// paths
// --------------------------------------------------
/// The components of a `/`-separated path that name something: empty and
/// `.` components are skipped, as `Path::components` does.
pub open spec fn named_components(p: Seq<char>) -> Seq<Seq<char>> {
    crate::text::split_char(p, '/').filter(|c: Seq<char>| c.len() > 0 && c != "."@)
}

/// The final component of a path, unless it is `..` or there is none
/// (`Path::file_name`).
pub open spec fn file_name(p: Seq<char>) -> Option<Seq<char>> {
    let cs = named_components(p);
    if cs.len() == 0 || cs.last() == ".."@ {
        None
    } else {
        Some(cs.last())
    }
}

/// What follows the last `.` of a file name, if that `.` is not its first
/// char (`Path::extension`).
pub open spec fn extension(p: Seq<char>) -> Option<Seq<char>> {
    match file_name(p) {
        None => None,
        Some(f) => match last_dot(f) {
            Some(i) => if i == 0 {
                None
            } else {
                Some(f.subrange((i + 1) as int, f.len() as int))
            },
            None => None,
        },
    }
}

/// Where the last `.` of `s` is.
pub open spec fn last_dot(s: Seq<char>) -> Option<nat>
    decreases s.len(),
{
    if s.len() == 0 {
        None
    } else if s.last() == '.' {
        Some((s.len() - 1) as nat)
    } else {
        last_dot(s.drop_last())
    }
}

/// `p` joined with `name` (`Path::join`): an absolute `name` replaces
/// `p`; a relative one is appended behind a `/` separator.
pub open spec fn join(p: Seq<char>, name: Seq<char>) -> Seq<char> {
    if name.len() > 0 && name[0] == '/' {
        name
    } else if p.len() == 0 || p.last() == '/' {
        p + name
    } else {
        p.push('/') + name
    }
}

/// Whether the source for `path` can be found: a directory needs one of its
/// index files, a file must be HTML or markdown.
pub open spec fn source_resolvable(path: Seq<char>, html: bool, md: bool) -> bool {
    match extension(path) {
        None => html || md,
        Some(e) => e == "html"@ || e == "md"@,
    }
}

/// The source file for `path` and its kind.
pub open spec fn spec_resolve_source(path: Seq<char>, html: bool, md: bool) -> (
    Seq<char>,
    SourceType,
) {
    match extension(path) {
        None => if html {
            (join(path, "index.html"@), SourceType::Html)
        } else {
            (join(path, "index.md"@), SourceType::Markdown)
        },
        Some(e) => (path, if e == "html"@ {
            SourceType::Html
        } else {
            SourceType::Markdown
        }),
    }
}

/// `p` joined with `name`.
pub fn join_exec(p: &Vec<char>, name: &Vec<char>) -> (r: Vec<char>)
    ensures
        r@ == join(p@, name@),
{
    if name.len() > 0 && name[0] == '/' {
        let r = name.clone();
        assert(r@ == name@);
        return r;
    }
    let mut r = p.clone();
    assert(r@ == p@);
    if !(p.len() == 0 || p[p.len() - 1] == '/') {
        r.push('/');
    }
    let mut n = name.clone();
    r.append(&mut n);
    assert(r@ =~= join(p@, name@));
    r
}

/// `p` joined with `name` (`Path::join`, see [`join`]).
pub fn join_path(p: &str, name: &str) -> (r: String)
    ensures
        r@ == join(p@, name@),
{
    string_from_chars(&join_exec(&chars_of(p), &chars_of(name)))
}

/// The extension of path `p`.
pub fn extension_of(p: &Vec<char>) -> (r: Option<Vec<char>>)
    ensures
        match extension(p@) {
            Some(e) => r matches Some(v) && v@ == e,
            None => r is None,
        },
{
    let f = match file_name_of(p) {
        Some(f) => f,
        None => {
            return None;
        },
    };
    let mut i: usize = f.len();
    assert(f@.subrange(0, f.len() as int) =~= f@);
    while i > 0
        invariant
            i <= f.len(),
            file_name(p@) == Some(f@),
            last_dot(f@) == last_dot(f@.subrange(0, i as int)),
        decreases i,
    {
        if f[i - 1] == '.' {
            assert(last_dot(f@.subrange(0, i as int)) == Some((i - 1) as nat));
            if i - 1 == 0 {
                return None;
            }
            return Some(sub_chars(&f, i, f.len()));
        }
        assert(f@.subrange(0, i as int).drop_last() =~= f@.subrange(0, i - 1));
        i = i - 1;
    }
    None
}

/// The file name of path `p`.
fn file_name_of(p: &Vec<char>) -> (r: Option<Vec<char>>)
    ensures
        match file_name(p@) {
            Some(f) => r matches Some(v) && v@ == f,
            None => r is None,
        },
{
    let parts = crate::text::split_chars(p, '/');
    let ghost sp = crate::text::split_char(p@, '/');
    let ghost pred = |c: Seq<char>| c.len() > 0 && c != "."@;
    let dot = chars_of(".");
    let dotdot = chars_of("..");
    let mut last: Option<usize> = None;
    let mut i: usize = 0;
    while i < parts.len()
        invariant
            i <= parts.len(),
            parts@.len() == sp.len(),
            forall|k: int| 0 <= k < parts@.len() ==> #[trigger] parts@[k]@ == sp[k],
            dot@ == "."@,
            pred == (|c: Seq<char>| c.len() > 0 && c != "."@),
            match last {
                Some(k) => k < i && sp.subrange(0, i as int).filter(pred).len() > 0 && sp.subrange(
                    0,
                    i as int,
                ).filter(pred).last() == sp[k as int],
                None => sp.subrange(0, i as int).filter(pred).len() == 0,
            },
        decreases parts.len() - i,
    {
        reveal_with_fuel(Seq::<_>::filter, 1);
        assert(sp.subrange(0, i + 1).drop_last() =~= sp.subrange(0, i as int));
        if parts[i].len() > 0 && !crate::csv::same_chars(&parts[i], &dot) {
            last = Some(i);
        }
        i = i + 1;
    }
    assert(sp.subrange(0, parts.len() as int) =~= sp);
    match last {
        None => None,
        Some(k) => {
            if crate::csv::same_chars(&parts[k], &dotdot) {
                None
            } else {
                Some(parts[k].clone())
            }
        },
    }
}

// --------------------------------------------------
// headings
// --------------------------------------------------
/// Matches `<hN id="...">...</hN>` heading elements.
/// Groups: 1=tag (e.g. "h2"), 2=level digit, 3=id, 4=content.
pub const HEADING_PATTERN: &'static str = "<(h([1-6]))\\s+id=\"([^\"]+)\">(.*?)</h[1-6]>";

/// Matches any HTML tag, for stripping.
pub const TAG_PATTERN: &'static str = "<[^>]+>";

/// The table-of-contents entry a heading match gives, when its level
/// parses as a `u8` and its id and content groups took part: the level,
/// the id, and the content stripped of tags and outer whitespace.
pub open spec fn toc_item(html: Seq<char>, item: Option<Seq<Option<(nat, nat)>>>) -> Option<
    (u8, Seq<char>, Seq<char>),
> {
    match item {
        Some(g) => if g.len() > 4 && g[2] is Some && g[3] is Some && g[4] is Some
            && std_unsigned_syntax(span_text(html, g[2]->Some_0)) && std_unsigned_value(
            span_text(html, g[2]->Some_0),
        ) <= 255 {
            Some(
                (
                    std_unsigned_value(span_text(html, g[2]->Some_0)) as u8,
                    span_text(html, g[3]->Some_0),
                    trim(
                        regex_replacen_text(
                            TAG_PATTERN@,
                            span_text(html, g[4]->Some_0),
                            0,
                            ""@,
                        )->Some_0,
                    ),
                ),
            )
        } else {
            None
        },
        None => None,
    }
}

/// Whether stripping tags from a heading match's content is reached and fails.
pub open spec fn toc_item_fails(html: Seq<char>, item: Option<Seq<Option<(nat, nat)>>>) -> bool {
    match item {
        Some(g) => g.len() > 4 && g[2] is Some && g[3] is Some && g[4] is Some
            && std_unsigned_syntax(span_text(html, g[2]->Some_0)) && std_unsigned_value(
            span_text(html, g[2]->Some_0),
        ) <= 255 && regex_replacen_text(
            TAG_PATTERN@,
            span_text(html, g[4]->Some_0),
            0,
            ""@,
        ) is None,
        None => false,
    }
}

/// The entries of the heading matches `items`, in order.
pub open spec fn toc_of(html: Seq<char>, items: Seq<Option<Seq<Option<(nat, nat)>>>>) -> Seq<
    (u8, Seq<char>, Seq<char>),
>
    decreases items.len(),
{
    if items.len() == 0 {
        Seq::empty()
    } else {
        let r = toc_of(html, items.drop_last());
        match toc_item(html, items.last()) {
            Some(e) => r.push(e),
            None => r,
        }
    }
}

/// Whether a table of contents can be built from `html`: the heading
/// pattern compiles and stripping tags from each heading works.
pub open spec fn toc_ready(html: Seq<char>) -> bool {
    &&& regex_capture_spans(HEADING_PATTERN@, html) is Some
    &&& forall|i: int|
        0 <= i < regex_capture_spans(HEADING_PATTERN@, html)->Some_0.len() ==> !toc_item_fails(
            html,
            #[trigger] regex_capture_spans(HEADING_PATTERN@, html)->Some_0[i],
        )
}

/// A table-of-contents entry as plain values.
pub open spec fn toc_view(e: TocEntry) -> (u8, Seq<char>, Seq<char>) {
    (e.level, e.id@, e.text@)
}

/// The `<a>`-wrapped heading that replaces a heading match.
pub open spec fn anchored_heading(tag: Seq<char>, id: Seq<char>, content: Seq<char>) -> Seq<char> {
    "<"@ + tag + " id=\""@ + id + "\"><a href=\"#"@ + id + "\" class=\"header-anchor\">"@
        + content + "<span class=\"anchor-icon\" title=\"Copy link\">#</span></a></"@ + tag
        + ">"@
}

/// What one heading match is replaced by: the anchored heading when its tag,
/// id and content groups took part, else the matched text itself.
pub open spec fn anchor_replacement(html: Seq<char>, g: Seq<Option<(nat, nat)>>) -> Seq<char> {
    if g.len() > 4 && g[1] is Some && g[3] is Some && g[4] is Some {
        anchored_heading(
            span_text(html, g[1]->Some_0),
            span_text(html, g[3]->Some_0),
            span_text(html, g[4]->Some_0),
        )
    } else {
        span_text(html, g[0]->Some_0)
    }
}

/// `html` from byte `last` on, with matches `k..` replaced.
pub open spec fn anchored_from(
    html: Seq<char>,
    items: Seq<Option<Seq<Option<(nat, nat)>>>>,
    k: int,
    last: nat,
) -> Seq<char>
    decreases items.len() - k,
{
    if k < 0 || k >= items.len() {
        span_text(html, (last, byte_len(html)))
    } else {
        let g = items[k]->Some_0;
        let m = g[0]->Some_0;
        span_text(html, (last, m.0)) + anchor_replacement(html, g) + anchored_from(
            html,
            items,
            k + 1,
            m.1,
        )
    }
}

/// Whether anchors can be put into `html`: the heading pattern compiles and
/// the engine reports no error on it.
pub open spec fn anchors_ready(html: Seq<char>) -> bool {
    &&& regex_capture_spans(HEADING_PATTERN@, html) is Some
    &&& forall|i: int|
        0 <= i < regex_capture_spans(HEADING_PATTERN@, html)->Some_0.len()
            ==> #[trigger] regex_capture_spans(HEADING_PATTERN@, html)->Some_0[i] is Some
}

impl MarkdownDocument {
    /// Extract table-of-contents entries from HTML headings; stripping
    /// tags from each heading must work (see [`toc_ready`]).
    pub fn extract_toc(html: &str) -> (r: Vec<TocEntry>)
        requires
            toc_ready(html@),
        ensures
            r@.map_values(|e: TocEntry| toc_view(e)) == toc_of(
                html@,
                regex_capture_spans(HEADING_PATTERN@, html@)->Some_0,
            ),
    {
        match Self::try_extract_toc(html) {
            Some(v) => v,
            None => {
                assert(false);
                Vec::new()
            },
        }
    }

    /// Extract table-of-contents entries from HTML headings, or `None` where
    /// the heading pattern does not compile or stripping tags fails.
    pub fn try_extract_toc(html: &str) -> (r: Option<Vec<TocEntry>>)
        ensures
            r is Some <==> toc_ready(html@),
            r matches Some(v) ==> v@.map_values(|e: TocEntry| toc_view(e)) == toc_of(
                html@,
                regex_capture_spans(HEADING_PATTERN@, html@)->Some_0,
            ),
    {
        let h = chars_of(html);
        let report = capture_spans(HEADING_PATTERN, html);
        let items = match report {
            Some(items) => items,
            None => {
                return None;
            },
        };
        let ghost its = report_view(Some(items))->Some_0;
        let mut out: Vec<TocEntry> = Vec::new();
        let mut i: usize = 0;
        while i < items.len()
            invariant
                i <= items.len(),
                h@ == html@,
                its == regex_capture_spans(HEADING_PATTERN@, html@)->Some_0,
                its.len() == items@.len(),
                spans_well_placed(html@, its),
                forall|k: int| 0 <= k < items@.len() ==> #[trigger] its[k] == match items@[k] {
                    Some(g) => Some(crate::regex::groups_view(g)),
                    None => None,
                },
                forall|k: int| 0 <= k < i ==> !toc_item_fails(html@, #[trigger] its[k]),
                out@.map_values(|e: TocEntry| toc_view(e)) == toc_of(html@, its.take(i as int)),
            decreases items.len() - i,
        {
            let ghost before = out@.map_values(|e: TocEntry| toc_view(e));
            assert(its.take(i + 1).drop_last() =~= its.take(i as int));
            assert(its.take(i + 1).last() == its[i as int]);
            match &items[i] {
                Some(g) => {
                    let ghost gv = crate::regex::groups_view(*g);
                    assert(its[i as int] == Some(gv));
                    if g.len() > 4 && g[2].is_some() && g[3].is_some() && g[4].is_some() {
                        assert(gv[2] is Some && gv[3] is Some && gv[4] is Some);
                        assert(gv[2]->Some_0 == ((g@[2]->Some_0).0 as nat, (g@[2]->Some_0).1 as nat));
                        assert(gv[3]->Some_0 == ((g@[3]->Some_0).0 as nat, (g@[3]->Some_0).1 as nat));
                        assert(gv[4]->Some_0 == ((g@[4]->Some_0).0 as nat, (g@[4]->Some_0).1 as nat));
                        let lv = span_chars(&h, g[2].unwrap());
                        match parse_std_u8(&lv) {
                            Some(level) => {
                                let id = span_chars(&h, g[3].unwrap());
                                let raw = span_chars(&h, g[4].unwrap());
                                let raw_s = string_from_chars(&raw);
                                match replacen(TAG_PATTERN, raw_s.as_str(), 0, "") {
                                    Some(stripped) => {
                                        let text = trim_exec(&chars_of(stripped.as_str()));
                                        out.push(
                                            TocEntry {
                                                level,
                                                id: string_from_chars(&id),
                                                text: string_from_chars(&text),
                                            },
                                        );
                                        assert(out@.map_values(|e: TocEntry| toc_view(e))
                                            =~= before.push(toc_item(html@, its[i as int])->Some_0));
                                    },
                                    None => {
                                        assert(toc_item_fails(html@, its[i as int]));
                                        return None;
                                    },
                                }
                            },
                            None => {
                                assert(toc_item(html@, its[i as int]) is None);
                            },
                        }
                    } else {
                        assert(toc_item(html@, its[i as int]) is None);
                    }
                },
                None => {
                    assert(toc_item(html@, its[i as int]) is None);
                },
            }
            i = i + 1;
        }
        assert(its.take(items.len() as int) =~= its);
        Some(out)
    }
}

impl MarkdownDocument {
    /// A post page's content and table of contents, from the HTML of its
    /// markdown: the first `<h1>` stripped (the title is shown on its own),
    /// the table of contents taken from what is left, and anchor links put
    /// into its headings. `None` where a heading search fails.
    pub fn post_page_content(html: &str) -> (r: Option<(String, Vec<TocEntry>)>)
        ensures
            match r {
                Some((content, toc)) => {
                    let body = spec_strip_first_h1(html@);
                    &&& toc_ready(body)
                    &&& anchors_ready(body)
                    &&& toc@.map_values(|e: TocEntry| toc_view(e)) == toc_of(
                        body,
                        regex_capture_spans(HEADING_PATTERN@, body)->Some_0,
                    )
                    &&& content@ == anchored_from(body, regex_capture_spans(HEADING_PATTERN@, body)->Some_0, 0, 0)
                },
                None => !(toc_ready(spec_strip_first_h1(html@)) && anchors_ready(spec_strip_first_h1(html@))),
            },
    {
        let body = Self::strip_first_h1(html);
        let toc = Self::try_extract_toc(body.as_str())?;
        let content = Self::try_inject_anchor_links(body.as_str())?;
        Some((content, toc))
    }

    /// Inject anchor links into headings that have `id` attributes:
    /// `<hN id="foo">Text</hN>` becomes
    /// `<hN id="foo"><a href="#foo" class="header-anchor">Text<span class="anchor-icon" title="Copy link">#</span></a></hN>`.
    /// The heading search must succeed (see [`anchors_ready`]).
    pub fn inject_anchor_links(html: &str) -> (r: String)
        requires
            anchors_ready(html@),
        ensures
            r@ == anchored_from(html@, regex_capture_spans(HEADING_PATTERN@, html@)->Some_0, 0, 0),
    {
        match Self::try_inject_anchor_links(html) {
            Some(s) => s,
            None => {
                assert(false);
                String::new()
            },
        }
    }

    /// Inject anchor links into headings, or `None` where the heading
    /// pattern does not compile or the engine reports an error.
    pub fn try_inject_anchor_links(html: &str) -> (r: Option<String>)
        ensures
            r is Some <==> anchors_ready(html@),
            r matches Some(s) ==> s@ == anchored_from(
                html@,
                regex_capture_spans(HEADING_PATTERN@, html@)->Some_0,
                0,
                0,
            ),
    {
        let h = chars_of(html);
        let items = match capture_spans(HEADING_PATTERN, html) {
            Some(items) => items,
            None => {
                return None;
            },
        };
        let ghost its = report_view(Some(items))->Some_0;
        let mut k: usize = 0;
        while k < items.len()
            invariant
                k <= items.len(),
                its.len() == items@.len(),
                its == regex_capture_spans(HEADING_PATTERN@, html@)->Some_0,
                regex_capture_spans(HEADING_PATTERN@, html@) is Some,
                forall|j: int| 0 <= j < items@.len() ==> #[trigger] its[j] == match items@[j] {
                    Some(g) => Some(crate::regex::groups_view(g)),
                    None => None,
                },
                forall|j: int| 0 <= j < k ==> #[trigger] its[j] is Some,
            decreases items.len() - k,
        {
            if items[k].is_none() {
                assert(its[k as int] is None);
                assert(!(regex_capture_spans(HEADING_PATTERN@, html@)->Some_0[k as int] is Some));
                return None;
            }
            k = k + 1;
        }
        assert(anchors_ready(html@));
        let mut out: Vec<char> = Vec::new();
        let mut last: usize = 0;
        let mut k: usize = 0;
        proof {
            assert(char_index_at(html@, 0) == Some(0nat));
        }
        while k < items.len()
            invariant
                k <= items.len(),
                h@ == html@,
                its == regex_capture_spans(HEADING_PATTERN@, html@)->Some_0,
                anchors_ready(html@),
                its.len() == items@.len(),
                spans_well_placed(html@, its),
                forall|j: int| 0 <= j < items@.len() ==> #[trigger] its[j] == match items@[j] {
                    Some(g) => Some(crate::regex::groups_view(g)),
                    None => None,
                },
                char_index_at(html@, last as int) is Some,
                k > 0 ==> last == its[k - 1]->Some_0[0]->Some_0.1,
                k == 0 ==> last == 0,
                out@ + anchored_from(html@, its, k as int, last as nat) == anchored_from(
                    html@,
                    its,
                    0,
                    0,
                ),
            decreases items.len() - k,
        {
            assert(its[k as int] is Some);
            let g = items[k].as_ref().unwrap();
            let ghost gv = crate::regex::groups_view(*g);
            assert(its[k as int] == Some(gv));
            assert(gv.len() >= 1 && gv[0] is Some);
            let m = g[0].unwrap();
            assert(gv[0]->Some_0 == (m.0 as nat, m.1 as nat));
            assert(byte_slice(html@, m.0 as int, m.1 as int) is Some);
            proof {
                if k > 0 {
                    assert(its[k - 1] is Some);
                    assert(its[k - 1]->Some_0[0]->Some_0.1 <= its[k as int]->Some_0[0]->Some_0.0);
                    assert(last <= m.0);
                }
                assert forall|j: int|
                    0 <= j < g@.len() && #[trigger] g@[j] is Some implies byte_slice(
                    html@,
                    (g@[j]->Some_0).0 as int,
                    (g@[j]->Some_0).1 as int,
                ) is Some by {
                    assert(its[k as int]->Some_0[j] == gv[j]);
                    assert(gv[j]->Some_0 == ((g@[j]->Some_0).0 as nat, (g@[j]->Some_0).1 as nat));
                }
                crate::text::lemma_char_index_at(html@, last as int);
                crate::text::lemma_char_index_at(html@, m.0 as int);
                crate::text::lemma_boundary_order(html@, last as int, m.0 as int);
            }
            let mut before = span_chars(&h, (last, m.0));
            let mut rep = Self::anchor_rep(&h, g);
            let ghost prev = out@;
            out.append(&mut before);
            out.append(&mut rep);
            assert(out@ =~= prev + span_text(html@, (last as nat, m.0 as nat)) + anchor_replacement(
                html@,
                gv,
            ));
            last = m.1;
            k = k + 1;
        }
        proof {
            crate::text::lemma_char_index_at(html@, last as int);
            crate::text::lemma_char_index_at_end(html@);
            crate::text::lemma_boundary_le_len(html@, last as int);
            crate::text::lemma_boundary_order(html@, last as int, byte_len(html@) as int);
        }
        let a = index_at_byte(&h, last).unwrap();
        let mut tail = sub_chars(&h, a, h.len());
        assert(tail@ == span_text(html@, (last as nat, byte_len(html@))));
        out.append(&mut tail);
        Some(string_from_chars(&out))
    }

    /// What a heading match is replaced by.
    fn anchor_rep(h: &Vec<char>, g: &Groups) -> (r: Vec<char>)
        requires
            g@.len() >= 1 && g@[0] is Some,
            forall|k: int|
                0 <= k < g@.len() && #[trigger] g@[k] is Some ==> byte_slice(
                    h@,
                    (g@[k]->Some_0).0 as int,
                    (g@[k]->Some_0).1 as int,
                ) is Some,
        ensures
            r@ == anchor_replacement(h@, crate::regex::groups_view(*g)),
    {
        let ghost gv = crate::regex::groups_view(*g);
        if g.len() > 4 && g[1].is_some() && g[3].is_some() && g[4].is_some() {
            assert(g@[1] is Some && g@[3] is Some && g@[4] is Some);
            let tag = span_chars(h, g[1].unwrap());
            let id = span_chars(h, g[3].unwrap());
            let content = span_chars(h, g[4].unwrap());
            let mut out: Vec<char> = Vec::new();
            crate::text::push_str(&mut out, "<");
            out.extend_from_slice(tag.as_slice());
            crate::text::push_str(&mut out, " id=\"");
            out.extend_from_slice(id.as_slice());
            crate::text::push_str(&mut out, "\"><a href=\"#");
            out.extend_from_slice(id.as_slice());
            crate::text::push_str(&mut out, "\" class=\"header-anchor\">");
            out.extend_from_slice(content.as_slice());
            crate::text::push_str(
                &mut out,
                "<span class=\"anchor-icon\" title=\"Copy link\">#</span></a></",
            );
            out.extend_from_slice(tag.as_slice());
            crate::text::push_str(&mut out, ">");
            assert(gv[1]->Some_0 == ((g@[1]->Some_0).0 as nat, (g@[1]->Some_0).1 as nat));
            assert(gv[3]->Some_0 == ((g@[3]->Some_0).0 as nat, (g@[3]->Some_0).1 as nat));
            assert(gv[4]->Some_0 == ((g@[4]->Some_0).0 as nat, (g@[4]->Some_0).1 as nat));
            assert(out@ =~= anchor_replacement(h@, gv));
            out
        } else {
            assert(gv[0]->Some_0 == ((g@[0]->Some_0).0 as nat, (g@[0]->Some_0).1 as nat));
            span_chars(h, g[0].unwrap())
        }
    }
}


// --------------------------------------------------
// laws on first headings and sources
// --------------------------------------------------
/// The first line starting with `# ` is found, counting from line 0.
proof fn lemma_first_h1_line_at(lines: Seq<Seq<char>>, i: int)
    requires
        0 <= i < lines.len(),
        starts_with(lines[i], "# "@),
        forall|j: int| 0 <= j < i ==> !starts_with(#[trigger] lines[j], "# "@),
    ensures
        first_h1_line(lines) == Some(lines[i]),
    decreases i,
{
    if i > 0 {
        assert(!starts_with(lines[0], "# "@));
        assert forall|j: int| 0 <= j < i - 1 implies !starts_with(#[trigger] lines.drop_first()[j], "# "@) by {
            assert(lines.drop_first()[j] == lines[j + 1]);
        }
        lemma_first_h1_line_at(lines.drop_first(), i - 1);
    }
}

/// No line starting with `# ` gives no heading.
proof fn lemma_first_h1_line_none(lines: Seq<Seq<char>>)
    requires
        forall|j: int| 0 <= j < lines.len() ==> !starts_with(#[trigger] lines[j], "# "@),
    ensures
        first_h1_line(lines) is None,
    decreases lines.len(),
{
    if lines.len() > 0 {
        assert(!starts_with(lines[0], "# "@));
        assert forall|j: int| 0 <= j < lines.len() - 1 implies !starts_with(
            #[trigger] lines.drop_first()[j],
            "# "@,
        ) by {
            assert(lines.drop_first()[j] == lines[j + 1]);
        }
        lemma_first_h1_line_none(lines.drop_first());
    }
}

/// Law: the title of a markdown text comes from its first line, counting
/// from line 0, that starts with `# `: that line with its leading `# `
/// markers removed and trimmed. Every line is looked at, the first one
/// included.
pub proof fn law_extract_h1_first_heading(md: Seq<char>, i: int)
    requires
        0 <= i < text_lines(md).len(),
        starts_with(text_lines(md)[i], "# "@),
        forall|j: int| 0 <= j < i ==> !starts_with(#[trigger] text_lines(md)[j], "# "@),
    ensures
        spec_extract_h1(md) == Some(trim(trim_start_matches(text_lines(md)[i], "# "@))),
{
    lemma_first_h1_line_at(text_lines(md), i);
}

/// Law: a markdown text with no line starting with `# ` has no title.
pub proof fn law_extract_h1_none(md: Seq<char>)
    requires
        forall|j: int| 0 <= j < text_lines(md).len() ==> !starts_with(#[trigger] text_lines(md)[j], "# "@),
    ensures
        spec_extract_h1(md) is None,
{
    lemma_first_h1_line_none(text_lines(md));
}

/// Law: markdown that opens with the line `# t` has the title `t`, its
/// leading `# ` markers removed and trimmed (`# My First Post\n\nSome
/// body text.\n` has the title `My First Post`).
pub proof fn law_extract_h1_title_first_line(t: Seq<char>, rest: Seq<char>)
    requires
        forall|k: int| 0 <= k < t.len() ==> t[k] != '\n',
        t.len() == 0 || t.last() != '\r',
    ensures
        spec_extract_h1("# "@ + t + "\n"@ + rest) == Some(trim(trim_start_matches("# "@ + t, "# "@))),
{
    reveal_strlit("# ");
    let line = "# "@ + t;
    assert forall|k: int| 0 <= k < line.len() implies line[k] != '\n' by {
        if k >= 2 {
            assert(line[k] == t[k - 2]);
        }
    }
    lemma_first_line(line, rest);
    assert(strip_cr(line) == line);
    assert(line.subrange(0, 2) =~= "# "@);
    law_extract_h1_first_heading(line + "\n"@ + rest, 0);
}

/// Law: a path with extension `md` is read as markdown and one with
/// extension `html` as HTML, both as they stand; a folder is read from its
/// `index.html` where that exists, else from its `index.md`.
pub proof fn law_resolve_source_kind(path: Seq<char>, html: bool, md: bool)
    ensures
        extension(path) == Some("md"@) ==> spec_resolve_source(path, html, md) == (path, SourceType::Markdown),
        extension(path) == Some("html"@) ==> spec_resolve_source(path, html, md) == (path, SourceType::Html),
        extension(path) is None && html ==> spec_resolve_source(path, html, md) == (
            join(path, "index.html"@),
            SourceType::Html,
        ),
        extension(path) is None && !html ==> spec_resolve_source(path, html, md) == (
            join(path, "index.md"@),
            SourceType::Markdown,
        ),
{
    reveal_strlit("md");
    reveal_strlit("html");
    assert("md"@ != "html"@) by {
        assert("md"@.len() != "html"@.len());
    }
}

} // verus!
