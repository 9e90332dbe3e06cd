//! Posts: dates read from `YYYY/MM/DD` directory components, and the
//! metadata and page types built from them.
use vstd::prelude::*;

use crate::prelude::SourcePath;
use crate::text::joined_text;

use crate::blog::{calendar_label, push_calendar_label};
use crate::markdown::{
    anchored_from, anchors_ready, join, join_exec, spec_extract_h1, spec_strip_first_h1, toc_of,
    toc_ready, toc_view, MarkdownDocument, HEADING_PATTERN,
};
use crate::regex::regex_capture_spans;
use crate::primitives::{SidebarType, TocEntry};
use crate::sorting::{
    lemma_lex_asym, lemma_lex_total, lemma_lex_trans, lex_less, listed_in_order, stable_arrangement,
    stable_sort, ListOrder,
};
use crate::titles::{slug_title, title_from_slug};
use crate::text::{
    byte_len, byte_len_upto, chars_of, decimal, lemma_byte_len_ascii, lemma_digits_value_bound,
    lemma_padded_concat_order, lemma_padded_concat_small, lemma_pow10_mono, lex_lt, nat_lex_lt,
    parse_digits, pow10, push_decimal, push_str, push_zero_padded,
    digit_field, digits_value, string_from_chars, zero_padded,
};

verus! {

/// `{lead}{s}{tail}`
pub open spec fn dir_message(lead: Seq<char>, s: Seq<char>, tail: Seq<char>) -> Seq<char> {
    lead + s + tail
}

/// `{field} {value} out of range {range}`
pub open spec fn post_range_message(field: Seq<char>, value: nat, range: Seq<char>) -> Seq<
    char,
> {
    field + decimal(value) + range
}

/// A post date from its `YYYY`, `MM`, `DD` directory names.
pub open spec fn spec_post_date(y: Seq<char>, m: Seq<char>, d: Seq<char>) -> Result<
    (u16, u8, u8),
    Seq<char>,
> {
    if byte_len(y) != 4 {
        Err(dir_message("Year dir `"@, y, "` must be 4 digits"@))
    } else if byte_len(m) != 2 {
        Err(dir_message("Month dir `"@, m, "` must be 2 digits"@))
    } else if byte_len(d) != 2 {
        Err(dir_message("Day dir `"@, d, "` must be 2 digits"@))
    } else if !digit_field(y) {
        Err(dir_message("Invalid year `"@, y, "`"@))
    } else if !digit_field(m) {
        Err(dir_message("Invalid month `"@, m, "`"@))
    } else if !digit_field(d) {
        Err(dir_message("Invalid day `"@, d, "`"@))
    } else if !(1 <= digits_value(m) <= 12) {
        Err(post_range_message("Month "@, digits_value(m), " out of range 1-12"@))
    } else if !(1 <= digits_value(d) <= 31) {
        Err(post_range_message("Day "@, digits_value(d), " out of range 1-31"@))
    } else {
        Ok(
            (
                digits_value(y) as u16,
                digits_value(m) as u8,
                digits_value(d) as u8,
            ),
        )
    }
}

/// A parsed post date from `YYYY/MM/DD` directory components.
#[derive(Clone, Debug)]
pub struct PostDateFormat {
    /// Year, e.g. `2026`
    pub year: u16,
    /// Month, 1-12
    pub month: u8,
    /// Day, 1-31
    pub day: u8,
}

/// `"YYYYMMDD"`, each component zero-padded.
pub open spec fn post_key(d: PostDateFormat) -> Seq<char> {
    zero_padded(d.year as nat, 4) + zero_padded(d.month as nat, 2) + zero_padded(d.day as nat, 2)
}

/// `{lead}{s}{tail}` as a `String`.
fn text3(lead: &str, s: &Vec<char>, tail: &str) -> (e: String)
    ensures
        e@ == lead@ + s@ + tail@,
{
    let mut out: Vec<char> = Vec::new();
    push_str(&mut out, lead);
    out.extend_from_slice(s.as_slice());
    push_str(&mut out, tail);
    assert(out@ =~= lead@ + s@ + tail@);
    string_from_chars(&out)
}

/// `{field}{value}{range}` as a `String`.
fn range_text(field: &str, value: u64, range: &str) -> (e: String)
    ensures
        e@ == post_range_message(field@, value as nat, range@),
{
    let mut out: Vec<char> = Vec::new();
    push_str(&mut out, field);
    push_decimal(&mut out, value);
    push_str(&mut out, range);
    assert(out@ =~= post_range_message(field@, value as nat, range@));
    string_from_chars(&out)
}

/// Whether the encoding of `s` is exactly `n` bytes.
fn has_byte_len(s: &Vec<char>, n: usize) -> (b: bool)
    requires
        n <= 8,
    ensures
        b == (byte_len(s@) == n),
{
    match byte_len_upto(s, n) {
        Some(k) => k == n,
        None => false,
    }
}

/// A field of digits is ASCII, so it has as many chars as bytes and a
/// value below `10^n` for `n` chars.
proof fn lemma_digits_field_bound(s: Seq<char>)
    requires
        digit_field(s),
    ensures
        s.len() == byte_len(s),
        digits_value(s) < pow10(s.len()),
{
    assert forall|x: int| 0 <= x < s.len() implies (#[trigger] s[x] as u32) < 0x80 by {
        assert(crate::text::is_digit(s[x]));
    }
    lemma_byte_len_ascii(s);
    lemma_digits_value_bound(s);
}

impl PostDateFormat {
    /// Build from the `YYYY`, `MM`, `DD` parent-directory strings.
    pub fn from_path_parts(year: &str, month: &str, day: &str) -> (r: Result<
        PostDateFormat,
        String,
    >)
        ensures
            match spec_post_date(year@, month@, day@) {
                Ok((y, m, d)) => r matches Ok(v) && v.year == y && v.month == m && v.day == d,
                Err(e) => r matches Err(msg) && msg@ == e,
            },
    {
        let y = chars_of(year);
        let m = chars_of(month);
        let d = chars_of(day);
        if !has_byte_len(&y, 4) {
            return Err(text3("Year dir `", &y, "` must be 4 digits"));
        }
        if !has_byte_len(&m, 2) {
            return Err(text3("Month dir `", &m, "` must be 2 digits"));
        }
        if !has_byte_len(&d, 2) {
            return Err(text3("Day dir `", &d, "` must be 2 digits"));
        }
        proof {
            crate::text::lemma_len_le_byte_len(y@);
            crate::text::lemma_len_le_byte_len(m@);
            crate::text::lemma_len_le_byte_len(d@);
        }
        let yv = match parse_digits(&y) {
            Some(v) => v,
            None => {
                return Err(text3("Invalid year `", &y, "`"));
            },
        };
        let mv = match parse_digits(&m) {
            Some(v) => v,
            None => {
                return Err(text3("Invalid month `", &m, "`"));
            },
        };
        let dv = match parse_digits(&d) {
            Some(v) => v,
            None => {
                return Err(text3("Invalid day `", &d, "`"));
            },
        };
        if !(1 <= mv && mv <= 12) {
            return Err(range_text("Month ", mv, " out of range 1-12"));
        }
        if !(1 <= dv && dv <= 31) {
            return Err(range_text("Day ", dv, " out of range 1-31"));
        }
        proof {
            lemma_digits_field_bound(y@);
            reveal_with_fuel(pow10, 5);
        }
        Ok(PostDateFormat { year: yv as u16, month: mv as u8, day: dv as u8 })
    }

    /// Returns a sortable string `"YYYYMMDD"` for ordering posts.
    pub fn as_key(&self) -> (key: String)
        ensures
            key@ == post_key(*self),
    {
        let mut out: Vec<char> = Vec::new();
        push_zero_padded(&mut out, self.year as u64, 4);
        push_zero_padded(&mut out, self.month as u64, 2);
        push_zero_padded(&mut out, self.day as u64, 2);
        assert(out@ =~= post_key(*self));
        string_from_chars(&out)
    }

    /// Renders as `"March 29, 2026"`; the month must be 1-12.
    pub fn to_string(&self) -> (s: String)
        requires
            1 <= self.month <= 12,
        ensures
            s@ == calendar_label(self.year as nat, self.month, self.day as nat),
    {
        let mut out: Vec<char> = Vec::new();
        push_calendar_label(&mut out, self.year as u64, self.month, self.day as u64);
        string_from_chars(&out)
    }
}

/// Law: post keys order post dates chronologically, for dates whose
/// components fit the key widths (as every parsed one does).
pub proof fn law_post_key_orders_chronologically(a: PostDateFormat, b: PostDateFormat)
    requires
        a.year <= 9999 && a.month <= 99 && a.day <= 99,
        b.year <= 9999 && b.month <= 99 && b.day <= 99,
    ensures
        lex_lt(post_key(a), post_key(b)) <==> nat_lex_lt(
            seq![a.year as nat, a.month as nat, a.day as nat],
            seq![b.year as nat, b.month as nat, b.day as nat],
        ),
        post_key(a) == post_key(b) <==> (a.year == b.year && a.month == b.month && a.day == b.day),
{
    let ca = seq![a.year as nat, a.month as nat, a.day as nat];
    let cb = seq![b.year as nat, b.month as nat, b.day as nat];
    let w = seq![4nat, 2nat, 2nat];
    lemma_padded_concat_small(ca, w);
    lemma_padded_concat_small(cb, w);
    reveal_with_fuel(pow10, 5);
    assert forall|i: int| 0 <= i < w.len() implies #[trigger] ca[i] < pow10(w[i]) && w[i] >= 1 by {}
    assert forall|i: int| 0 <= i < w.len() implies #[trigger] cb[i] < pow10(w[i]) by {}
    lemma_padded_concat_order(ca, cb, w);
    if ca == cb {
        assert(ca[0] == cb[0] && ca[1] == cb[1] && ca[2] == cb[2]);
    }
    if a.year == b.year && a.month == b.month && a.day == b.day {
        assert(ca =~= cb);
    }
}

// --------------------------------------------------
// page types
// --------------------------------------------------
/// Metadata for a single post, used for indexing.
#[derive(Clone, Debug)]
pub struct Post {
    /// Display title (from first H1 in markdown)
    pub title: String,
    /// Formatted display date, e.g. "March 29, 2026"
    pub date: String,
    /// Raw YYYYMMDD string for sorting
    pub date_raw: String,
    /// Deployment URL, e.g. "/posts/hello-world"
    pub url: String,
}

/// The posts homepage / listing page.
pub struct PostsHomepage {
    /// Page title
    pub title: String,
    /// Sidebar type
    pub sidebar: SidebarType,
    /// The posts listed, newest first
    pub posts: Vec<Post>,
}

/// An individual post page, its markdown rendered as HTML.
pub struct PostTemplate {
    /// Page title
    pub title: String,
    /// Post title, see [`Post::title`]
    pub post_title: String,
    /// Sidebar type
    pub sidebar: SidebarType,
    /// Formatted display date, see [`Post::date`]
    pub date: String,
    /// The rendered HTML content of the post
    pub content: String,
    /// Table of contents entries
    pub toc: Vec<TocEntry>,
}


// --------------------------------------------------
// posts read from the posts directory
// --------------------------------------------------
/// A post's title: its markdown's first `# ` heading, else the title its
/// slug gives.
pub open spec fn post_title(slug: Seq<char>, md: Seq<char>) -> Seq<char> {
    match spec_extract_h1(md) {
        Some(t) => t,
        None => slug_title(slug),
    }
}

/// A post read from a `YYYY/MM/DD/<slug>/` directory.
pub struct ParsedPost {
    /// Page title
    pub title: String,
    /// File name (the slug directory's name)
    pub filename: String,
    /// Slug, the leaf directory's name (used for the URL)
    pub slug: String,
    /// Source file, always `<slug>/index.md`
    pub src: String,
    /// Date from the parent directories
    pub date: PostDateFormat,
}

impl ParsedPost {
    /// The post an entry of a day directory gives: it must be a folder
    /// holding `index.md`, whose markdown `md_content` was read (`None` when
    /// it could not be); its title is the markdown's first heading, else
    /// the one its slug gives.
    pub fn new(
        slug: String,
        path: String,
        is_dir: bool,
        index_md_exists: bool,
        md_content: Option<String>,
        date: PostDateFormat,
    ) -> (r: Option<ParsedPost>)
        ensures
            match md_content {
                Some(md) if is_dir && index_md_exists => r matches Some(p) && p.slug == slug
                    && p.filename@ == slug@ && p.src@ == join(path@, "index.md"@) && p.date == date
                    && p.title@ == post_title(slug@, md@),
                _ => r is None,
            },
    {
        if !is_dir || !index_md_exists {
            return None;
        }
        let md = match md_content {
            Some(m) => m,
            None => {
                return None;
            },
        };
        let src = string_from_chars(&join_exec(&chars_of(path.as_str()), &chars_of("index.md")));
        let title = match MarkdownDocument::extract_h1(md.as_str()) {
            Some(t) => t,
            None => title_from_slug(slug.as_str()),
        };
        let filename = string_from_chars(&chars_of(slug.as_str()));
        Some(ParsedPost { title, filename, slug, src, date })
    }

    /// The listing entry of this post: its title, its date as text and as
    /// a sort key, and its URL `/posts/{slug}`.
    pub fn to_meta(&self) -> (r: Post)
        requires
            1 <= self.date.month <= 12,
        ensures
            r.title@ == self.title@,
            r.date@ == calendar_label(self.date.year as nat, self.date.month, self.date.day as nat),
            r.date_raw@ == post_key(self.date),
            r.url@ == "/posts/"@ + self.slug@,
    {
        let mut url: Vec<char> = Vec::new();
        push_str(&mut url, "/posts/");
        push_str(&mut url, self.slug.as_str());
        Post {
            title: string_from_chars(&chars_of(self.title.as_str())),
            date: self.date.to_string(),
            date_raw: self.date.as_key(),
            url: string_from_chars(&url),
        }
    }
}

/// Listing entries go newest first: by their raw date, larger first.
impl ListOrder for Post {
    open spec fn goes_before(&self, other: &Self) -> bool {
        lex_lt(other.date_raw@, self.date_raw@)
    }

    proof fn lemma_list_order(a: &Self, b: &Self, c: &Self) {
        lemma_lex_asym(a.date_raw@, b.date_raw@);
        lemma_lex_asym(b.date_raw@, a.date_raw@);
        lemma_lex_total(a.date_raw@, b.date_raw@);
        if lex_lt(a.date_raw@, b.date_raw@) && lex_lt(c.date_raw@, a.date_raw@) {
            lemma_lex_trans(c.date_raw@, a.date_raw@, b.date_raw@);
        }
    }

    fn precedes(&self, other: &Self) -> (r: bool) {
        lex_less(other.date_raw.as_str(), self.date_raw.as_str())
    }
}

/// The posts listing, newest first; posts of the same raw date keep their
/// order.
pub fn newest_first(posts: Vec<Post>) -> (r: Vec<Post>)
    ensures
        listed_in_order(r@),
        exists|idx: Seq<int>| #[trigger] stable_arrangement(r@, posts@, idx),
{
    stable_sort(posts)
}

impl SourcePath<PostsHomepage> for PostsHomepage {
    /// `{templates_dir}/posts/posts.html`
    fn src_path(templates_dir: &str) -> (r: String)
        ensures
            r@ == templates_dir@ + "/posts/posts.html"@,
    {
        joined_text(templates_dir, "/posts/posts.html")
    }
}

impl PostTemplate {
    /// The page of `post`, titled `title`, from the HTML its markdown
    /// renders to (see [`MarkdownDocument::post_page_content`]); `None`
    /// where a heading search fails.
    pub fn new(title: String, post: &ParsedPost, html: &str) -> (r: Option<PostTemplate>)
        requires
            1 <= post.date.month <= 12,
        ensures
            match r {
                Some(page) => {
                    let body = spec_strip_first_h1(html@);
                    &&& toc_ready(body) && anchors_ready(body)
                    &&& page.title == title
                    &&& page.post_title@ == post.title@
                    &&& page.sidebar == SidebarType::Posts
                    &&& page.date@ == calendar_label(post.date.year as nat, post.date.month, post.date.day as nat)
                    &&& page.content@ == anchored_from(body, regex_capture_spans(HEADING_PATTERN@, body)->Some_0, 0, 0)
                    &&& page.toc@.map_values(|e: TocEntry| toc_view(e)) == toc_of(
                        body,
                        regex_capture_spans(HEADING_PATTERN@, body)->Some_0,
                    )
                },
                None => !(toc_ready(spec_strip_first_h1(html@)) && anchors_ready(spec_strip_first_h1(html@))),
            },
    {
        let (content, toc) = MarkdownDocument::post_page_content(html)?;
        Some(PostTemplate {
            title,
            post_title: string_from_chars(&chars_of(post.title.as_str())),
            sidebar: SidebarType::Posts,
            date: post.date.to_string(),
            content,
            toc,
        })
    }
}

} // verus!
